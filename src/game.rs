use vstd::prelude::*;
use crate::event::{EventLog, ReaderId};
use crate::io::{Broadcast, PlayerAction};
use crate::store::{placeholders_wf, World, WorldView};

verus! {

/// The turn counter; it starts at 0.
pub struct TurnResource {
    pub number: usize,
}

impl Default for TurnResource {
    fn default() -> (t: TurnResource)
        ensures
            t.number == 0,
    {
        TurnResource { number: 0 }
    }
}

/// How many of `acts` advance the turn.
pub open spec fn increments(acts: Seq<PlayerAction>) -> nat
    decreases acts.len(),
{
    if acts.len() == 0 {
        0
    } else {
        increments(acts.drop_last()) + if acts.last() == PlayerAction::IncrementTurn {
            1nat
        } else {
            0nat
        }
    }
}

/// The broadcast that one processed intent emits.
pub open spec fn broadcast_for(a: PlayerAction) -> Broadcast {
    match a {
        PlayerAction::StartGame => Broadcast::ShareChanges,
        PlayerAction::IncrementTurn => Broadcast::ShareChanges,
    }
}

/// The broadcasts that processing `acts` emits: one per intent, in order.
pub open spec fn broadcasts_for(acts: Seq<PlayerAction>) -> Seq<Broadcast> {
    acts.map_values(|a: PlayerAction| broadcast_for(a))
}

/// The broadcast log after `es` have been published, in order.
pub open spec fn publish_all(log: EventLog<Broadcast>, es: Seq<Broadcast>) -> EventLog<Broadcast> {
    EventLog { history: log.history + es, cursors: log.cursors }
}

/// The turn counter after processing `acts` from `turn`, if it fits.
pub open spec fn turn_fits(turn: nat, acts: Seq<PlayerAction>) -> bool {
    turn + increments(acts) <= usize::MAX
}

/// One tick of the turn rule with reader `reader`: every unread intent is
/// consumed; if the counter can absorb them, it advances by one per
/// `IncrementTurn` and each intent emits one broadcast, in order.
pub open spec fn turn_step(reader: nat, before: WorldView, after: WorldView) -> bool {
    let acts = before.actions.unread(reader);
    &&& turn_fits(before.turn, acts)
    &&& after == (WorldView {
        turn: before.turn + increments(acts),
        actions: before.actions.consume(reader),
        broadcasts: publish_all(before.broadcasts, broadcasts_for(acts)),
        ..before
    })
}

/// The turn rule, over any intents split across any two ticks: the counter
/// never decreases, each `IncrementTurn` adds exactly one, `StartGame` adds
/// nothing, and processing in two ticks gives what one tick over both gives.
pub proof fn lemma_turn_rule(turn: nat, a: Seq<PlayerAction>, b: Seq<PlayerAction>)
    ensures
        turn <= turn + increments(a),
        increments(a.push(PlayerAction::IncrementTurn)) == increments(a) + 1,
        increments(a.push(PlayerAction::StartGame)) == increments(a),
        increments(a + b) == increments(a) + increments(b),
        broadcasts_for(a + b) == broadcasts_for(a) + broadcasts_for(b),
    decreases b.len(),
{
    assert(a.push(PlayerAction::IncrementTurn).drop_last() == a);
    assert(a.push(PlayerAction::StartGame).drop_last() == a);
    if b.len() == 0 {
        assert(a + b =~= a);
    } else {
        lemma_turn_rule(turn, a, b.drop_last());
        assert((a + b).drop_last() =~= a + b.drop_last());
    }
    assert(broadcasts_for(a + b) =~= broadcasts_for(a) + broadcasts_for(b));
}

proof fn lemma_increments_prefix(acts: Seq<PlayerAction>, i: int)
    requires
        0 <= i < acts.len(),
    ensures
        increments(acts.subrange(0, i + 1)) == increments(acts.subrange(0, i)) + if acts[i]
            == PlayerAction::IncrementTurn {
            1nat
        } else {
            0nat
        },
        increments(acts.subrange(0, i)) <= increments(acts),
        increments(acts.subrange(0, i + 1)) <= increments(acts),
    decreases acts.len() - i,
{
    assert(acts.subrange(0, i + 1).drop_last() =~= acts.subrange(0, i));
    if i + 1 < acts.len() {
        lemma_increments_prefix(acts, i + 1);
    } else {
        assert(acts.subrange(0, i + 1) =~= acts);
    }
}

/// Why a stage failed; a failure aborts the tick.
#[derive(Clone, Copy, Debug, PartialEq, Eq, Structural)]
pub enum StageError {
    /// The turn counter cannot absorb the intents read this tick.
    TurnOverflow,
}

/// The game rule: advances the turn counter on `IncrementTurn` and emits one
/// broadcast per intent.
pub struct TurnIncrementSystem {
    reader_id: ReaderId,
}

impl TurnIncrementSystem {
    /// The intent reader this stage owns.
    pub closed spec fn reader(&self) -> nat {
        self.reader_id.index()
    }

    /// Joins the pipeline: registers a reader at the intent channel's head, so
    /// only intents published from now on are seen.
    pub fn new(world: &mut World) -> (s: Self)
        requires
            old(world).wf(),
        ensures
            final(world).wf(),
            final(world)@ == (WorldView { actions: old(world)@.actions.register(), ..old(world)@ }),
            s.reader() == old(world)@.actions.cursors.len(),
    {
        let reader_id = world.actions.register_reader();
        TurnIncrementSystem { reader_id }
    }

    /// Processes every intent published since the last tick, in order. Fails,
    /// changing nothing but consuming the intents, when the counter would
    /// overflow.
    pub fn run(&self, world: &mut World) -> (r: Result<(), StageError>)
        requires
            old(world).wf(),
            self.reader() < old(world)@.actions.cursors.len(),
        ensures
            final(world).wf(),
            r is Ok <==> turn_fits(old(world)@.turn, old(world)@.actions.unread(self.reader())),
            r is Ok ==> turn_step(self.reader(), old(world)@, final(world)@),
            r is Err ==> final(world)@ == (WorldView {
                actions: old(world)@.actions.consume(self.reader()),
                ..old(world)@
            }),
    {
        let acts = world.actions.read(&self.reader_id);
        let mut count: usize = 0;
        let mut i: usize = 0;
        while i < acts.len()
            invariant
                i <= acts@.len(),
                count <= i,
                count as nat == increments(acts@.subrange(0, i as int)),
            decreases acts@.len() - i,
        {
            proof {
                lemma_increments_prefix(acts@, i as int);
            }
            if acts[i] == PlayerAction::IncrementTurn {
                count = count + 1;
            }
            i = i + 1;
        }
        assert(acts@.subrange(0, acts@.len() as int) =~= acts@);
        if count > usize::MAX - world.turn.number {
            return Err(StageError::TurnOverflow);
        }
        let ghost mid = world@;
        let ghost start = world.turn.number as nat;
        let mut j: usize = 0;
        while j < acts.len()
            invariant
                world.wf(),
                placeholders_wf(mid),
                j <= acts@.len(),
                start + increments(acts@) <= usize::MAX,
                world@ == (WorldView {
                    turn: start + increments(acts@.subrange(0, j as int)),
                    broadcasts: publish_all(mid.broadcasts, broadcasts_for(acts@.subrange(0, j as int))),
                    ..mid
                }),
            decreases acts@.len() - j,
        {
            proof {
                lemma_increments_prefix(acts@, j as int);
            }
            match acts[j] {
                PlayerAction::IncrementTurn => {
                    world.turn.number = world.turn.number + 1;
                    world.broadcasts.single_write(Broadcast::ShareChanges);
                },
                PlayerAction::StartGame => {
                    world.broadcasts.single_write(Broadcast::ShareChanges);
                },
            }
            j = j + 1;
            assert(broadcasts_for(acts@.subrange(0, j as int)) =~= broadcasts_for(
                acts@.subrange(0, j - 1),
            ).push(Broadcast::ShareChanges));
            assert(world@.broadcasts.history =~= publish_all(
                mid.broadcasts,
                broadcasts_for(acts@.subrange(0, j as int)),
            ).history);
        }
        assert(acts@.subrange(0, acts@.len() as int) =~= acts@);
        Ok(())
    }
}

} // verus!
