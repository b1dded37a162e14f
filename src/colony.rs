use vstd::prelude::*;
use crossbeam_channel::{Receiver, Sender};
use crate::dispatch::{
    lemma_first_ready_found, plan, ready, resolve, schedule, stage_fits, unique_names,
    known_deps, Dispatcher, DispatcherBuilder, Stage,
};
use crate::event::EventLog;
use crate::io::{
    ActionChannelSystem, Broadcast, FrontendReceiver, FrontendSender, PlayerAction,
    SendToFrontendSystem,
};
use crate::game::TurnIncrementSystem;
use crate::store::World;

verus! {

/// A tag naming the role of an entity.
#[derive(Clone, Copy, Debug)]
pub struct PlaceholderComponent {
    pub name: &'static str,
}

/// The kernel's state: the store every stage works on.
pub struct ColonyState {
    pub world: World,
}

/// Sets up the store with both endpoints, the two event channels, two tagged
/// entities, and the three stages in dependency order: ingestion, then the
/// turn rule, then the outbound push.
pub fn default_state_and_dispatcher(
    input_receiver: Receiver<PlayerAction>,
    event_sender: Sender<usize>,
) -> (r: (ColonyState, Dispatcher))
    ensures
        r.0.world.wf(),
        r.0.world@.turn == 0,
        r.0.world@.inbound,
        r.0.world@.outbound,
        r.0.world@.actions == EventLog::<PlayerAction>::empty().register(),
        r.0.world@.broadcasts == EventLog::<Broadcast>::empty().register(),
        r.0.world@.entities == 2,
        r.0.world@.placeholders.len() == 2,
        r.0.world@.placeholders[0].1.name@ == "Barkeeper"@,
        r.0.world@.placeholders[1].1.name@ == "Guard"@,
        r.1.wf(),
        r.1.pipeline().len() == 3,
        r.1.pipeline()[0] is Ingest,
        r.1.pipeline()[1] is Rule,
        r.1.pipeline()[2] is Push,
        forall|k: int| 0 <= k < r.1.pipeline().len() ==> stage_fits(#[trigger] r.1.pipeline()[k], r.0.world@),
{
    let mut world = World::new();
    world.register_placeholder();
    world.insert_receiver(FrontendReceiver { receiver: input_receiver });
    world.insert_sender(FrontendSender { sender: event_sender });
    world.create_entity().with(PlaceholderComponent { name: "Barkeeper" }).build(&mut world);
    world.create_entity().with(PlaceholderComponent { name: "Guard" }).build(&mut world);
    let turn = TurnIncrementSystem::new(&mut world);
    let push = SendToFrontendSystem::new(&mut world);
    let builder = DispatcherBuilder::new().with(
        Stage::Ingest(ActionChannelSystem),
        "ActionChannelSystem",
        &[],
    ).with(Stage::Rule(turn), "TurnIncrementSystem", &["ActionChannelSystem"]).with(
        Stage::Push(push),
        "SendToFrontendSystem",
        &["TurnIncrementSystem"],
    );
    proof {
        reveal_strlit("ActionChannelSystem");
        reveal_strlit("TurnIncrementSystem");
        reveal_strlit("SendToFrontendSystem");
        let names = builder.names();
        let deps = builder.deps();
        assert(names[0][0] != names[1][0]);
        assert(names[0].len() != names[2].len());
        assert(names[1].len() != names[2].len());
        assert(unique_names(names));
        assert(names[0] == deps[1][0]);
        assert(names[1] == deps[2][0]);
        assert(deps[0].len() == 0);
        assert(known_deps(names, deps)) by {
            assert forall|i: int, k: int| 0 <= i < deps.len() && 0 <= k < deps[i].len() implies names.contains(
                #[trigger] deps[i][k],
            ) by {
                if i == 1 {
                    assert(names[0] == deps[i][k]);
                } else {
                    assert(names[1] == deps[i][k]);
                }
            }
        }
        let d = resolve(names, deps);
        assert(d[1][0] == 0usize);
        assert(d[2][0] == 1usize);
        let s0 = Seq::<usize>::empty();
        let s1 = s0.push(0usize);
        let s2 = s1.push(1usize);
        let s3 = s2.push(2usize);
        assert(ready(d, s0, 0));
        lemma_first_ready_found(d, s0, 0, 0);
        assert(s1[0] == 0usize);
        assert(!ready(d, s1, 0));
        assert(d[1][0] == s1[0]);
        assert(ready(d, s1, 1));
        lemma_first_ready_found(d, s1, 0, 1);
        assert(s2[0] == 0usize && s2[1] == 1usize);
        assert(!ready(d, s2, 0));
        assert(!ready(d, s2, 1));
        assert(d[2][0] == s2[1]);
        assert(ready(d, s2, 2));
        lemma_first_ready_found(d, s2, 0, 2);
        reveal_with_fuel(schedule, 4);
        assert(schedule(d, s0) == Some(s3));
        assert(plan(names, deps) == Ok::<Seq<usize>, crate::dispatch::BuildError>(s3));
    }
    match builder.build() {
        Ok(dispatcher) => (ColonyState { world }, dispatcher),
        Err(_) => vstd::pervasive::unreached(),
    }
}

} // verus!
