use vstd::prelude::*;
use crossbeam_channel::{Receiver, Sender};
use crate::event::{EventChannel, EventLog, ReaderId};
use crate::store::{World, WorldView};

verus! {

#[verifier::external_type_specification]
#[verifier::external_body]
#[verifier::reject_recursive_types(T)]
pub struct ExReceiver<T>(crossbeam_channel::Receiver<T>);

#[verifier::external_type_specification]
#[verifier::external_body]
#[verifier::reject_recursive_types(T)]
pub struct ExSender<T>(crossbeam_channel::Sender<T>);

/// An intent sent in by the presentation layer.
#[derive(Clone, Copy, Debug, PartialEq, Eq, Structural)]
pub enum PlayerAction {
    StartGame,
    IncrementTurn,
}

/// An internal event asking for the current state to be pushed out.
#[derive(Clone, Copy, Debug, PartialEq, Eq, Structural)]
pub enum Broadcast {
    ShareChanges,
}

/// The inbound endpoint: intents produced outside the kernel.
pub struct FrontendReceiver {
    pub receiver: Receiver<PlayerAction>,
}

/// The outbound endpoint: turn values pushed to the presentation layer.
pub struct FrontendSender {
    pub sender: Sender<usize>,
}

/// What one non-blocking receive on the inbound endpoint gave.
#[derive(Clone, Copy, Debug, PartialEq, Eq, Structural)]
pub enum Received {
    Action(PlayerAction),
    Empty,
    Disconnected,
}

/// What one non-blocking send on the outbound endpoint gave.
#[derive(Clone, Copy, Debug, PartialEq, Eq, Structural)]
pub enum SendOutcome {
    Delivered,
    Full,
    Disconnected,
}

/// Something a stage did towards the outside, or could not do, during a tick.
#[derive(Clone, Copy, Debug, PartialEq, Eq, Structural)]
pub enum Report {
    /// No inbound endpoint is installed; ingestion was skipped.
    InboundMissing,
    /// The inbound endpoint is closed for good.
    InboundClosed,
    /// No outbound endpoint is installed; broadcasts stay unread.
    OutboundMissing,
    /// The value was handed to the outbound endpoint.
    Pushed(usize),
    /// The outbound endpoint refused the value (its receiver is gone).
    PushFailed(usize),
}

/// Relies on crossbeam_channel::Receiver::try_recv: it never blocks, and
/// yields a message, or reports the channel empty or disconnected.
#[verifier::external_body]
fn try_receive(r: &Receiver<PlayerAction>) -> (o: Received) {
    match r.try_recv() {
        Ok(action) => Received::Action(action),
        Err(crossbeam_channel::TryRecvError::Empty) => Received::Empty,
        Err(crossbeam_channel::TryRecvError::Disconnected) => Received::Disconnected,
    }
}

/// Relies on crossbeam_channel::Sender::try_send: it never blocks, and either
/// queues the value or reports the channel full or disconnected.
#[verifier::external_body]
fn try_push(s: &Sender<usize>, value: usize) -> (o: SendOutcome) {
    match s.try_send(value) {
        Ok(()) => SendOutcome::Delivered,
        Err(crossbeam_channel::TrySendError::Full(_)) => SendOutcome::Full,
        Err(crossbeam_channel::TrySendError::Disconnected(_)) => SendOutcome::Disconnected,
    }
}

/// The intent log after one receive outcome has been ingested.
pub open spec fn ingested(log: EventLog<PlayerAction>, o: Received) -> EventLog<PlayerAction> {
    match o {
        Received::Action(a) => log.publish(a),
        _ => log,
    }
}

/// The reports that ingesting one receive outcome gives.
pub open spec fn ingest_reports(o: Received) -> Seq<Report> {
    match o {
        Received::Disconnected => seq![Report::InboundClosed],
        _ => Seq::empty(),
    }
}

/// One tick of ingestion: with no inbound endpoint nothing changes; with one,
/// some receive outcome is ingested. Only the intent log may change.
pub open spec fn ingest_step(before: WorldView, after: WorldView, reports: Seq<Report>) -> bool {
    if !before.inbound {
        after == before && reports == seq![Report::InboundMissing]
    } else {
        exists|o: Received|
            after == (WorldView { actions: ingested(before.actions, o), ..before }) && reports
                == ingest_reports(o)
    }
}

pub proof fn lemma_ingest_keeps_readers(before: WorldView, after: WorldView, reports: Seq<Report>)
    requires
        ingest_step(before, after, reports),
    ensures
        after.actions.cursors == before.actions.cursors,
        after.broadcasts == before.broadcasts,
        after.turn == before.turn,
{
    if before.inbound {
        let o = choose|o: Received|
            after == (WorldView { actions: ingested(before.actions, o), ..before }) && reports
                == ingest_reports(o);
        assert(after.actions == ingested(before.actions, o));
    }
}

/// The report for one send attempt of `value`.
pub open spec fn push_report(value: usize, o: SendOutcome) -> Report {
    match o {
        SendOutcome::Delivered => Report::Pushed(value),
        _ => Report::PushFailed(value),
    }
}

/// Reports one send attempt of `value` that ended with `o`.
pub fn report_push(value: usize, o: SendOutcome) -> (r: Report)
    ensures
        r == push_report(value, o),
{
    match o {
        SendOutcome::Delivered => Report::Pushed(value),
        _ => Report::PushFailed(value),
    }
}

/// Each report is one send attempt of `value`.
pub open spec fn all_pushes_of(reports: Seq<Report>, value: usize) -> bool {
    forall|i: int|
        0 <= i < reports.len() ==> (reports[i] == Report::Pushed(value) || reports[i]
            == Report::PushFailed(value))
}

/// One tick of the outbound stage: with no outbound endpoint nothing is read;
/// with one, every unread broadcast is consumed and gives exactly one send
/// attempt of the current turn value.
pub open spec fn push_step(
    reader: nat,
    before: WorldView,
    after: WorldView,
    reports: Seq<Report>,
) -> bool {
    if !before.outbound {
        after == before && reports == seq![Report::OutboundMissing]
    } else {
        &&& after == (WorldView { broadcasts: before.broadcasts.consume(reader), ..before })
        &&& reports.len() == before.broadcasts.unread(reader).len()
        &&& all_pushes_of(reports, before.turn as usize)
    }
}

/// Publishes one receive outcome into the intent channel.
pub fn ingest(channel: &mut EventChannel<PlayerAction>, o: Received) -> (reports: Vec<Report>)
    requires
        old(channel).wf(),
    ensures
        final(channel).wf(),
        final(channel)@ == ingested(old(channel)@, o),
        reports@ == ingest_reports(o),
{
    let mut reports: Vec<Report> = Vec::new();
    match o {
        Received::Action(a) => channel.single_write(a),
        Received::Empty => {},
        Received::Disconnected => reports.push(Report::InboundClosed),
    }
    proof {
        if o is Disconnected {
            assert(reports@ =~= seq![Report::InboundClosed]);
        } else {
            assert(reports@ =~= Seq::<Report>::empty());
        }
    }
    reports
}

/// Bridges the inbound endpoint into the intent channel, one intent per tick.
pub struct ActionChannelSystem;

impl ActionChannelSystem {
    /// One tick: with an inbound endpoint, one non-blocking receive, whose
    /// intent (if any) is published; without one, nothing but a report.
    pub fn run(&self, world: &mut World) -> (reports: Vec<Report>)
        requires
            old(world).wf(),
        ensures
            final(world).wf(),
            ingest_step(old(world)@, final(world)@, reports@),
    {
        match &world.frontend_receiver {
            None => {
                let reports = vec![Report::InboundMissing];
                assert(reports@ =~= seq![Report::InboundMissing]);
                reports
            },
            Some(chan) => {
                let outcome = try_receive(&chan.receiver);
                let reports = ingest(&mut world.actions, outcome);
                assert(world@ == (WorldView {
                    actions: ingested(old(world)@.actions, outcome),
                    ..old(world)@
                }));
                reports
            },
        }
    }
}

/// Bridges broadcast events to the outbound endpoint: one send of the turn
/// value per broadcast read.
pub struct SendToFrontendSystem {
    reader_id: ReaderId,
}

impl SendToFrontendSystem {
    /// The broadcast reader this stage owns.
    pub closed spec fn reader(&self) -> nat {
        self.reader_id.index()
    }

    /// Joins the pipeline: registers a reader at the broadcast channel's head.
    pub fn new(world: &mut World) -> (s: Self)
        requires
            old(world).wf(),
        ensures
            final(world).wf(),
            final(world)@ == (WorldView { broadcasts: old(world)@.broadcasts.register(), ..old(world)@ }),
            s.reader() == old(world)@.broadcasts.cursors.len(),
    {
        let reader_id = world.broadcasts.register_reader();
        SendToFrontendSystem { reader_id }
    }

    /// One tick: with an outbound endpoint, reads every pending broadcast and
    /// sends the current turn value once for each; without one, reads nothing.
    pub fn run(&self, world: &mut World) -> (reports: Vec<Report>)
        requires
            old(world).wf(),
            self.reader() < old(world)@.broadcasts.cursors.len(),
        ensures
            final(world).wf(),
            push_step(self.reader(), old(world)@, final(world)@, reports@),
    {
        match &world.frontend_sender {
            None => {
                let reports = vec![Report::OutboundMissing];
                assert(reports@ =~= seq![Report::OutboundMissing]);
                reports
            },
            Some(chan) => {
                let pending = world.broadcasts.read(&self.reader_id);
                let value = world.turn.number;
                let mut reports: Vec<Report> = Vec::new();
                let mut i: usize = 0;
                while i < pending.len()
                    invariant
                        world.wf(),
                        world@ == (WorldView {
                            broadcasts: old(world)@.broadcasts.consume(self.reader()),
                            ..old(world)@
                        }),
                        value as nat == world@.turn,
                        i <= pending@.len(),
                        reports@.len() == i,
                        all_pushes_of(reports@, value),
                    decreases pending@.len() - i,
                {
                    let outcome = try_push(&chan.sender, value);
                    reports.push(report_push(value, outcome));
                    i = i + 1;
                }
                reports
            },
        }
    }
}

} // verus!
