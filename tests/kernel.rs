use colony::colony::{default_state_and_dispatcher, PlaceholderComponent};
use colony::dispatch::{BuildError, DispatcherBuilder, Stage};
use colony::event::EventChannel;
use colony::game::{StageError, TurnIncrementSystem, TurnResource};
use colony::io::{
    ingest, report_push, ActionChannelSystem, Broadcast, FrontendSender, PlayerAction, Received, Report,
    SendOutcome, SendToFrontendSystem,
};
use colony::store::World;
use crossbeam_channel::unbounded;

fn drain(r: &crossbeam_channel::Receiver<usize>) -> Vec<usize> {
    let mut out = Vec::new();
    while let Ok(v) = r.try_recv() {
        out.push(v);
    }
    out
}

#[test]
fn scenario_a_single_increment() {
    let (input_sender, input_receiver) = unbounded();
    let (event_sender, event_receiver) = unbounded();
    let (mut state, dispatcher) = default_state_and_dispatcher(input_receiver, event_sender);
    input_sender.send(PlayerAction::IncrementTurn).unwrap();
    dispatcher.dispatch(&mut state.world).unwrap();
    dispatcher.dispatch(&mut state.world).unwrap();
    assert_eq!(state.world.turn_number(), 1);
    assert_eq!(drain(&event_receiver), vec![1]);
}

#[test]
fn scenario_b_start_then_increment() {
    let (input_sender, input_receiver) = unbounded();
    let (event_sender, event_receiver) = unbounded();
    let (mut state, dispatcher) = default_state_and_dispatcher(input_receiver, event_sender);
    input_sender.send(PlayerAction::StartGame).unwrap();
    dispatcher.dispatch(&mut state.world).unwrap();
    input_sender.send(PlayerAction::IncrementTurn).unwrap();
    dispatcher.dispatch(&mut state.world).unwrap();
    assert_eq!(drain(&event_receiver), vec![0, 1]);
    assert_eq!(state.world.turn_number(), 1);
}

#[test]
fn scenario_c_no_inbound_endpoint() {
    let mut world = World::new();
    let (event_sender, event_receiver) = unbounded();
    world.insert_sender(FrontendSender { sender: event_sender });
    let turn = TurnIncrementSystem::new(&mut world);
    let push = SendToFrontendSystem::new(&mut world);
    let dispatcher = DispatcherBuilder::new()
        .with(Stage::Ingest(ActionChannelSystem), "ActionChannelSystem", &[])
        .with(Stage::Rule(turn), "TurnIncrementSystem", &["ActionChannelSystem"])
        .with(Stage::Push(push), "SendToFrontendSystem", &["TurnIncrementSystem"])
        .build()
        .unwrap();
    for _ in 0..1000 {
        let reports = dispatcher.dispatch(&mut world).unwrap();
        assert_eq!(reports, vec![Report::InboundMissing]);
    }
    assert_eq!(world.turn_number(), 0);
    assert!(drain(&event_receiver).is_empty());
}

#[test]
fn scenario_d_outbound_receiver_dropped() {
    let (input_sender, input_receiver) = unbounded();
    let (event_sender, event_receiver) = unbounded::<usize>();
    let (mut state, dispatcher) = default_state_and_dispatcher(input_receiver, event_sender);
    drop(event_receiver);
    input_sender.send(PlayerAction::IncrementTurn).unwrap();
    let reports = dispatcher.dispatch(&mut state.world).unwrap();
    assert_eq!(reports, vec![Report::PushFailed(1)]);
    assert_eq!(state.world.turn_number(), 1);
    // the broadcast was consumed: the next tick pushes nothing
    let reports = dispatcher.dispatch(&mut state.world).unwrap();
    assert!(reports.is_empty());
    input_sender.send(PlayerAction::IncrementTurn).unwrap();
    let reports = dispatcher.dispatch(&mut state.world).unwrap();
    assert_eq!(reports, vec![Report::PushFailed(2)]);
    assert_eq!(state.world.turn_number(), 2);
}

#[test]
fn closed_inbound_is_reported_and_tolerated() {
    let (input_sender, input_receiver) = unbounded();
    let (event_sender, _event_receiver) = unbounded();
    let (mut state, dispatcher) = default_state_and_dispatcher(input_receiver, event_sender);
    drop(input_sender);
    let reports = dispatcher.dispatch(&mut state.world).unwrap();
    assert_eq!(reports, vec![Report::InboundClosed]);
    assert_eq!(state.world.turn_number(), 0);
}

#[test]
fn one_intent_ingested_per_tick() {
    let (input_sender, input_receiver) = unbounded();
    let (event_sender, event_receiver) = unbounded();
    let (mut state, dispatcher) = default_state_and_dispatcher(input_receiver, event_sender);
    for _ in 0..3 {
        input_sender.send(PlayerAction::IncrementTurn).unwrap();
    }
    dispatcher.dispatch(&mut state.world).unwrap();
    assert_eq!(state.world.turn_number(), 1);
    dispatcher.dispatch(&mut state.world).unwrap();
    dispatcher.dispatch(&mut state.world).unwrap();
    assert_eq!(state.world.turn_number(), 3);
    assert_eq!(drain(&event_receiver), vec![1, 2, 3]);
}

#[test]
fn default_state_has_entities_in_creation_order() {
    let (_input_sender, input_receiver) = unbounded();
    let (event_sender, _event_receiver) = unbounded();
    let (state, dispatcher) = default_state_and_dispatcher(input_receiver, event_sender);
    let tagged = state.world.placeholders();
    assert_eq!(tagged.len(), 2);
    assert_eq!(tagged[0].0.id(), 0);
    assert_eq!(tagged[0].1.name, "Barkeeper");
    assert_eq!(tagged[1].0.id(), 1);
    assert_eq!(tagged[1].1.name, "Guard");
    assert_eq!(dispatcher.run_order(), vec![0, 1, 2]);
}

#[test]
fn entity_without_components_gets_next_id() {
    let mut world = World::new();
    world.register_placeholder();
    let a = world.create_entity().build(&mut world);
    let b = world.create_entity().with(PlaceholderComponent { name: "Guard" }).build(&mut world);
    assert_eq!(a.id(), 0);
    assert_eq!(b.id(), 1);
    let tagged = world.placeholders();
    assert_eq!(tagged.len(), 1);
    assert_eq!(tagged[0].0.id(), 1);
}

#[test]
fn reader_sees_each_event_once_in_order() {
    let mut chan: EventChannel<u32> = EventChannel::new();
    chan.single_write(1);
    let r = chan.register_reader();
    chan.single_write(2);
    chan.single_write(3);
    assert_eq!(chan.read(&r), vec![2, 3]);
    assert_eq!(chan.read(&r), Vec::<u32>::new());
    chan.single_write(4);
    assert_eq!(chan.read(&r), vec![4]);
}

#[test]
fn readers_advance_independently() {
    let mut chan: EventChannel<u32> = EventChannel::new();
    let a = chan.register_reader();
    let b = chan.register_reader();
    chan.single_write(10);
    chan.single_write(11);
    assert_eq!(chan.read(&a), vec![10, 11]);
    chan.single_write(12);
    assert_eq!(chan.read(&b), vec![10, 11, 12]);
    assert_eq!(chan.read(&a), vec![12]);
    let c = chan.register_reader();
    chan.single_write(13);
    assert_eq!(chan.read(&c), vec![13]);
    assert_eq!(chan.read(&a), vec![13]);
    assert_eq!(chan.read(&b), vec![13]);
}

#[test]
fn turn_rule_counts_increments_and_broadcasts_each_intent() {
    let mut world = World::new();
    let turn = TurnIncrementSystem::new(&mut world);
    let watch = world.broadcasts.register_reader();
    world.actions.single_write(PlayerAction::StartGame);
    world.actions.single_write(PlayerAction::IncrementTurn);
    world.actions.single_write(PlayerAction::IncrementTurn);
    world.actions.single_write(PlayerAction::StartGame);
    assert_eq!(turn.run(&mut world), Ok(()));
    assert_eq!(world.turn_number(), 2);
    assert_eq!(world.broadcasts.read(&watch), vec![Broadcast::ShareChanges; 4]);
    assert_eq!(turn.run(&mut world), Ok(()));
    assert_eq!(world.turn_number(), 2);
    assert!(world.broadcasts.read(&watch).is_empty());
}

#[test]
fn turn_overflow_fails_the_stage() {
    let mut world = World::new();
    let turn = TurnIncrementSystem::new(&mut world);
    world.insert_turn(TurnResource { number: usize::MAX });
    world.actions.single_write(PlayerAction::StartGame);
    assert_eq!(turn.run(&mut world), Ok(()));
    world.actions.single_write(PlayerAction::IncrementTurn);
    assert_eq!(turn.run(&mut world), Err(StageError::TurnOverflow));
    assert_eq!(world.turn_number(), usize::MAX);
}

#[test]
fn turn_resource_starts_at_zero() {
    assert_eq!(TurnResource::default().number, 0);
    assert_eq!(World::new().turn_number(), 0);
}

#[test]
fn push_sends_current_turn_once_per_broadcast() {
    let mut world = World::new();
    let push = SendToFrontendSystem::new(&mut world);
    world.insert_turn(TurnResource { number: 7 });
    assert_eq!(push.run(&mut world), vec![Report::OutboundMissing]);
    let (s, r) = unbounded();
    world.insert_sender(FrontendSender { sender: s });
    world.broadcasts.single_write(Broadcast::ShareChanges);
    world.broadcasts.single_write(Broadcast::ShareChanges);
    assert_eq!(push.run(&mut world), vec![Report::Pushed(7), Report::Pushed(7)]);
    assert_eq!(drain(&r), vec![7, 7]);
    assert!(push.run(&mut world).is_empty());
}

#[test]
fn ingest_publishes_only_received_actions() {
    let mut chan: EventChannel<PlayerAction> = EventChannel::new();
    let r = chan.register_reader();
    assert!(ingest(&mut chan, Received::Action(PlayerAction::StartGame)).is_empty());
    assert!(ingest(&mut chan, Received::Empty).is_empty());
    assert_eq!(ingest(&mut chan, Received::Disconnected), vec![Report::InboundClosed]);
    assert_eq!(chan.read(&r), vec![PlayerAction::StartGame]);
}

#[test]
fn ingestion_stage_receives_from_endpoint() {
    let mut world = World::new();
    let (s, r) = unbounded();
    world.insert_receiver(colony::io::FrontendReceiver { receiver: r });
    let watch = world.actions.register_reader();
    let stage = ActionChannelSystem;
    assert!(stage.run(&mut world).is_empty());
    s.send(PlayerAction::IncrementTurn).unwrap();
    assert!(stage.run(&mut world).is_empty());
    assert_eq!(world.actions.read(&watch), vec![PlayerAction::IncrementTurn]);
}

fn three_stages() -> DispatcherBuilder {
    DispatcherBuilder::new()
        .with(Stage::Ingest(ActionChannelSystem), "c", &["b"])
        .with(Stage::Ingest(ActionChannelSystem), "a", &[])
        .with(Stage::Ingest(ActionChannelSystem), "b", &["a"])
}

#[test]
fn build_orders_dependencies_first() {
    let d = three_stages().build().unwrap();
    assert_eq!(d.run_order(), vec![1, 2, 0]);
}

#[test]
fn build_is_deterministic() {
    let first = three_stages().build().unwrap().run_order();
    let second = three_stages().build().unwrap().run_order();
    assert_eq!(first, second);
}

#[test]
fn build_breaks_ties_by_declaration_order() {
    let d = DispatcherBuilder::new()
        .with(Stage::Ingest(ActionChannelSystem), "x", &[])
        .with(Stage::Ingest(ActionChannelSystem), "y", &["z"])
        .with(Stage::Ingest(ActionChannelSystem), "z", &[])
        .with(Stage::Ingest(ActionChannelSystem), "w", &[])
        .build()
        .unwrap();
    assert_eq!(d.run_order(), vec![0, 2, 1, 3]);
}

#[test]
fn build_rejects_duplicate_names() {
    let r = DispatcherBuilder::new()
        .with(Stage::Ingest(ActionChannelSystem), "a", &[])
        .with(Stage::Ingest(ActionChannelSystem), "a", &[])
        .build();
    assert_eq!(r.err(), Some(BuildError::DuplicateName));
}

#[test]
fn build_rejects_unknown_dependency() {
    let r = DispatcherBuilder::new()
        .with(Stage::Ingest(ActionChannelSystem), "a", &["missing"])
        .build();
    assert_eq!(r.err(), Some(BuildError::UnknownDependency));
}

#[test]
fn build_rejects_cycle() {
    let r = DispatcherBuilder::new()
        .with(Stage::Ingest(ActionChannelSystem), "a", &["b"])
        .with(Stage::Ingest(ActionChannelSystem), "b", &["a"])
        .build();
    assert_eq!(r.err(), Some(BuildError::Cycle));
}

#[test]
fn empty_pipeline_dispatches_nothing() {
    let d = DispatcherBuilder::new().build().unwrap();
    let mut world = World::new();
    assert_eq!(d.run_order(), Vec::<usize>::new());
    assert_eq!(d.dispatch(&mut world), Ok(Vec::new()));
}

#[test]
fn push_outcomes_map_to_reports() {
    assert_eq!(report_push(4, SendOutcome::Delivered), Report::Pushed(4));
    assert_eq!(report_push(4, SendOutcome::Full), Report::PushFailed(4));
    assert_eq!(report_push(9, SendOutcome::Disconnected), Report::PushFailed(9));
}

#[test]
fn crate_root_reexports_setup() {
    let (_input_sender, input_receiver) = unbounded();
    let (event_sender, _event_receiver) = unbounded();
    let (state, _dispatcher): (colony::ColonyState, _) =
        colony::default_state_and_dispatcher(input_receiver, event_sender);
    assert_eq!(state.world.turn_number(), 0);
}
