use vstd::prelude::*;
use crate::colony::PlaceholderComponent;
use crate::event::{EventChannel, EventLog};
use crate::game::TurnResource;
use crate::io::{Broadcast, FrontendReceiver, FrontendSender, PlayerAction};

verus! {

/// An opaque entity identifier, handed out in creation order.
#[derive(Clone, Copy, Debug, PartialEq, Eq, Structural)]
pub struct Entity {
    id: usize,
}

impl Entity {
    pub closed spec fn index(self) -> nat {
        self.id as nat
    }

    pub fn id(&self) -> (r: usize)
        ensures
            r as nat == self.index(),
    {
        self.id
    }
}

/// The store as a value: its resources, the entities created so far, and the
/// placeholder components attached to them in creation order.
pub struct WorldView {
    pub turn: nat,
    pub inbound: bool,
    pub outbound: bool,
    pub actions: EventLog<PlayerAction>,
    pub broadcasts: EventLog<Broadcast>,
    pub entities: nat,
    pub registered: bool,
    pub placeholders: Seq<(Entity, PlaceholderComponent)>,
}

/// Owner of every resource, entity and component of the kernel.
pub struct World {
    pub turn: TurnResource,
    pub frontend_receiver: Option<FrontendReceiver>,
    pub frontend_sender: Option<FrontendSender>,
    pub actions: EventChannel<PlayerAction>,
    pub broadcasts: EventChannel<Broadcast>,
    pub entity_count: usize,
    pub placeholder_registered: bool,
    pub placeholders: Vec<(Entity, PlaceholderComponent)>,
}

impl View for World {
    type V = WorldView;

    open spec fn view(&self) -> WorldView {
        WorldView {
            turn: self.turn.number as nat,
            inbound: self.frontend_receiver is Some,
            outbound: self.frontend_sender is Some,
            actions: self.actions@,
            broadcasts: self.broadcasts@,
            entities: self.entity_count as nat,
            registered: self.placeholder_registered,
            placeholders: self.placeholders@,
        }
    }
}

/// Placeholder entries belong to created entities, in creation order, and
/// exist only once the component is registered.
pub open spec fn placeholders_wf(v: WorldView) -> bool {
    &&& (v.placeholders.len() > 0 ==> v.registered)
    &&& forall|i: int| 0 <= i < v.placeholders.len() ==> v.placeholders[i].0.index() < v.entities
    &&& forall|i: int, j: int|
        0 <= i < j < v.placeholders.len() ==> v.placeholders[i].0.index()
            < v.placeholders[j].0.index()
}

/// An entity under construction, with the components it will carry.
pub struct EntityBuilder {
    pub placeholder: Option<PlaceholderComponent>,
}

impl EntityBuilder {
    /// Attaches a placeholder component, replacing one attached before.
    pub fn with(self, c: PlaceholderComponent) -> (b: EntityBuilder)
        ensures
            b.placeholder == Some(c),
    {
        EntityBuilder { placeholder: Some(c) }
    }

    /// Creates the entity with the attached components.
    pub fn build(self, world: &mut World) -> (e: Entity)
        requires
            old(world).wf(),
            self.placeholder is Some ==> old(world)@.registered,
            old(world)@.entities < usize::MAX,
        ensures
            final(world).wf(),
            e.index() == old(world)@.entities,
            final(world)@ == (WorldView {
                entities: old(world)@.entities + 1,
                placeholders: match self.placeholder {
                    Some(c) => old(world)@.placeholders.push((e, c)),
                    None => old(world)@.placeholders,
                },
                ..old(world)@
            }),
    {
        let e = Entity { id: world.entity_count };
        world.entity_count = world.entity_count + 1;
        match self.placeholder {
            Some(c) => world.placeholders.push((e, c)),
            None => {},
        }
        e
    }
}

impl World {
    pub open spec fn wf(&self) -> bool {
        &&& self.actions.wf()
        &&& self.broadcasts.wf()
        &&& placeholders_wf(self@)
    }

    /// A fresh store: turn 0, no endpoints, empty channels, no entities.
    pub fn new() -> (w: World)
        ensures
            w.wf(),
            w@.turn == 0,
            !w@.inbound,
            !w@.outbound,
            w@.actions == EventLog::<PlayerAction>::empty(),
            w@.broadcasts == EventLog::<Broadcast>::empty(),
            w@.entities == 0,
            !w@.registered,
            w@.placeholders == Seq::<(Entity, PlaceholderComponent)>::empty(),
    {
        World {
            turn: TurnResource::default(),
            frontend_receiver: None,
            frontend_sender: None,
            actions: EventChannel::new(),
            broadcasts: EventChannel::new(),
            entity_count: 0,
            placeholder_registered: false,
            placeholders: Vec::new(),
        }
    }

    /// Declares the placeholder component; registering twice changes nothing.
    pub fn register_placeholder(&mut self)
        requires
            old(self).wf(),
        ensures
            final(self).wf(),
            final(self)@ == (WorldView { registered: true, ..old(self)@ }),
    {
        self.placeholder_registered = true;
    }

    /// Installs or replaces the inbound endpoint.
    pub fn insert_receiver(&mut self, r: FrontendReceiver)
        requires
            old(self).wf(),
        ensures
            final(self).wf(),
            final(self)@ == (WorldView { inbound: true, ..old(self)@ }),
    {
        self.frontend_receiver = Some(r);
    }

    /// Installs or replaces the outbound endpoint.
    pub fn insert_sender(&mut self, s: FrontendSender)
        requires
            old(self).wf(),
        ensures
            final(self).wf(),
            final(self)@ == (WorldView { outbound: true, ..old(self)@ }),
    {
        self.frontend_sender = Some(s);
    }

    /// Replaces the turn resource.
    pub fn insert_turn(&mut self, t: TurnResource)
        requires
            old(self).wf(),
        ensures
            final(self).wf(),
            final(self)@ == (WorldView { turn: t.number as nat, ..old(self)@ }),
    {
        self.turn = t;
    }

    /// Starts building a new entity with no components.
    pub fn create_entity(&self) -> (b: EntityBuilder)
        ensures
            b.placeholder is None,
    {
        EntityBuilder { placeholder: None }
    }

    /// Every entity carrying a placeholder component, with it, in creation order.
    pub fn placeholders(&self) -> (r: Vec<(Entity, PlaceholderComponent)>)
        ensures
            r@ == self@.placeholders,
    {
        let mut r: Vec<(Entity, PlaceholderComponent)> = Vec::new();
        let mut i: usize = 0;
        while i < self.placeholders.len()
            invariant
                i <= self.placeholders@.len(),
                r@ == self.placeholders@.subrange(0, i as int),
            decreases self.placeholders@.len() - i,
        {
            r.push(self.placeholders[i]);
            i = i + 1;
            assert(r@ =~= self.placeholders@.subrange(0, i as int));
        }
        assert(r@ =~= self.placeholders@);
        r
    }

    /// The current turn value.
    pub fn turn_number(&self) -> (n: usize)
        ensures
            n as nat == self@.turn,
    {
        self.turn.number
    }
}

} // verus!
