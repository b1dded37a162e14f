use vstd::prelude::*;
use crate::game::{turn_fits, turn_step, StageError, TurnIncrementSystem};
use crate::io::{ingest_step, push_step, ActionChannelSystem, Report, SendToFrontendSystem};
use crate::store::{World, WorldView};

verus! {

/// Why a pipeline could not be built from its declarations.
#[derive(Clone, Copy, Debug, PartialEq, Eq, Structural)]
pub enum BuildError {
    /// Two stages were declared under one name.
    DuplicateName,
    /// A stage depends on a name that no stage was declared under.
    UnknownDependency,
    /// The dependencies form a cycle, so no order satisfies them.
    Cycle,
}

// ---- ordering --------------------------------------------------------------

/// Stage `i` can run next: not placed yet, and everything it depends on is.
pub open spec fn ready(deps: Seq<Seq<usize>>, placed: Seq<usize>, i: int) -> bool {
    &&& 0 <= i < deps.len()
    &&& !placed.contains(i as usize)
    &&& forall|k: int| 0 <= k < deps[i].len() ==> placed.contains(#[trigger] deps[i][k])
}

/// The earliest-declared stage, from position `i` on, that can run next.
pub open spec fn first_ready_from(deps: Seq<Seq<usize>>, placed: Seq<usize>, i: int) -> Option<
    usize,
>
    decreases deps.len() - i,
{
    if i < 0 || i >= deps.len() {
        None
    } else if ready(deps, placed, i) {
        Some(i as usize)
    } else {
        first_ready_from(deps, placed, i + 1)
    }
}

/// Completes `placed` by repeatedly placing the earliest-declared stage that
/// can run; `None` when at some point no remaining stage can.
pub open spec fn schedule(deps: Seq<Seq<usize>>, placed: Seq<usize>) -> Option<Seq<usize>>
    decreases deps.len() - placed.len(),
{
    if placed.len() >= deps.len() {
        Some(placed)
    } else {
        match first_ready_from(deps, placed, 0) {
            None => None,
            Some(i) => schedule(deps, placed.push(i)),
        }
    }
}

/// Stage `x` is placed at some position before `p`.
pub open spec fn placed_before(order: Seq<usize>, p: int, x: usize) -> bool {
    exists|q: int| 0 <= q < p && order[q] == x
}

/// `order` places some stages, each once, each after everything it depends on.
pub open spec fn respects_prefix(deps: Seq<Seq<usize>>, order: Seq<usize>) -> bool {
    &&& order.len() <= deps.len()
    &&& order.no_duplicates()
    &&& forall|p: int| 0 <= p < order.len() ==> order[p] < deps.len()
    &&& forall|p: int, k: int|
        #![trigger deps[order[p] as int][k]]
        0 <= p < order.len() && 0 <= k < deps[order[p] as int].len() ==> placed_before(
            order,
            p,
            deps[order[p] as int][k],
        )
}

/// `order` runs every stage exactly once, each after everything it depends on.
pub open spec fn respects(deps: Seq<Seq<usize>>, order: Seq<usize>) -> bool {
    respects_prefix(deps, order) && order.len() == deps.len()
}

/// The names are pairwise distinct.
pub open spec fn unique_names(names: Seq<Seq<char>>) -> bool {
    forall|i: int, j: int| 0 <= i < j < names.len() ==> names[i] != names[j]
}

/// Every dependency names a declared stage.
pub open spec fn known_deps(names: Seq<Seq<char>>, deps: Seq<Seq<Seq<char>>>) -> bool {
    forall|i: int, k: int|
        0 <= i < deps.len() && 0 <= k < deps[i].len() ==> names.contains(#[trigger] deps[i][k])
}

/// The position of the stage declared under `n`.
pub open spec fn dep_index(names: Seq<Seq<char>>, n: Seq<char>) -> usize {
    choose|j: usize| j < names.len() && names[j as int] == n
}

/// The dependencies, with names turned into positions.
pub open spec fn resolve(names: Seq<Seq<char>>, deps: Seq<Seq<Seq<char>>>) -> Seq<Seq<usize>> {
    Seq::new(deps.len(), |i: int| Seq::new(deps[i].len(), |k: int| dep_index(names, deps[i][k])))
}

/// The run order that declarations give: positions of the declared stages,
/// dependencies first, ties broken by declaration order.
pub open spec fn plan(names: Seq<Seq<char>>, deps: Seq<Seq<Seq<char>>>) -> Result<
    Seq<usize>,
    BuildError,
> {
    if !unique_names(names) {
        Err(BuildError::DuplicateName)
    } else if !known_deps(names, deps) {
        Err(BuildError::UnknownDependency)
    } else {
        match schedule(resolve(names, deps), Seq::empty()) {
            Some(o) => Ok(o),
            None => Err(BuildError::Cycle),
        }
    }
}

pub proof fn lemma_first_ready_found(deps: Seq<Seq<usize>>, placed: Seq<usize>, start: int, i: int)
    requires
        0 <= start <= i,
        ready(deps, placed, i),
        forall|j: int| start <= j < i ==> !ready(deps, placed, j),
    ensures
        first_ready_from(deps, placed, start) == Some(i as usize),
    decreases i - start,
{
    if start < i {
        lemma_first_ready_found(deps, placed, start + 1, i);
    }
}

proof fn lemma_first_ready_none(deps: Seq<Seq<usize>>, placed: Seq<usize>, start: int)
    requires
        0 <= start <= deps.len(),
        forall|j: int| start <= j < deps.len() ==> !ready(deps, placed, j),
    ensures
        first_ready_from(deps, placed, start) is None,
    decreases deps.len() - start,
{
    if start < deps.len() {
        lemma_first_ready_none(deps, placed, start + 1);
    }
}

proof fn lemma_first_ready_is_ready(deps: Seq<Seq<usize>>, placed: Seq<usize>, start: int)
    requires
        deps.len() <= usize::MAX,
        first_ready_from(deps, placed, start) is Some,
    ensures
        ready(deps, placed, first_ready_from(deps, placed, start)->Some_0 as int),
    decreases deps.len() - start,
{
    if 0 <= start < deps.len() && !ready(deps, placed, start) {
        lemma_first_ready_is_ready(deps, placed, start + 1);
    }
}

proof fn lemma_schedule_respects(deps: Seq<Seq<usize>>, placed: Seq<usize>)
    requires
        deps.len() <= usize::MAX,
        respects_prefix(deps, placed),
    ensures
        schedule(deps, placed) is Some ==> respects(deps, schedule(deps, placed)->Some_0),
    decreases deps.len() - placed.len(),
{
    if placed.len() < deps.len() {
        if let Some(i) = first_ready_from(deps, placed, 0) {
            lemma_place_next(deps, placed);
            lemma_schedule_respects(deps, placed.push(i));
        }
    }
}

proof fn lemma_none_ready(deps: Seq<Seq<usize>>, placed: Seq<usize>, start: int, j: int)
    requires
        first_ready_from(deps, placed, start) is None,
        0 <= start <= j < deps.len(),
    ensures
        !ready(deps, placed, j),
    decreases j - start,
{
    if start < j {
        lemma_none_ready(deps, placed, start + 1, j);
    }
}

proof fn lemma_stuck_prefix_placed(
    deps: Seq<Seq<usize>>,
    placed: Seq<usize>,
    order: Seq<usize>,
    p: int,
)
    requires
        deps.len() <= usize::MAX,
        forall|j: int| 0 <= j < deps.len() ==> !ready(deps, placed, j),
        respects(deps, order),
        0 <= p < order.len(),
    ensures
        placed.contains(order[p]),
    decreases p,
{
    if !placed.contains(order[p]) {
        let i = order[p] as int;
        assert(!ready(deps, placed, i));
        let k = choose|k: int| 0 <= k < deps[i].len() && !placed.contains(#[trigger] deps[i][k]);
        assert(placed_before(order, p, deps[order[p] as int][k]));
        let q = choose|q: int| 0 <= q < p && order[q] == deps[order[p] as int][k];
        lemma_stuck_prefix_placed(deps, placed, order, q);
    }
}

proof fn lemma_schedule_none(deps: Seq<Seq<usize>>, placed: Seq<usize>, order: Seq<usize>)
    requires
        deps.len() <= usize::MAX,
        respects_prefix(deps, placed),
        schedule(deps, placed) is None,
    ensures
        !respects(deps, order),
    decreases deps.len() - placed.len(),
{
    if respects(deps, order) {
        match first_ready_from(deps, placed, 0) {
            None => {
                assert forall|j: int| 0 <= j < deps.len() implies !ready(deps, placed, j) by {
                    lemma_none_ready(deps, placed, 0, j);
                }
                assert forall|p: int| 0 <= p < order.len() implies placed.contains(order[p]) by {
                    lemma_stuck_prefix_placed(deps, placed, order, p);
                }
                order.unique_seq_to_set();
                placed.lemma_cardinality_of_set();
                assert(order.to_set().subset_of(placed.to_set()));
                vstd::set_lib::lemma_len_subset(order.to_set(), placed.to_set());
            },
            Some(i) => {
                lemma_place_next(deps, placed);
                lemma_schedule_none(deps, placed.push(i), order);
            },
        }
    }
}

proof fn lemma_place_next(deps: Seq<Seq<usize>>, placed: Seq<usize>)
    requires
        deps.len() <= usize::MAX,
        respects_prefix(deps, placed),
        placed.len() < deps.len(),
        first_ready_from(deps, placed, 0) is Some,
    ensures
        respects_prefix(deps, placed.push(first_ready_from(deps, placed, 0)->Some_0)),
{
    let i = first_ready_from(deps, placed, 0)->Some_0;
    lemma_first_ready_is_ready(deps, placed, 0);
    let next = placed.push(i);
    assert forall|p: int, k: int|
        #![trigger deps[next[p] as int][k]]
        0 <= p < next.len() && 0 <= k < deps[next[p] as int].len() implies placed_before(
            next,
            p,
            deps[next[p] as int][k],
        ) by {
        if p < placed.len() {
            assert(next[p] == placed[p]);
            assert(0 <= k < deps[placed[p] as int].len());
            assert(placed_before(placed, p, deps[placed[p] as int][k]));
            let q = choose|q: int| 0 <= q < p && placed[q] == deps[placed[p] as int][k];
            assert(next[q] == deps[next[p] as int][k]);
        } else {
            assert(next[p] == i);
            assert(placed.contains(deps[i as int][k]));
            let q = choose|q: int| 0 <= q < placed.len() && placed[q] == deps[i as int][k];
            assert(next[q] == deps[next[p] as int][k]);
        }
    }
    assert(next.no_duplicates()) by {
        assert forall|a: int, b: int| 0 <= a < b < next.len() implies next[a] != next[b] by {
            if b == placed.len() {
                assert(placed[a] == next[a]);
            }
        }
    }
    assert forall|p: int| 0 <= p < next.len() implies next[p] < deps.len() by {
        if p < placed.len() {
            assert(next[p] == placed[p]);
        }
    }
    assert(respects_prefix(deps, next));
}

/// Building twice from the same declarations gives the same order; an order
/// that is built runs every declared stage exactly once, each after every
/// stage it depends on.
pub proof fn lemma_plan_deterministic(
    names1: Seq<Seq<char>>,
    deps1: Seq<Seq<Seq<char>>>,
    names2: Seq<Seq<char>>,
    deps2: Seq<Seq<Seq<char>>>,
)
    requires
        names1 == names2,
        deps1 == deps2,
        deps1.len() <= usize::MAX,
    ensures
        plan(names1, deps1) == plan(names2, deps2),
        plan(names1, deps1) is Ok ==> respects(resolve(names1, deps1), plan(names1, deps1)->Ok_0),
{
    let d = resolve(names1, deps1);
    assert(respects_prefix(d, Seq::<usize>::empty()));
    lemma_schedule_respects(d, Seq::empty());
}

/// A build fails with `Cycle` only when no order at all runs every stage
/// once, each after every stage it depends on.
pub proof fn lemma_cycle_means_no_order(
    names: Seq<Seq<char>>,
    deps: Seq<Seq<Seq<char>>>,
    order: Seq<usize>,
)
    requires
        deps.len() <= usize::MAX,
        plan(names, deps) == Err::<Seq<usize>, BuildError>(BuildError::Cycle),
    ensures
        !respects(resolve(names, deps), order),
{
    let d = resolve(names, deps);
    assert(respects_prefix(d, Seq::<usize>::empty()));
    lemma_schedule_none(d, Seq::empty(), order);
}

// ---- stages ----------------------------------------------------------------

/// One stage of the pipeline.
pub enum Stage {
    Ingest(ActionChannelSystem),
    Rule(TurnIncrementSystem),
    Push(SendToFrontendSystem),
}

/// The stage's readers belong to the store's channels.
pub open spec fn stage_fits(s: Stage, v: WorldView) -> bool {
    match s {
        Stage::Ingest(_) => true,
        Stage::Rule(t) => t.reader() < v.actions.cursors.len(),
        Stage::Push(p) => p.reader() < v.broadcasts.cursors.len(),
    }
}

/// The stage would fail on this store.
pub open spec fn stage_fails(s: Stage, v: WorldView) -> bool {
    match s {
        Stage::Rule(t) => !turn_fits(v.turn, v.actions.unread(t.reader())),
        _ => false,
    }
}

/// One run of the stage takes the store from `before` to `after`, giving `reports`.
pub open spec fn stage_step(s: Stage, before: WorldView, after: WorldView, reports: Seq<Report>) -> bool {
    match s {
        Stage::Ingest(_) => ingest_step(before, after, reports),
        Stage::Rule(t) => turn_step(t.reader(), before, after) && reports == Seq::<Report>::empty(),
        Stage::Push(p) => push_step(p.reader(), before, after, reports),
    }
}

/// Every report of the parts, in order.
pub open spec fn concat(parts: Seq<Seq<Report>>) -> Seq<Report>
    decreases parts.len(),
{
    if parts.len() == 0 {
        Seq::empty()
    } else {
        concat(parts.drop_last()) + parts.last()
    }
}

/// `states` are the stores before and after each of `stages`, and `parts`
/// the reports each gave.
pub open spec fn trace(stages: Seq<Stage>, states: Seq<WorldView>, parts: Seq<Seq<Report>>) -> bool {
    &&& states.len() == stages.len() + 1
    &&& parts.len() == stages.len()
    &&& forall|i: int|
        0 <= i < stages.len() ==> #[trigger] stage_step(stages[i], states[i], states[i + 1], parts[i])
}

/// Running `stages` in order takes the store from `before` to `after`, giving
/// `reports` in order.
pub open spec fn ticked(stages: Seq<Stage>, before: WorldView, after: WorldView, reports: Seq<Report>) -> bool {
    exists|states: Seq<WorldView>, parts: Seq<Seq<Report>>|
        #[trigger] trace(stages, states, parts) && states[0] == before && states.last() == after
            && reports == concat(parts)
}

/// No tick lowers the turn counter: every stage leaves it as it is or, for
/// the turn rule, raises it.
pub proof fn lemma_tick_never_lowers_turn(
    stages: Seq<Stage>,
    before: WorldView,
    after: WorldView,
    reports: Seq<Report>,
)
    requires
        ticked(stages, before, after, reports),
    ensures
        before.turn <= after.turn,
{
    let (states, parts) = choose|states: Seq<WorldView>, parts: Seq<Seq<Report>>|
        #[trigger] trace(stages, states, parts) && states[0] == before && states.last() == after
            && reports == concat(parts);
    lemma_trace_turn(stages, states, parts, stages.len() as int);
}

proof fn lemma_trace_turn(stages: Seq<Stage>, states: Seq<WorldView>, parts: Seq<Seq<Report>>, n: int)
    requires
        trace(stages, states, parts),
        0 <= n <= stages.len(),
    ensures
        states[0].turn <= states[n].turn,
    decreases n,
{
    if n > 0 {
        lemma_trace_turn(stages, states, parts, n - 1);
        let i = n - 1;
        assert(stage_step(stages[i], states[i], states[i + 1], parts[i]));
        match stages[i] {
            Stage::Ingest(_) => {
                crate::io::lemma_ingest_keeps_readers(states[i], states[i + 1], parts[i]);
            },
            _ => {},
        }
    }
}

proof fn lemma_step_keeps_readers(s: Stage, before: WorldView, after: WorldView, reports: Seq<Report>)
    requires
        stage_fits(s, before),
        stage_step(s, before, after, reports),
    ensures
        after.actions.cursors.len() == before.actions.cursors.len(),
        after.broadcasts.cursors.len() == before.broadcasts.cursors.len(),
{
    match s {
        Stage::Ingest(_) => {
            crate::io::lemma_ingest_keeps_readers(before, after, reports);
        },
        _ => {},
    }
}

impl Stage {
    /// Runs the stage once on the store.
    pub fn run(&self, world: &mut World) -> (r: Result<Vec<Report>, StageError>)
        requires
            old(world).wf(),
            stage_fits(*self, old(world)@),
        ensures
            final(world).wf(),
            r is Err <==> stage_fails(*self, old(world)@),
            final(world)@.actions.cursors.len() == old(world)@.actions.cursors.len(),
            final(world)@.broadcasts.cursors.len() == old(world)@.broadcasts.cursors.len(),
            r is Ok ==> stage_step(*self, old(world)@, final(world)@, r->Ok_0@),
    {
        let ghost before = world@;
        let r = match self {
            Stage::Ingest(s) => Ok(s.run(world)),
            Stage::Rule(s) => {
                match s.run(world) {
                    Ok(()) => {
                        let reports: Vec<Report> = Vec::new();
                        assert(reports@ =~= Seq::<Report>::empty());
                        Ok(reports)
                    },
                    Err(e) => Err(e),
                }
            },
            Stage::Push(s) => Ok(s.run(world)),
        };
        proof {
            if r is Ok {
                lemma_step_keeps_readers(*self, before, world@, r->Ok_0@);
            }
        }
        r
    }
}

// ---- pipeline --------------------------------------------------------------

/// Collects stages with their names and dependencies.
pub struct DispatcherBuilder {
    stages: Vec<Stage>,
    names: Vec<String>,
    deps: Vec<Vec<String>>,
}

/// The names, as character sequences.
pub open spec fn names_view(v: Seq<String>) -> Seq<Seq<char>> {
    v.map_values(|s: String| s@)
}

impl DispatcherBuilder {
    pub closed spec fn declared(&self) -> Seq<Stage> {
        self.stages@
    }

    pub closed spec fn names(&self) -> Seq<Seq<char>> {
        names_view(self.names@)
    }

    pub closed spec fn deps(&self) -> Seq<Seq<Seq<char>>> {
        self.deps@.map_values(|v: Vec<String>| names_view(v@))
    }

    pub closed spec fn wf(&self) -> bool {
        self.stages@.len() == self.names@.len() && self.names@.len() == self.deps@.len()
    }

    /// A builder with no stages declared.
    pub fn new() -> (b: Self)
        ensures
            b.wf(),
            b.declared() == Seq::<Stage>::empty(),
            b.names() == Seq::<Seq<char>>::empty(),
            b.deps() == Seq::<Seq<Seq<char>>>::empty(),
    {
        let b = DispatcherBuilder { stages: Vec::new(), names: Vec::new(), deps: Vec::new() };
        assert(b.names() =~= Seq::<Seq<char>>::empty());
        assert(b.deps() =~= Seq::<Seq<Seq<char>>>::empty());
        b
    }

    /// Declares a stage under `name`, to run after every stage in `deps`.
    pub fn with(self, stage: Stage, name: &str, deps: &[&str]) -> (b: Self)
        requires
            self.wf(),
        ensures
            b.wf(),
            b.declared() == self.declared().push(stage),
            b.names() == self.names().push(name@),
            b.deps() == self.deps().push(deps@.map_values(|d: &str| d@)),
    {
        let mut owned: Vec<String> = Vec::new();
        let mut i: usize = 0;
        while i < deps.len()
            invariant
                i <= deps@.len(),
                owned@.len() == i,
                forall|m: int| 0 <= m < i ==> (#[trigger] owned@[m])@ == deps@[m]@,
            decreases deps@.len() - i,
        {
            owned.push(deps[i].to_owned());
            i = i + 1;
        }
        assert(names_view(owned@) =~= deps@.map_values(|d: &str| d@));
        let mut b = self;
        let ghost before = b;
        b.stages.push(stage);
        b.names.push(name.to_owned());
        b.deps.push(owned);
        assert(b.names() =~= before.names().push(name@));
        assert(b.deps() =~= before.deps().push(deps@.map_values(|d: &str| d@)));
        b
    }

    /// Orders the declared stages: dependencies first, ties broken by
    /// declaration order.
    pub fn build(self) -> (r: Result<Dispatcher, BuildError>)
        requires
            self.wf(),
        ensures
            match r {
                Ok(d) => {
                    &&& d.wf()
                    &&& plan(self.names(), self.deps()) == Ok::<Seq<usize>, BuildError>(d.order())
                    &&& d.stages() == self.declared()
                },
                Err(e) => plan(self.names(), self.deps()) == Err::<Seq<usize>, BuildError>(e),
            },
    {
        let ghost names = self.names();
        let ghost deps = self.deps();
        match resolve_names(&self.names, &self.deps) {
            Err(e) => Err(e),
            Ok(idx) => {
                match order_stages(&idx) {
                    None => Err(BuildError::Cycle),
                    Some(order) => {
                        proof {
                            let dv = resolve(names, deps);
                            assert(respects_prefix(dv, Seq::<usize>::empty()));
                            lemma_schedule_respects(dv, Seq::empty());
                        }
                        let d = Dispatcher { stages: self.stages, order };
                        Ok(d)
                    },
                }
            },
        }
    }
}

/// Turns dependency names into positions, rejecting duplicate and unknown names.
fn resolve_names(names: &Vec<String>, deps: &Vec<Vec<String>>) -> (r: Result<Vec<Vec<usize>>, BuildError>)
    requires
        names@.len() == deps@.len(),
    ensures
        match r {
            Ok(idx) => {
                &&& idx@.len() == names@.len()
                &&& forall|a: int, k: int| 0 <= a < idx@.len() && 0 <= k < idx@[a]@.len() ==> #[trigger] idx@[a]@[k] < idx@.len()
                &&& unique_names(names_view(names@))
                &&& known_deps(names_view(names@), deps@.map_values(|v: Vec<String>| names_view(v@)))
                &&& idx@.map_values(|v: Vec<usize>| v@) == resolve(
                    names_view(names@),
                    deps@.map_values(|v: Vec<String>| names_view(v@)),
                )
            },
            Err(e) => plan(names_view(names@), deps@.map_values(|v: Vec<String>| names_view(v@)))
                == Err::<Seq<usize>, BuildError>(e),
        },
{
    let ghost nv = names_view(names@);
    let ghost dv = deps@.map_values(|v: Vec<String>| names_view(v@));
    let mut i: usize = 0;
    while i < names.len()
        invariant
            nv == names_view(names@),
            i <= names@.len(),
            forall|a: int, b: int| 0 <= a < b < names@.len() && a < i ==> nv[a] != nv[b],
        decreases names@.len() - i,
    {
        let mut j: usize = i + 1;
        while j < names.len()
            invariant
                nv == names_view(names@),
                i < j <= names@.len(),
                forall|a: int, b: int| 0 <= a < b < names@.len() && a < i ==> nv[a] != nv[b],
                forall|b: int| i < b < j ==> nv[i as int] != nv[b],
            decreases names@.len() - j,
        {
            assert(nv[i as int] == names@[i as int]@ && nv[j as int] == names@[j as int]@);
            if names[i] == names[j] {
                assert(!unique_names(nv));
                return Err(BuildError::DuplicateName);
            }
            j = j + 1;
        }
        i = i + 1;
    }
    assert(unique_names(nv));
    let mut idx: Vec<Vec<usize>> = Vec::new();
    let mut s: usize = 0;
    while s < deps.len()
        invariant
            nv == names_view(names@),
            dv == deps@.map_values(|v: Vec<String>| names_view(v@)),
            unique_names(nv),
            s <= deps@.len(),
            idx@.len() == s,
            forall|a: int, k: int| 0 <= a < s && 0 <= k < dv[a].len() ==> nv.contains(#[trigger] dv[a][k]),
            forall|a: int| 0 <= a < s ==> (#[trigger] idx@[a])@ == resolve(nv, dv)[a],
            forall|a: int, k: int| 0 <= a < s && 0 <= k < idx@[a]@.len() ==> #[trigger] idx@[a]@[k] < names@.len(),
        decreases deps@.len() - s,
    {
        let mut row: Vec<usize> = Vec::new();
        let mut k: usize = 0;
        while k < deps[s].len()
            invariant
                nv == names_view(names@),
                dv == deps@.map_values(|v: Vec<String>| names_view(v@)),
                unique_names(nv),
                s < deps@.len(),
                k <= deps@[s as int]@.len(),
                row@.len() == k,
                forall|m: int| 0 <= m < k ==> nv.contains(#[trigger] dv[s as int][m]),
                forall|m: int| 0 <= m < k ==> row@[m] == dep_index(nv, dv[s as int][m]),
                forall|m: int| 0 <= m < k ==> row@[m] < names@.len(),
            decreases deps@[s as int]@.len() - k,
        {
            let ghost want = dv[s as int][k as int];
            assert(want == deps@[s as int]@[k as int]@);
            let mut j: usize = 0;
            while j < names.len() && !(names[j] == deps[s][k])
                invariant
                    nv == names_view(names@),
                    s < deps@.len(),
                    k < deps@[s as int]@.len(),
                    j <= names@.len(),
                    forall|b: int| 0 <= b < j ==> nv[b] != want,
                    want == deps@[s as int]@[k as int]@,
                decreases names@.len() - j,
            {
                assert(nv[j as int] == names@[j as int]@);
                j = j + 1;
            }
            if j == names.len() {
                assert(!nv.contains(want));
                assert(!known_deps(nv, dv));
                return Err(BuildError::UnknownDependency);
            }
            proof {
                assert(nv[j as int] == names@[j as int]@);
                assert(nv[j as int] == want);
                let c = dep_index(nv, want);
                assert(c < nv.len() && nv[c as int] == want);
                if c != j {
                    if c < j {
                        assert(nv[c as int] != nv[j as int]);
                    } else {
                        assert(nv[j as int] != nv[c as int]);
                    }
                }
            }
            row.push(j);
            k = k + 1;
        }
        proof {
            assert(row@ =~= resolve(nv, dv)[s as int]);
        }
        idx.push(row);
        s = s + 1;
    }
    assert(idx@.map_values(|v: Vec<usize>| v@) =~= resolve(nv, dv));
    Ok(idx)
}

/// Whether stage `i` can run next, given which stages are placed.
fn is_ready(deps: &Vec<Vec<usize>>, flags: &Vec<bool>, placed: Ghost<Seq<usize>>, i: usize) -> (r: bool)
    requires
        i < deps@.len(),
        flags@.len() == deps@.len(),
        forall|a: int, k: int| 0 <= a < deps@.len() && 0 <= k < deps@[a]@.len() ==> #[trigger] deps@[a]@[k] < deps@.len(),
        forall|j: int| 0 <= j < flags@.len() ==> flags@[j] == placed@.contains(j as usize),
    ensures
        r == ready(deps@.map_values(|v: Vec<usize>| v@), placed@, i as int),
{
    let ghost dv = deps@.map_values(|v: Vec<usize>| v@);
    if flags[i] {
        return false;
    }
    let mut k: usize = 0;
    while k < deps[i].len()
        invariant
            i < deps@.len(),
            flags@.len() == deps@.len(),
            dv == deps@.map_values(|v: Vec<usize>| v@),
            forall|a: int, m: int| 0 <= a < deps@.len() && 0 <= m < deps@[a]@.len() ==> #[trigger] deps@[a]@[m] < deps@.len(),
            forall|j: int| 0 <= j < flags@.len() ==> flags@[j] == placed@.contains(j as usize),
            k <= deps@[i as int]@.len(),
            forall|m: int| 0 <= m < k ==> placed@.contains(#[trigger] dv[i as int][m]),
        decreases deps@[i as int]@.len() - k,
    {
        let d = deps[i][k];
        if !flags[d] {
            assert(!placed@.contains(dv[i as int][k as int]));
            return false;
        }
        k = k + 1;
    }
    true
}

/// The placement order of `schedule` from nothing placed, computed.
fn order_stages(deps: &Vec<Vec<usize>>) -> (r: Option<Vec<usize>>)
    requires
        forall|a: int, k: int| 0 <= a < deps@.len() && 0 <= k < deps@[a]@.len() ==> #[trigger] deps@[a]@[k] < deps@.len(),
    ensures
        match r {
            Some(o) => schedule(deps@.map_values(|v: Vec<usize>| v@), Seq::empty()) == Some(o@),
            None => schedule(deps@.map_values(|v: Vec<usize>| v@), Seq::empty()) is None,
        },
{
    let ghost dv = deps@.map_values(|v: Vec<usize>| v@);
    let n = deps.len();
    let mut flags: Vec<bool> = Vec::new();
    let mut f: usize = 0;
    while f < n
        invariant
            n == deps@.len(),
            f <= n,
            flags@.len() == f,
            forall|j: int| 0 <= j < f ==> !flags@[j],
        decreases n - f,
    {
        flags.push(false);
        f = f + 1;
    }
    let mut placed: Vec<usize> = Vec::new();
    while placed.len() < n
        invariant
            n == deps@.len(),
            dv == deps@.map_values(|v: Vec<usize>| v@),
            forall|a: int, k: int| 0 <= a < deps@.len() && 0 <= k < deps@[a]@.len() ==> #[trigger] deps@[a]@[k] < deps@.len(),
            flags@.len() == n,
            placed@.len() <= n,
            forall|j: int| 0 <= j < n ==> flags@[j] == placed@.contains(j as usize),
            schedule(dv, placed@) == schedule(dv, Seq::empty()),
        decreases n - placed@.len(),
    {
        let mut i: usize = 0;
        while i < n && !is_ready(deps, &flags, Ghost(placed@), i)
            invariant
                n == deps@.len(),
                dv == deps@.map_values(|v: Vec<usize>| v@),
                forall|a: int, k: int| 0 <= a < deps@.len() && 0 <= k < deps@[a]@.len() ==> #[trigger] deps@[a]@[k] < deps@.len(),
                flags@.len() == n,
                forall|j: int| 0 <= j < n ==> flags@[j] == placed@.contains(j as usize),
                i <= n,
                forall|j: int| 0 <= j < i ==> !ready(dv, placed@, j),
            decreases n - i,
        {
            i = i + 1;
        }
        let pick: Option<usize> = if i == n {
            None
        } else {
            Some(i)
        };
        match pick {
            None => {
                proof {
                    lemma_first_ready_none(dv, placed@, 0);
                }
                return None;
            },
            Some(p) => {
                proof {
                    lemma_first_ready_found(dv, placed@, 0, p as int);
                }
                let ghost before = placed@;
                placed.push(p);
                flags.set(p, true);
                proof {
                    assert forall|j: int| 0 <= j < n implies flags@[j] == placed@.contains(j as usize) by {
                        if j == p {
                            assert(placed@[before.len() as int] == p);
                        } else {
                            if before.contains(j as usize) {
                                let q = choose|q: int| 0 <= q < before.len() && before[q] == j as usize;
                                assert(placed@[q] == j as usize);
                            }
                            if placed@.contains(j as usize) {
                                let q = choose|q: int| 0 <= q < placed@.len() && placed@[q] == j as usize;
                                assert(q < before.len());
                                assert(before[q] == j as usize);
                            }
                        }
                    }
                }
            },
        }
    }
    Some(placed)
}

/// The built pipeline: the declared stages and the order they run in.
pub struct Dispatcher {
    stages: Vec<Stage>,
    order: Vec<usize>,
}

impl Dispatcher {
    pub closed spec fn stages(&self) -> Seq<Stage> {
        self.stages@
    }

    pub closed spec fn order(&self) -> Seq<usize> {
        self.order@
    }

    pub closed spec fn wf(&self) -> bool {
        forall|k: int| 0 <= k < self.order@.len() ==> self.order@[k] < self.stages@.len()
    }

    /// The stages in the order they run.
    pub open spec fn pipeline(&self) -> Seq<Stage> {
        self.order().map_values(|i: usize| self.stages()[i as int])
    }

    /// The run order, as positions of the declared stages.
    pub fn run_order(&self) -> (r: Vec<usize>)
        ensures
            r@ == self.order(),
    {
        self.order.clone()
    }

    /// Runs one tick: every stage once, in order, each to completion. A stage
    /// that fails aborts the tick and its error is returned.
    pub fn dispatch(&self, world: &mut World) -> (r: Result<Vec<Report>, StageError>)
        requires
            self.wf(),
            old(world).wf(),
            forall|k: int| 0 <= k < self.pipeline().len() ==> stage_fits(#[trigger] self.pipeline()[k], old(world)@),
        ensures
            final(world).wf(),
            forall|k: int| 0 <= k < self.pipeline().len() ==> stage_fits(#[trigger] self.pipeline()[k], final(world)@),
            r is Ok ==> ticked(self.pipeline(), old(world)@, final(world)@, r->Ok_0@),
            r is Err ==> exists|k: int, mid: WorldView, reps: Seq<Report>|
                #![trigger ticked(self.pipeline().subrange(0, k), old(world)@, mid, reps)]
                0 <= k < self.pipeline().len() && ticked(self.pipeline().subrange(0, k), old(world)@, mid, reps)
                    && stage_fails(self.pipeline()[k], mid),
    {
        let ghost p = self.pipeline();
        let ghost mut states: Seq<WorldView> = seq![world@];
        let ghost mut parts: Seq<Seq<Report>> = Seq::empty();
        let mut reports: Vec<Report> = Vec::new();
        let mut k: usize = 0;
        assert(trace(p.subrange(0, 0), states, parts));
        while k < self.order.len()
            invariant
                self.wf(),
                p == self.pipeline(),
                p.len() == self.order@.len(),
                world.wf(),
                k <= p.len(),
                forall|m: int| 0 <= m < p.len() ==> stage_fits(#[trigger] p[m], world@),
                trace(p.subrange(0, k as int), states, parts),
                states[0] == old(world)@,
                states.last() == world@,
                reports@ == concat(parts),
            decreases p.len() - k,
        {
            let ghost mid = world@;
            let stage = &self.stages[self.order[k]];
            assert(*stage == p[k as int]);
            match stage.run(world) {
                Err(e) => {
                    assert(stage_fails(p[k as int], mid));
                    assert(trace(p.subrange(0, k as int), states, parts));
                    assert(ticked(p.subrange(0, k as int), old(world)@, mid, reports@));
                    assert forall|m: int| 0 <= m < p.len() implies stage_fits(#[trigger] p[m], world@) by {
                        assert(stage_fits(p[m], mid));
                    }
                    return Err(e);
                },
                Ok(mut more) => {
                    let ghost r2 = more@;
                    proof {
                        lemma_step_keeps_readers(p[k as int], mid, world@, r2);
                        let prev = p.subrange(0, k as int);
                        let next = p.subrange(0, k + 1);
                        let old_states = states;
                        let old_parts = parts;
                        states = states.push(world@);
                        parts = parts.push(r2);
                        assert forall|i: int| 0 <= i < next.len() implies #[trigger] stage_step(
                            next[i],
                            states[i],
                            states[i + 1],
                            parts[i],
                        ) by {
                            if i < k {
                                assert(next[i] == prev[i]);
                                assert(stage_step(prev[i], old_states[i], old_states[i + 1], old_parts[i]));
                            }
                        }
                        assert(parts.drop_last() =~= old_parts);
                        assert forall|m: int| 0 <= m < p.len() implies stage_fits(#[trigger] p[m], world@) by {
                            assert(stage_fits(p[m], mid));
                        }
                    }
                    reports.append(&mut more);
                    k = k + 1;
                },
            }
        }
        assert(p.subrange(0, p.len() as int) =~= p);
        Ok(reports)
    }
}

} // verus!
