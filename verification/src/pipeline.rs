//! The degree validator: a two-phase propagation over the course graph.
//!
//! The whole algorithm is stated once as spec functions over a ghost
//! [`VState`] — indegrees, fulfilled flags and a work queue — and the
//! executable pipeline is proved to compute exactly that function of its
//! inputs.

use vstd::prelude::*;
use vstd::string::StringExecFns;

use crate::graph::spec_find_course;
use crate::graph::spec_group_satisfied;
use crate::graph::CourseGraph;
use crate::graph::EdgeType;
use crate::graph::NodeInfo;
use crate::pgraph::graph_edge_list;
use crate::pgraph::in_degree_of;
use crate::pgraph::lemma_filter_elem;
use crate::pgraph::out_edge_list;
use crate::pgraph::pg_out_edges;

use std::collections::VecDeque;

verus! {

/// How a queued node was reached: through a prerequisite edge, through a
/// corequisite edge, or directly (a course node).
#[derive(Clone, Copy, PartialEq, Eq, Structural, Debug)]
pub enum NodeState {
    Prerequisite,
    Corequisite,
    Neither,
}

/// The validator's scratch state, as the specification sees it.
pub struct VState {
    pub indegree: Seq<usize>,
    pub fulfilled: Seq<bool>,
    pub queue: Seq<(usize, NodeState)>,
}

/// The validator's error cases.
pub enum VError {
    InvalidCourse(Seq<char>),
    SeminarUnsatisfied,
    GroupUnsatisfied(Seq<char>),
    UnfulfilledRequirement(Seq<char>, usize),
}

pub open spec fn st_wf(g: CourseGraph, st: VState) -> bool {
    &&& st.indegree.len() == g.nodes@.len()
    &&& st.fulfilled.len() == g.nodes@.len()
    &&& forall|i: int|
        0 <= i < st.indegree.len() ==> (#[trigger] st.indegree[i] as nat) <= in_degree_of(
            g.graph,
            i as usize,
        )
    &&& forall|q: int|
        0 <= q < st.queue.len() ==> ((#[trigger] st.queue[q]).0 as nat) < g.nodes@.len()
}

pub open spec fn count_false(s: Seq<bool>) -> nat
    decreases s.len(),
{
    if s.len() == 0 {
        0
    } else {
        count_false(s.drop_last()) + if s.last() {
            0nat
        } else {
            1nat
        }
    }
}

pub proof fn lemma_count_false_update(s: Seq<bool>, i: int)
    requires
        0 <= i < s.len(),
        !s[i],
    ensures
        count_false(s.update(i, true)) + 1 == count_false(s),
    decreases s.len(),
{
    if i == s.len() - 1 {
        assert(s.update(i, true).drop_last() =~= s.drop_last());
    } else {
        assert(s.update(i, true).drop_last() =~= s.drop_last().update(i, true));
        lemma_count_false_update(s.drop_last(), i);
    }
}

/// One saturating decrement of `v`'s indegree.
pub open spec fn spec_dec(st: VState, v: int) -> VState {
    if st.indegree[v] > 0 {
        VState { indegree: st.indegree.update(v, (st.indegree[v] - 1) as usize), ..st }
    } else {
        st
    }
}

/// Firing `v`: mark fulfilled, zero its indegree, enqueue it under `tag`.
pub open spec fn spec_fire(st: VState, v: int, tag: NodeState) -> VState {
    VState {
        indegree: st.indegree.update(v, 0usize),
        fulfilled: st.fulfilled.update(v, true),
        queue: st.queue.push((v as usize, tag)),
    }
}

/// What one outgoing edge of a popped course node does: its requirement
/// target loses one indegree and fires when its gate is reached, tagged by
/// the edge's label.
pub open spec fn spec_course_edge(g: CourseGraph, st: VState, e: (usize, EdgeType)) -> VState {
    let v = e.0 as int;
    let d = spec_dec(st, v);
    if !d.fulfilled[v] && g.spec_requirement_satisfied(e.0, d.indegree[v]) {
        spec_fire(
            d,
            v,
            if e.1 == EdgeType::COREQUISITE {
                NodeState::Corequisite
            } else {
                NodeState::Prerequisite
            },
        )
    } else {
        d
    }
}

pub open spec fn spec_course_edges(
    g: CourseGraph,
    st: VState,
    outs: Seq<(usize, EdgeType)>,
    i: int,
) -> VState
    decreases outs.len() - i,
{
    if i < 0 || i >= outs.len() {
        st
    } else {
        spec_course_edges(g, spec_course_edge(g, st, outs[i]), outs, i + 1)
    }
}

/// What one outgoing edge of a popped requirement node does: a fulfilled
/// target is skipped; otherwise it loses one indegree, and then a course
/// target fires only under a corequisite tag with its group covered by the
/// current semester and nothing left incoming, while a requirement target
/// fires when its gate is reached, inheriting the tag.
pub open spec fn spec_req_edge(
    g: CourseGraph,
    sem: Seq<Seq<char>>,
    tag: NodeState,
    st: VState,
    e: (usize, EdgeType),
) -> VState {
    let v = e.0 as int;
    if st.fulfilled[v] {
        st
    } else {
        let d = spec_dec(st, v);
        if g.nodes@[v] is CourseNode {
            if tag == NodeState::Corequisite && spec_group_satisfied(g.nodes@, v, sem)
                && d.indegree[v] == 0 {
                spec_fire(d, v, NodeState::Neither)
            } else {
                d
            }
        } else {
            if g.spec_requirement_satisfied(e.0, d.indegree[v]) {
                spec_fire(d, v, tag)
            } else {
                d
            }
        }
    }
}

pub open spec fn spec_req_edges(
    g: CourseGraph,
    sem: Seq<Seq<char>>,
    tag: NodeState,
    st: VState,
    outs: Seq<(usize, EdgeType)>,
    i: int,
) -> VState
    decreases outs.len() - i,
{
    if i < 0 || i >= outs.len() {
        st
    } else {
        spec_req_edges(g, sem, tag, spec_req_edge(g, sem, tag, st, outs[i]), outs, i + 1)
    }
}

/// Popping and processing the head of the queue.
pub open spec fn spec_step(g: CourseGraph, sem: Seq<Seq<char>>, st: VState) -> VState {
    let u = st.queue[0].0;
    let tag = st.queue[0].1;
    let st1 = VState { queue: st.queue.drop_first(), ..st };
    if tag == NodeState::Neither {
        spec_course_edges(g, st1, out_edge_list(g.graph, u), 0)
    } else {
        spec_req_edges(g, sem, tag, st1, out_edge_list(g.graph, u), 0)
    }
}

pub open spec fn spec_measure(st: VState) -> nat {
    count_false(st.fulfilled) + st.queue.len()
}

pub open spec fn spec_drain_fuel(g: CourseGraph, sem: Seq<Seq<char>>, st: VState, fuel: nat) -> VState
    decreases fuel,
{
    if fuel == 0 || st.queue.len() == 0 {
        st
    } else {
        spec_drain_fuel(g, sem, spec_step(g, sem, st), (fuel - 1) as nat)
    }
}

/// Draining the queue to emptiness; each step frees one unit of the measure,
/// so the measure itself is enough fuel.
pub open spec fn spec_drain(g: CourseGraph, sem: Seq<Seq<char>>, st: VState) -> VState {
    spec_drain_fuel(g, sem, st, spec_measure(st))
}

/// Every edge leaving `a` stays inside the graph.
pub proof fn lemma_out_edges_in_range(g: CourseGraph, a: usize)
    requires
        g.wf(),
    ensures
        forall|i: int|
            0 <= i < out_edge_list(g.graph, a).len() ==> ((#[trigger] out_edge_list(g.graph, a)[i]).0
                as nat) < g.nodes@.len(),
{
    let el = graph_edge_list(g.graph);
    let filtered = el.filter(crate::pgraph::edge_from(a));
    let mapped = filtered.map_values(crate::pgraph::drop_source());
    assert forall|i: int|
        0 <= i < out_edge_list(g.graph, a).len() implies ((#[trigger] out_edge_list(g.graph, a)[i]).0
        as nat) < g.nodes@.len() by {
        let j = mapped.len() - 1 - i;
        assert(out_edge_list(g.graph, a)[i] == mapped[j]);
        assert(mapped[j] == crate::pgraph::drop_source()(filtered[j]));
        lemma_filter_elem(el, crate::pgraph::edge_from(a), j);
        let w = choose|w: int| 0 <= w < el.len() && el[w] == filtered[j];
        assert(g.edge_ok(el[w]));
    }
}

/// A single edge action keeps the state well-formed and the measure exact:
/// a fire trades one unfulfilled flag for one queue entry.
pub proof fn lemma_course_edge_props(g: CourseGraph, st: VState, e: (usize, EdgeType))
    requires
        g.wf(),
        st_wf(g, st),
        (e.0 as nat) < g.nodes@.len(),
    ensures
        st_wf(g, spec_course_edge(g, st, e)),
        spec_measure(spec_course_edge(g, st, e)) == spec_measure(st),
        count_false(spec_course_edge(g, st, e).fulfilled) <= count_false(st.fulfilled),
    decreases 0int,
{
    let v = e.0 as int;
    let d = spec_dec(st, v);
    assert(st_wf(g, d));
    assert(d.fulfilled == st.fulfilled);
    if !d.fulfilled[v] && g.spec_requirement_satisfied(e.0, d.indegree[v]) {
        lemma_count_false_update(d.fulfilled, v);
    }
}

pub proof fn lemma_req_edge_props(
    g: CourseGraph,
    sem: Seq<Seq<char>>,
    tag: NodeState,
    st: VState,
    e: (usize, EdgeType),
)
    requires
        g.wf(),
        st_wf(g, st),
        (e.0 as nat) < g.nodes@.len(),
    ensures
        st_wf(g, spec_req_edge(g, sem, tag, st, e)),
        spec_measure(spec_req_edge(g, sem, tag, st, e)) == spec_measure(st),
        count_false(spec_req_edge(g, sem, tag, st, e).fulfilled) <= count_false(st.fulfilled),
{
    let v = e.0 as int;
    if !st.fulfilled[v] {
        let d = spec_dec(st, v);
        assert(st_wf(g, d));
        assert(d.fulfilled == st.fulfilled);
        if g.nodes@[v] is CourseNode {
            if tag == NodeState::Corequisite && spec_group_satisfied(g.nodes@, v, sem)
                && d.indegree[v] == 0 {
                lemma_count_false_update(d.fulfilled, v);
            }
        } else {
            if g.spec_requirement_satisfied(e.0, d.indegree[v]) {
                lemma_count_false_update(d.fulfilled, v);
            }
        }
    }
}

pub proof fn lemma_course_edges_props(
    g: CourseGraph,
    st: VState,
    outs: Seq<(usize, EdgeType)>,
    i: int,
)
    requires
        g.wf(),
        st_wf(g, st),
        forall|j: int| 0 <= j < outs.len() ==> ((#[trigger] outs[j]).0 as nat) < g.nodes@.len(),
    ensures
        st_wf(g, spec_course_edges(g, st, outs, i)),
        spec_measure(spec_course_edges(g, st, outs, i)) == spec_measure(st),
        count_false(spec_course_edges(g, st, outs, i).fulfilled) <= count_false(st.fulfilled),
    decreases outs.len() - i,
{
    if 0 <= i < outs.len() {
        lemma_course_edge_props(g, st, outs[i]);
        lemma_course_edges_props(g, spec_course_edge(g, st, outs[i]), outs, i + 1);
    }
}

pub proof fn lemma_req_edges_props(
    g: CourseGraph,
    sem: Seq<Seq<char>>,
    tag: NodeState,
    st: VState,
    outs: Seq<(usize, EdgeType)>,
    i: int,
)
    requires
        g.wf(),
        st_wf(g, st),
        forall|j: int| 0 <= j < outs.len() ==> ((#[trigger] outs[j]).0 as nat) < g.nodes@.len(),
    ensures
        st_wf(g, spec_req_edges(g, sem, tag, st, outs, i)),
        spec_measure(spec_req_edges(g, sem, tag, st, outs, i)) == spec_measure(st),
        count_false(spec_req_edges(g, sem, tag, st, outs, i).fulfilled) <= count_false(st.fulfilled),
    decreases outs.len() - i,
{
    if 0 <= i < outs.len() {
        lemma_req_edge_props(g, sem, tag, st, outs[i]);
        lemma_req_edges_props(g, sem, tag, spec_req_edge(g, sem, tag, st, outs[i]), outs, i + 1);
    }
}

/// One step pops one entry and pays for every push with a fulfilled flag, so
/// the measure goes down by exactly one.
pub proof fn lemma_step_props(g: CourseGraph, sem: Seq<Seq<char>>, st: VState)
    requires
        g.wf(),
        st_wf(g, st),
        st.queue.len() > 0,
    ensures
        st_wf(g, spec_step(g, sem, st)),
        spec_measure(spec_step(g, sem, st)) + 1 == spec_measure(st),
        count_false(spec_step(g, sem, st).fulfilled) <= count_false(st.fulfilled),
{
    let u = st.queue[0].0;
    let st1 = VState { queue: st.queue.drop_first(), ..st };
    assert(st_wf(g, st1));
    lemma_out_edges_in_range(g, u);
    if st.queue[0].1 == NodeState::Neither {
        lemma_course_edges_props(g, st1, out_edge_list(g.graph, u), 0);
    } else {
        lemma_req_edges_props(g, sem, st.queue[0].1, st1, out_edge_list(g.graph, u), 0);
    }
}

/// With fuel at least the measure, the drain empties the queue and more fuel
/// changes nothing.
pub proof fn lemma_drain_fuel(g: CourseGraph, sem: Seq<Seq<char>>, st: VState, fuel: nat)
    requires
        g.wf(),
        st_wf(g, st),
        fuel >= spec_measure(st),
    ensures
        st_wf(g, spec_drain_fuel(g, sem, st, fuel)),
        spec_drain_fuel(g, sem, st, fuel).queue.len() == 0,
        spec_drain_fuel(g, sem, st, fuel) == spec_drain(g, sem, st),
        count_false(spec_drain_fuel(g, sem, st, fuel).fulfilled) <= count_false(st.fulfilled),
    decreases fuel,
{
    if fuel == 0 || st.queue.len() == 0 {
    } else {
        lemma_step_props(g, sem, st);
        let st2 = spec_step(g, sem, st);
        lemma_drain_fuel(g, sem, st2, (fuel - 1) as nat);
        lemma_drain_fuel(g, sem, st2, spec_measure(st2));
    }
}

/// Bridging one exec drain iteration: popping and processing the head leaves
/// the drain's final state unchanged.
pub proof fn lemma_drain_step_bridge(g: CourseGraph, sem: Seq<Seq<char>>, st: VState)
    requires
        g.wf(),
        st_wf(g, st),
        st.queue.len() > 0,
    ensures
        spec_drain(g, sem, st) == spec_drain(g, sem, spec_step(g, sem, st)),
{
    lemma_step_props(g, sem, st);
    lemma_drain_fuel(g, sem, st, spec_measure(st));
    lemma_drain_fuel(g, sem, spec_step(g, sem, st), spec_measure(spec_step(g, sem, st)));
}

/// The scratch state a call starts from: the graph's in-degrees, nothing
/// fulfilled, an empty queue.
pub open spec fn spec_initial_state(g: CourseGraph) -> VState {
    VState {
        indegree: Seq::new(g.nodes@.len(), |i: int| in_degree_of(g.graph, i as usize) as usize),
        fulfilled: Seq::new(g.nodes@.len(), |i: int| false),
        queue: Seq::<(usize, NodeState)>::empty(),
    }
}

pub proof fn lemma_initial_state_wf(g: CourseGraph)
    requires
        g.wf(),
    ensures
        st_wf(g, spec_initial_state(g)),
{
    assert forall|i: int|
        0 <= i < spec_initial_state(g).indegree.len() implies (#[trigger] spec_initial_state(
        g,
    ).indegree[i] as nat) <= in_degree_of(g.graph, i as usize) by {
        g.lemma_in_degree_le(i as usize);
    }
}

/// The bypass phase's bookkeeping: each bypass name resolves to a course,
/// which is fulfilled, zeroed and enqueued; an unknown name is the error.
pub open spec fn spec_bypass_init(
    g: CourseGraph,
    names: Seq<Seq<char>>,
    st: VState,
    i: int,
) -> Result<VState, VError>
    decreases names.len() - i,
{
    if i < 0 || i >= names.len() {
        Ok(st)
    } else {
        match spec_find_course(g.nodes@, names[i]) {
            Some(v) => spec_bypass_init(
                g,
                names,
                VState {
                    indegree: st.indegree.update(v as int, 0usize),
                    fulfilled: st.fulfilled.update(v as int, true),
                    queue: st.queue.push((v, NodeState::Neither)),
                },
                i + 1,
            ),
            None => Err(VError::InvalidCourse(names[i])),
        }
    }
}

/// Scheduling a semester: each course that is already reachable — group
/// covered and no unsatisfied incoming edges — is fulfilled and enqueued; an
/// unknown name is the error.
pub open spec fn spec_semester_init(
    g: CourseGraph,
    sem: Seq<Seq<char>>,
    st: VState,
    i: int,
) -> Result<VState, VError>
    decreases sem.len() - i,
{
    if i < 0 || i >= sem.len() {
        Ok(st)
    } else {
        match spec_find_course(g.nodes@, sem[i]) {
            Some(v) => {
                let st2 = if spec_group_satisfied(g.nodes@, v as int, sem) && st.indegree[v as int]
                    == 0 {
                    VState {
                        fulfilled: st.fulfilled.update(v as int, true),
                        queue: st.queue.push((v, NodeState::Neither)),
                        ..st
                    }
                } else {
                    st
                };
                spec_semester_init(g, sem, st2, i + 1)
            },
            None => Err(VError::InvalidCourse(sem[i])),
        }
    }
}

/// The post-check: after draining, every scheduled course must have its group
/// covered and no unsatisfied incoming edges; one that passed but never fired
/// is enqueued so its own dependents can fire in another round.
pub open spec fn spec_post_check(
    g: CourseGraph,
    sem: Seq<Seq<char>>,
    st: VState,
    i: int,
) -> Result<VState, VError>
    decreases sem.len() - i,
{
    if i < 0 || i >= sem.len() {
        Ok(st)
    } else {
        match spec_find_course(g.nodes@, sem[i]) {
            Some(v) => {
                if !spec_group_satisfied(g.nodes@, v as int, sem) {
                    Err(VError::GroupUnsatisfied(sem[i]))
                } else if st.indegree[v as int] > 0 {
                    Err(VError::UnfulfilledRequirement(sem[i], st.indegree[v as int]))
                } else if !st.fulfilled[v as int] {
                    spec_post_check(
                        g,
                        sem,
                        VState {
                            fulfilled: st.fulfilled.update(v as int, true),
                            queue: st.queue.push((v, NodeState::Neither)),
                            ..st
                        },
                        i + 1,
                    )
                } else {
                    spec_post_check(g, sem, st, i + 1)
                }
            },
            None => spec_post_check(g, sem, st, i + 1),
        }
    }
}

/// Draining and post-checking, repeated while the post-check enqueued new
/// work. Every repeat costs at least one fulfilled flag, so the count of
/// unfulfilled nodes is enough fuel.
pub open spec fn spec_rounds_fuel(
    g: CourseGraph,
    sem: Seq<Seq<char>>,
    st: VState,
    fuel: nat,
) -> Result<VState, VError>
    decreases fuel,
{
    let d = spec_drain(g, sem, st);
    match spec_post_check(g, sem, d, 0) {
        Ok(st2) => if st2.queue.len() == 0 || fuel == 0 {
            Ok(st2)
        } else {
            spec_rounds_fuel(g, sem, st2, (fuel - 1) as nat)
        },
        Err(e) => Err(e),
    }
}

pub open spec fn spec_rounds(g: CourseGraph, sem: Seq<Seq<char>>, st: VState) -> Result<
    VState,
    VError,
> {
    spec_rounds_fuel(g, sem, st, count_false(st.fulfilled))
}

pub proof fn lemma_post_check_props(g: CourseGraph, sem: Seq<Seq<char>>, st: VState, i: int)
    requires
        g.wf(),
        st_wf(g, st),
    ensures
        match spec_post_check(g, sem, st, i) {
            Ok(st2) => st_wf(g, st2) && st2.indegree == st.indegree && count_false(st2.fulfilled)
                + st2.queue.len() == count_false(st.fulfilled) + st.queue.len() && st2.queue.len()
                >= st.queue.len() && count_false(st2.fulfilled) <= count_false(st.fulfilled),
            Err(_) => true,
        },
    decreases sem.len() - i,
{
    if 0 <= i < sem.len() {
        crate::graph::lemma_find_course_some(g.nodes@, sem[i]);
        match spec_find_course(g.nodes@, sem[i]) {
            Some(v) => {
                if !spec_group_satisfied(g.nodes@, v as int, sem) {
                } else if st.indegree[v as int] > 0 {
                } else if !st.fulfilled[v as int] {
                    lemma_count_false_update(st.fulfilled, v as int);
                    let st2 = VState {
                        fulfilled: st.fulfilled.update(v as int, true),
                        queue: st.queue.push((v, NodeState::Neither)),
                        ..st
                    };
                    lemma_post_check_props(g, sem, st2, i + 1);
                } else {
                    lemma_post_check_props(g, sem, st, i + 1);
                }
            },
            None => {
                lemma_post_check_props(g, sem, st, i + 1);
            },
        }
    }
}

pub proof fn lemma_rounds_fuel(g: CourseGraph, sem: Seq<Seq<char>>, st: VState, fuel: nat)
    requires
        g.wf(),
        st_wf(g, st),
        fuel >= count_false(st.fulfilled),
    ensures
        spec_rounds_fuel(g, sem, st, fuel) == spec_rounds(g, sem, st),
        match spec_rounds_fuel(g, sem, st, fuel) {
            Ok(st2) => st_wf(g, st2) && st2.queue.len() == 0 && count_false(st2.fulfilled)
                <= count_false(st.fulfilled),
            Err(_) => true,
        },
    decreases fuel,
{
    lemma_drain_fuel(g, sem, st, spec_measure(st));
    let d = spec_drain(g, sem, st);
    lemma_post_check_props(g, sem, d, 0);
    match spec_post_check(g, sem, d, 0) {
        Ok(st2) => {
            if st2.queue.len() == 0 {
            } else {
                assert(count_false(st2.fulfilled) < count_false(st.fulfilled));
                lemma_rounds_fuel(g, sem, st2, (fuel - 1) as nat);
                lemma_rounds_fuel(g, sem, st2, count_false(st2.fulfilled));
                lemma_rounds_fuel(g, sem, st2, (count_false(st.fulfilled) - 1) as nat);
            }
        },
        Err(_) => {},
    }
}

/// Bridging one exec round: when the post-check enqueued new work, repeating
/// from the new state computes the same final answer.
pub proof fn lemma_rounds_step_bridge(g: CourseGraph, sem: Seq<Seq<char>>, st: VState, st2: VState)
    requires
        g.wf(),
        st_wf(g, st),
        spec_post_check(g, sem, spec_drain(g, sem, st), 0) == Ok::<VState, VError>(st2),
        st2.queue.len() > 0,
    ensures
        spec_rounds(g, sem, st) == spec_rounds(g, sem, st2),
        st_wf(g, st2),
        count_false(st2.fulfilled) < count_false(st.fulfilled),
{
    lemma_drain_fuel(g, sem, st, spec_measure(st));
    lemma_post_check_props(g, sem, spec_drain(g, sem, st), 0);
    lemma_rounds_fuel(g, sem, st2, (count_false(st.fulfilled) - 1) as nat);
    lemma_rounds_fuel(g, sem, st2, count_false(st2.fulfilled));
}

/// The semester phase: schedule, drain and check each semester in order.
pub open spec fn spec_semesters(
    g: CourseGraph,
    sems: Seq<Seq<Seq<char>>>,
    st: VState,
    i: int,
) -> Result<(), VError>
    decreases sems.len() - i,
{
    if i < 0 || i >= sems.len() {
        Ok(())
    } else {
        match spec_semester_init(g, sems[i], st, 0) {
            Ok(st1) => match spec_rounds(g, sems[i], st1) {
                Ok(st2) => spec_semesters(g, sems, st2, i + 1),
                Err(e) => Err(e),
            },
            Err(e) => Err(e),
        }
    }
}

/// The whole validation: open reachability from the bypasses, then walk the
/// semesters in order.
pub open spec fn spec_validate_degree(
    g: CourseGraph,
    sems: Seq<Seq<Seq<char>>>,
    bypasses: Seq<Seq<char>>,
) -> Result<(), VError> {
    match spec_bypass_init(g, bypasses, spec_initial_state(g), 0) {
        Ok(st) => spec_semesters(g, sems, spec_drain(g, bypasses, st), 0),
        Err(e) => Err(e),
    }
}

/// The seminar companions: the courses that may stand beside the first-year
/// seminar.
pub open spec fn spec_is_seminar_partner(n: Seq<char>) -> bool {
    ||| n == "ARHM 1100"@
    ||| n == "ATCM 1100"@
    ||| n == "BBSU 1100"@
    ||| n == "BCOM 1300"@
    ||| n == "BIS 1100"@
    ||| n == "ECS 1100"@
    ||| n == "EPPS 1110"@
    ||| n == "NATS 1101"@
    ||| n == "NATS 1142"@
    ||| n == "UNIV 1100"@
}

pub open spec fn keep_in_semester() -> spec_fn(Seq<char>) -> bool {
    |n: Seq<char>| n != "UNIV 1010"@ && !spec_is_seminar_partner(n)
}

pub open spec fn spec_has_univ(set: Seq<Seq<char>>) -> bool {
    exists|j: int| 0 <= j < set.len() && #[trigger] set[j] == "UNIV 1010"@
}

pub open spec fn spec_has_partner(set: Seq<Seq<char>>) -> bool {
    exists|j: int| 0 <= j < set.len() && spec_is_seminar_partner(#[trigger] set[j])
}

/// The seminar pre-filter: a semester holding exactly one of the seminar and
/// a companion is rejected; otherwise both are stripped before validation.
pub open spec fn spec_seminar_filter(sems: Seq<Seq<Seq<char>>>, i: int) -> Result<
    Seq<Seq<Seq<char>>>,
    VError,
>
    decreases sems.len() - i,
{
    if i < 0 || i >= sems.len() {
        Ok(Seq::<Seq<Seq<char>>>::empty())
    } else if spec_has_univ(sems[i]) != spec_has_partner(sems[i]) {
        Err(VError::SeminarUnsatisfied)
    } else {
        match spec_seminar_filter(sems, i + 1) {
            Ok(rest) => Ok(seq![sems[i].filter(keep_in_semester())] + rest),
            Err(e) => Err(e),
        }
    }
}

/// The whole call: the seminar pre-filter, then the two-phase validation.
pub open spec fn spec_process(
    g: CourseGraph,
    sems: Seq<Seq<Seq<char>>>,
    bypasses: Seq<Seq<char>>,
) -> Result<(), VError> {
    match spec_seminar_filter(sems, 0) {
        Ok(stripped) => spec_validate_degree(g, stripped, bypasses),
        Err(e) => Err(e),
    }
}

pub open spec fn spec_digit_char(d: nat) -> char {
    if d == 0 {
        '0'
    } else if d == 1 {
        '1'
    } else if d == 2 {
        '2'
    } else if d == 3 {
        '3'
    } else if d == 4 {
        '4'
    } else if d == 5 {
        '5'
    } else if d == 6 {
        '6'
    } else if d == 7 {
        '7'
    } else if d == 8 {
        '8'
    } else {
        '9'
    }
}

/// `n` written in decimal.
pub open spec fn spec_digits(n: nat) -> Seq<char>
    decreases n,
{
    if n < 10 {
        seq![spec_digit_char(n)]
    } else {
        spec_digits(n / 10).push(spec_digit_char(n % 10))
    }
}

/// The stable failure strings of the validator.
pub open spec fn spec_error_message(e: VError) -> Seq<char> {
    match e {
        VError::InvalidCourse(n) => "Invalid course found: "@ + n,
        VError::SeminarUnsatisfied => "Missing corequisite for seminar requirement"@,
        VError::GroupUnsatisfied(n) => "Found course with unsatisfied group: "@ + n,
        VError::UnfulfilledRequirement(n, d) => "Found course with unfulfilled pre/corequisites: "@
            + n + " (Need "@ + spec_digits(d as nat) + " more requirement(s))"@,
    }
}

pub proof fn lemma_filter_push<A>(s: Seq<A>, pred: spec_fn(A) -> bool, x: A)
    ensures
        s.push(x).filter(pred) == if pred(x) {
            s.filter(pred).push(x)
        } else {
            s.filter(pred)
        },
{
    reveal(Seq::filter);
    assert(s.push(x).drop_last() =~= s);
}

fn digit_string(d: usize) -> (r: String)
    requires
        d < 10,
    ensures
        r@ == seq![spec_digit_char(d as nat)],
{
    let s: &str = if d == 0 {
        "0"
    } else if d == 1 {
        "1"
    } else if d == 2 {
        "2"
    } else if d == 3 {
        "3"
    } else if d == 4 {
        "4"
    } else if d == 5 {
        "5"
    } else if d == 6 {
        "6"
    } else if d == 7 {
        "7"
    } else if d == 8 {
        "8"
    } else {
        "9"
    };
    proof {
        reveal_strlit("0");
        reveal_strlit("1");
        reveal_strlit("2");
        reveal_strlit("3");
        reveal_strlit("4");
        reveal_strlit("5");
        reveal_strlit("6");
        reveal_strlit("7");
        reveal_strlit("8");
        reveal_strlit("9");
        assert(s@ =~= seq![spec_digit_char(d as nat)]);
    }
    String::from_str(s)
}

/// `n` in decimal, proved against [`spec_digits`].
fn usize_digits(n: usize) -> (r: String)
    ensures
        r@ == spec_digits(n as nat),
    decreases n,
{
    if n < 10 {
        digit_string(n)
    } else {
        let mut s = usize_digits(n / 10);
        let d = digit_string(n % 10);
        s.append(d.as_str());
        proof {
            assert(s@ =~= spec_digits(n as nat));
        }
        s
    }
}

fn error_message(e: &ExecError) -> (r: String)
    ensures
        r@ == spec_error_message(e.view()),
{
    match e {
        ExecError::InvalidCourse(n) => {
            let mut m = String::from_str("Invalid course found: ");
            m.append(n.as_str());
            m
        },
        ExecError::SeminarUnsatisfied => String::from_str(
            "Missing corequisite for seminar requirement",
        ),
        ExecError::GroupUnsatisfied(n) => {
            let mut m = String::from_str("Found course with unsatisfied group: ");
            m.append(n.as_str());
            m
        },
        ExecError::UnfulfilledRequirement(n, d) => {
            let mut m = String::from_str("Found course with unfulfilled pre/corequisites: ");
            m.append(n.as_str());
            m.append(" (Need ");
            let digits = usize_digits(*d);
            m.append(digits.as_str());
            m.append(" more requirement(s))");
            proof {
                assert(m@ =~= spec_error_message(e.view()));
            }
            m
        },
    }
}

/// The executable error values; their view is [`VError`].
pub enum ExecError {
    InvalidCourse(String),
    SeminarUnsatisfied,
    GroupUnsatisfied(String),
    UnfulfilledRequirement(String, usize),
}

impl View for ExecError {
    type V = VError;

    open spec fn view(&self) -> VError {
        match self {
            ExecError::InvalidCourse(n) => VError::InvalidCourse(n@),
            ExecError::SeminarUnsatisfied => VError::SeminarUnsatisfied,
            ExecError::GroupUnsatisfied(n) => VError::GroupUnsatisfied(n@),
            ExecError::UnfulfilledRequirement(n, d) => VError::UnfulfilledRequirement(n@, *d),
        }
    }
}

fn is_seminar_partner(name: &String) -> (r: bool)
    ensures
        r == spec_is_seminar_partner(name@),
{
    *name == String::from_str("ARHM 1100") || *name == String::from_str("ATCM 1100") || *name
        == String::from_str("BBSU 1100") || *name == String::from_str("BCOM 1300") || *name
        == String::from_str("BIS 1100") || *name == String::from_str("ECS 1100") || *name
        == String::from_str("EPPS 1110") || *name == String::from_str("NATS 1101") || *name
        == String::from_str("NATS 1142") || *name == String::from_str("UNIV 1100")
}

fn set_has_univ(set: &Vec<String>) -> (r: bool)
    ensures
        r == spec_has_univ(set.deep_view()),
{
    let target = String::from_str("UNIV 1010");
    let mut i: usize = 0;
    while i < set.len()
        invariant
            i <= set@.len(),
            target@ == "UNIV 1010"@,
            forall|k: int| 0 <= k < i ==> #[trigger] set.deep_view()[k] != "UNIV 1010"@,
        decreases set@.len() - i,
    {
        if set[i] == target {
            proof {
                assert(set.deep_view()[i as int] == "UNIV 1010"@);
            }
            return true;
        }
        i = i + 1;
    }
    false
}

fn set_has_partner(set: &Vec<String>) -> (r: bool)
    ensures
        r == spec_has_partner(set.deep_view()),
{
    let mut i: usize = 0;
    while i < set.len()
        invariant
            i <= set@.len(),
            forall|k: int| 0 <= k < i ==> !spec_is_seminar_partner(#[trigger] set.deep_view()[k]),
        decreases set@.len() - i,
    {
        if is_seminar_partner(&set[i]) {
            proof {
                assert(spec_is_seminar_partner(set.deep_view()[i as int]));
            }
            return true;
        }
        i = i + 1;
    }
    false
}

/// Keeps the courses of one semester that are neither the seminar nor one of
/// its companions.
fn strip_set(set: &Vec<String>) -> (r: Vec<String>)
    ensures
        r.deep_view() == set.deep_view().filter(keep_in_semester()),
{
    let mut out: Vec<String> = Vec::new();
    let univ = String::from_str("UNIV 1010");
    let mut i: usize = 0;
    proof {
        reveal(Seq::filter);
        assert(set.deep_view().take(0) =~= Seq::<Seq<char>>::empty());
    }
    while i < set.len()
        invariant
            i <= set@.len(),
            univ@ == "UNIV 1010"@,
            out.deep_view() == set.deep_view().take(i as int).filter(keep_in_semester()),
        decreases set@.len() - i,
    {
        let ghost pre = out.deep_view();
        let keep = !(set[i] == univ) && !is_seminar_partner(&set[i]);
        if keep {
            out.push(set[i].clone());
        }
        proof {
            let dv = set.deep_view();
            assert(dv.take(i + 1).drop_last() =~= dv.take(i as int));
            assert(dv.take(i + 1).last() == dv[i as int]);
            lemma_filter_push(dv.take(i as int), keep_in_semester(), dv[i as int]);
            assert(dv.take(i + 1) =~= dv.take(i as int).push(dv[i as int]));
            assert(dv[i as int] == set@[i as int]@);
            if keep {
                assert(out.deep_view() =~= pre.push(set@[i as int]@));
            }
        }
        i = i + 1;
    }
    proof {
        assert(set.deep_view().take(set@.len() as int) =~= set.deep_view());
    }
    out
}

/// The validator's per-call scratch state.
pub struct CourseRecommenderState {
    pub indegree: Vec<usize>,
    pub fulfilled: Vec<bool>,
}

impl CourseRecommenderState {
    fn new(g: &CourseGraph) -> (r: CourseRecommenderState)
        requires
            g.wf(),
        ensures
            r.indegree@ == spec_initial_state(*g).indegree,
            r.fulfilled@ == spec_initial_state(*g).fulfilled,
    {
        let n = g.size();
        let mut indegree: Vec<usize> = Vec::new();
        let mut i: usize = 0;
        while i < n
            invariant
                g.wf(),
                n == g.nodes@.len(),
                i <= n,
                indegree@.len() == i,
                forall|k: int|
                    0 <= k < i ==> (#[trigger] indegree@[k]) as nat == in_degree_of(
                        g.graph,
                        k as usize,
                    ),
            decreases n - i,
        {
            let d = g.in_degree(i);
            indegree.push(d);
            i = i + 1;
        }
        let mut fulfilled: Vec<bool> = Vec::new();
        let mut j: usize = 0;
        while j < n
            invariant
                j <= n,
                fulfilled@.len() == j,
                forall|k: int| 0 <= k < j ==> !(#[trigger] fulfilled@[k]),
            decreases n - j,
        {
            fulfilled.push(false);
            j = j + 1;
        }
        proof {
            assert(indegree@ =~= spec_initial_state(*g).indegree);
            assert(fulfilled@ =~= spec_initial_state(*g).fulfilled);
        }
        CourseRecommenderState { indegree, fulfilled }
    }
}

/// A per-request validation run over a shared, read-only course graph.
pub struct CourseRecommenderPipeline<'a> {
    pub state: CourseRecommenderState,
    pub g: &'a CourseGraph,
}

impl<'a> CourseRecommenderPipeline<'a> {
    /// The spec state formed by the scratch vectors and a queue.
    pub open spec fn cur_state(&self, q: Seq<(usize, NodeState)>) -> VState {
        VState { indegree: self.state.indegree@, fulfilled: self.state.fulfilled@, queue: q }
    }

    /// A pipeline that has not validated anything yet.
    pub open spec fn fresh(&self) -> bool {
        &&& self.g.wf()
        &&& self.state.indegree@ == spec_initial_state(*self.g).indegree
        &&& self.state.fulfilled@ == spec_initial_state(*self.g).fulfilled
    }

    pub fn new(g: &'a CourseGraph) -> (r: CourseRecommenderPipeline<'a>)
        requires
            g.wf(),
        ensures
            r.fresh(),
            r.g == g,
    {
        CourseRecommenderPipeline { state: CourseRecommenderState::new(g), g }
    }

    /// Processes one popped node: walks its outgoing edges exactly as the
    /// edge-step specification says.
    fn process_node(
        &mut self,
        q: &mut VecDeque<(usize, NodeState)>,
        u: usize,
        tag: NodeState,
        current_set: &Vec<String>,
    )
        requires
            old(self).g.wf(),
            st_wf(*old(self).g, old(self).cur_state(old(q)@)),
            (u as nat) < old(self).g.nodes@.len(),
        ensures
            final(self).g == old(self).g,
            final(self).cur_state(final(q)@) == (if tag == NodeState::Neither {
                spec_course_edges(
                    *old(self).g,
                    old(self).cur_state(old(q)@),
                    out_edge_list(old(self).g.graph, u),
                    0,
                )
            } else {
                spec_req_edges(
                    *old(self).g,
                    current_set.deep_view(),
                    tag,
                    old(self).cur_state(old(q)@),
                    out_edge_list(old(self).g.graph, u),
                    0,
                )
            }),
    {
        let ghost gg = *old(self).g;
        let ghost st0 = old(self).cur_state(old(q)@);
        let ghost semv = current_set.deep_view();
        let outs = pg_out_edges(&self.g.graph, u);
        proof {
            lemma_out_edges_in_range(gg, u);
        }
        let mut i: usize = 0;
        if tag == NodeState::Neither {
            while i < outs.len()
                invariant
                    self.g == old(self).g,
                    gg == *old(self).g,
                    gg.wf(),
                    i <= outs@.len(),
                    outs@ == out_edge_list(gg.graph, u),
                    forall|j: int|
                        0 <= j < outs@.len() ==> ((#[trigger] outs@[j]).0 as nat)
                            < gg.nodes@.len(),
                    st_wf(gg, self.cur_state(q@)),
                    spec_course_edges(gg, st0, outs@, 0) == spec_course_edges(
                        gg,
                        self.cur_state(q@),
                        outs@,
                        i as int,
                    ),
                decreases outs@.len() - i,
            {
                let ghost pre = self.cur_state(q@);
                let e = outs[i];
                let v = e.0;
                if self.state.indegree[v] > 0 {
                    let nv = self.state.indegree[v] - 1;
                    self.state.indegree[v] = nv;
                }
                proof {
                    assert(self.cur_state(q@) == spec_dec(pre, v as int));
                    lemma_course_edge_props(gg, pre, e);
                }
                let fire = !self.state.fulfilled[v] && self.g.requirement_satisfied(
                    v,
                    self.state.indegree[v],
                );
                if fire {
                    self.state.indegree[v] = 0;
                    self.state.fulfilled[v] = true;
                    if e.1 == EdgeType::COREQUISITE {
                        q.push_back((v, NodeState::Corequisite));
                    } else {
                        q.push_back((v, NodeState::Prerequisite));
                    }
                }
                proof {
                    assert(self.cur_state(q@) == spec_course_edge(gg, pre, e));
                }
                i = i + 1;
            }
        } else {
            while i < outs.len()
                invariant
                    self.g == old(self).g,
                    gg == *old(self).g,
                    gg.wf(),
                    i <= outs@.len(),
                    semv == current_set.deep_view(),
                    outs@ == out_edge_list(gg.graph, u),
                    forall|j: int|
                        0 <= j < outs@.len() ==> ((#[trigger] outs@[j]).0 as nat)
                            < gg.nodes@.len(),
                    st_wf(gg, self.cur_state(q@)),
                    spec_req_edges(gg, semv, tag, st0, outs@, 0) == spec_req_edges(
                        gg,
                        semv,
                        tag,
                        self.cur_state(q@),
                        outs@,
                        i as int,
                    ),
                decreases outs@.len() - i,
            {
                let ghost pre = self.cur_state(q@);
                let e = outs[i];
                let v = e.0;
                proof {
                    lemma_req_edge_props(gg, semv, tag, pre, e);
                }
                if !self.state.fulfilled[v] {
                    if self.state.indegree[v] > 0 {
                        let nv = self.state.indegree[v] - 1;
                        self.state.indegree[v] = nv;
                    }
                    proof {
                        assert(self.cur_state(q@) == spec_dec(pre, v as int));
                    }
                    let is_course = match &self.g.nodes[v] {
                        NodeInfo::CourseNode(_) => true,
                        NodeInfo::RequirementNode(_) => false,
                    };
                    if is_course {
                        if tag == NodeState::Corequisite && self.g.course_group_satisfied(
                            v,
                            current_set,
                        ) && self.state.indegree[v] == 0 {
                            self.state.indegree[v] = 0;
                            self.state.fulfilled[v] = true;
                            q.push_back((v, NodeState::Neither));
                        }
                    } else {
                        if self.g.requirement_satisfied(v, self.state.indegree[v]) {
                            self.state.indegree[v] = 0;
                            self.state.fulfilled[v] = true;
                            q.push_back((v, tag));
                        }
                    }
                }
                proof {
                    assert(self.cur_state(q@) == spec_req_edge(gg, semv, tag, pre, e));
                }
                i = i + 1;
            }
        }
    }

    /// Works the queue to emptiness, computing exactly the drain of the
    /// starting state.
    fn drain_queue(&mut self, q: &mut VecDeque<(usize, NodeState)>, current_set: &Vec<String>)
        requires
            old(self).g.wf(),
            st_wf(*old(self).g, old(self).cur_state(old(q)@)),
        ensures
            final(self).g == old(self).g,
            st_wf(*old(self).g, final(self).cur_state(final(q)@)),
            final(q)@.len() == 0,
            final(self).cur_state(final(q)@) == spec_drain(
                *old(self).g,
                current_set.deep_view(),
                old(self).cur_state(old(q)@),
            ),
            count_false(final(self).state.fulfilled@) <= count_false(old(self).state.fulfilled@),
    {
        let ghost gg = *old(self).g;
        let ghost st0 = old(self).cur_state(old(q)@);
        let ghost semv = current_set.deep_view();
        while q.len() > 0
            invariant
                self.g == old(self).g,
                gg == *old(self).g,
                gg.wf(),
                semv == current_set.deep_view(),
                st_wf(gg, self.cur_state(q@)),
                spec_drain(gg, semv, st0) == spec_drain(gg, semv, self.cur_state(q@)),
            decreases spec_measure(self.cur_state(q@)),
        {
            let ghost st_pre = self.cur_state(q@);
            proof {
                lemma_step_props(gg, semv, st_pre);
                lemma_drain_step_bridge(gg, semv, st_pre);
            }
            let popped = q.pop_front();
            match popped {
                Some(pair) => {
                    proof {
                        assert(self.cur_state(q@) == VState {
                            queue: st_pre.queue.drop_first(),
                            ..st_pre
                        });
                    }
                    self.process_node(q, pair.0, pair.1, current_set);
                    proof {
                        assert(self.cur_state(q@) == spec_step(gg, semv, st_pre));
                    }
                },
                None => {
                    proof {
                        assert(false);
                    }
                },
            }
        }
        proof {
            lemma_drain_fuel(gg, semv, st0, spec_measure(st0));
            assert(spec_drain(gg, semv, self.cur_state(q@)) == self.cur_state(q@));
        }
    }

    /// The two-phase validation, proved to decide exactly as
    /// [`spec_validate_degree`] does, with the stable message for each error.
    fn validate_degree(&mut self, taken_courses: &Vec<Vec<String>>, bypasses: &Vec<String>) -> (r:
        Result<(), String>)
        requires
            old(self).fresh(),
        ensures
            final(self).g == old(self).g,
            (match spec_validate_degree(
                *old(self).g,
                taken_courses.deep_view(),
                bypasses.deep_view(),
            ) {
                Ok(()) => r is Ok,
                Err(e) => r matches Err(m) && m@ == spec_error_message(e),
            }),
    {
        let ghost gg = *old(self).g;
        let ghost init = spec_initial_state(gg);
        let ghost bypv = bypasses.deep_view();
        let ghost semsv = taken_courses.deep_view();
        proof {
            lemma_initial_state_wf(gg);
        }
        let mut q: VecDeque<(usize, NodeState)> = VecDeque::new();
        proof {
            assert(self.cur_state(q@) == init);
        }
        let mut bi: usize = 0;
        while bi < bypasses.len()
            invariant
                self.g == old(self).g,
                gg == *old(self).g,
                gg.wf(),
                bi <= bypasses@.len(),
                bypv == bypasses.deep_view(),
                semsv == taken_courses.deep_view(),
                init == spec_initial_state(gg),
                st_wf(gg, self.cur_state(q@)),
                spec_bypass_init(gg, bypv, init, 0) == spec_bypass_init(
                    gg,
                    bypv,
                    self.cur_state(q@),
                    bi as int,
                ),
            decreases bypasses@.len() - bi,
        {
            proof {
                assert(bypv[bi as int] == bypasses@[bi as int]@);
            }
            match self.g.find_course_by_name(bypasses[bi].as_str()) {
                Some(ci) => {
                    self.state.indegree[ci] = 0;
                    self.state.fulfilled[ci] = true;
                    q.push_back((ci, NodeState::Neither));
                },
                None => {
                    let err = ExecError::InvalidCourse(bypasses[bi].clone());
                    proof {
                        assert(spec_bypass_init(gg, bypv, self.cur_state(q@), bi as int)
                            == Err::<VState, VError>(VError::InvalidCourse(bypv[bi as int])));
                        assert(spec_validate_degree(gg, semsv, bypv) == Err::<(), VError>(
                            VError::InvalidCourse(bypv[bi as int]),
                        ));
                    }
                    return Err(error_message(&err));
                },
            }
            bi = bi + 1;
        }
        self.drain_queue(&mut q, bypasses);
        proof {
            assert(spec_validate_degree(gg, semsv, bypv) == spec_semesters(
                gg,
                semsv,
                self.cur_state(q@),
                0,
            ));
        }
        let mut si: usize = 0;
        while si < taken_courses.len()
            invariant
                self.g == old(self).g,
                gg == *old(self).g,
                gg.wf(),
                si <= taken_courses@.len(),
                semsv == taken_courses.deep_view(),
                bypv == bypasses.deep_view(),
                q@.len() == 0,
                st_wf(gg, self.cur_state(q@)),
                spec_validate_degree(gg, semsv, bypv) == spec_semesters(
                    gg,
                    semsv,
                    self.cur_state(q@),
                    si as int,
                ),
            decreases taken_courses@.len() - si,
        {
            let semester_set: &Vec<String> = &taken_courses[si];
            let ghost semv = semester_set.deep_view();
            let ghost st_sem0 = self.cur_state(q@);
            proof {
                assert(semsv[si as int] == semv);
            }
            let mut ini: usize = 0;
            while ini < semester_set.len()
                invariant
                    self.g == old(self).g,
                    gg == *old(self).g,
                    gg.wf(),
                    ini <= semester_set@.len(),
                    semv == semester_set.deep_view(),
                    semsv == taken_courses.deep_view(),
                    bypv == bypasses.deep_view(),
                    0 <= si < semsv.len(),
                    semsv[si as int] == semv,
                    spec_validate_degree(gg, semsv, bypv) == spec_semesters(
                        gg,
                        semsv,
                        st_sem0,
                        si as int,
                    ),
                    st_wf(gg, self.cur_state(q@)),
                    self.state.indegree@ == st_sem0.indegree,
                    spec_semester_init(gg, semv, st_sem0, 0) == spec_semester_init(
                        gg,
                        semv,
                        self.cur_state(q@),
                        ini as int,
                    ),
                decreases semester_set@.len() - ini,
            {
                proof {
                    assert(semv[ini as int] == semester_set@[ini as int]@);
                }
                match self.g.find_course_by_name(semester_set[ini].as_str()) {
                    Some(v) => {
                        if self.g.course_group_satisfied(v, semester_set)
                            && self.state.indegree[v] == 0 {
                            self.state.fulfilled[v] = true;
                            q.push_back((v, NodeState::Neither));
                        }
                    },
                    None => {
                        let err = ExecError::InvalidCourse(semester_set[ini].clone());
                        proof {
                            assert(spec_semester_init(gg, semv, st_sem0, 0) == Err::<
                                VState,
                                VError,
                            >(VError::InvalidCourse(semv[ini as int])));
                            assert(spec_semesters(gg, semsv, st_sem0, si as int) == Err::<
                                (),
                                VError,
                            >(VError::InvalidCourse(semv[ini as int])));
                        }
                        return Err(error_message(&err));
                    },
                }
                ini = ini + 1;
            }
            let ghost round0 = self.cur_state(q@);
            let mut done = false;
            while !done
                invariant
                    self.g == old(self).g,
                    gg == *old(self).g,
                    gg.wf(),
                    semv == semester_set.deep_view(),
                    semsv == taken_courses.deep_view(),
                    bypv == bypasses.deep_view(),
                    0 <= si < semsv.len(),
                    semsv[si as int] == semv,
                    spec_validate_degree(gg, semsv, bypv) == spec_semesters(
                        gg,
                        semsv,
                        st_sem0,
                        si as int,
                    ),
                    spec_semester_init(gg, semv, st_sem0, 0) == Ok::<VState, VError>(round0),
                    st_wf(gg, self.cur_state(q@)),
                    !done ==> spec_rounds(gg, semv, round0) == spec_rounds(
                        gg,
                        semv,
                        self.cur_state(q@),
                    ),
                    done ==> (spec_rounds(gg, semv, round0) == Ok::<VState, VError>(
                        self.cur_state(q@),
                    ) && q@.len() == 0),
                decreases count_false(self.cur_state(q@).fulfilled) + (if done {
                    0int
                } else {
                    1int
                }),
            {
                let ghost rst = self.cur_state(q@);
                self.drain_queue(&mut q, semester_set);
                let ghost drained = self.cur_state(q@);
                let mut pi: usize = 0;
                while pi < semester_set.len()
                    invariant
                        self.g == old(self).g,
                        gg == *old(self).g,
                        gg.wf(),
                        pi <= semester_set@.len(),
                        semv == semester_set.deep_view(),
                        semsv == taken_courses.deep_view(),
                        bypv == bypasses.deep_view(),
                        0 <= si < semsv.len(),
                        semsv[si as int] == semv,
                        spec_validate_degree(gg, semsv, bypv) == spec_semesters(
                            gg,
                            semsv,
                            st_sem0,
                            si as int,
                        ),
                        spec_semester_init(gg, semv, st_sem0, 0) == Ok::<VState, VError>(round0),
                        st_wf(gg, self.cur_state(q@)),
                        drained == spec_drain(gg, semv, rst),
                        self.state.indegree@ == drained.indegree,
                        spec_post_check(gg, semv, drained, 0) == spec_post_check(
                            gg,
                            semv,
                            self.cur_state(q@),
                            pi as int,
                        ),
                        spec_rounds(gg, semv, round0) == spec_rounds(gg, semv, rst),
                        st_wf(gg, rst),
                        count_false(self.state.fulfilled@) <= count_false(rst.fulfilled),
                    decreases semester_set@.len() - pi,
                {
                    proof {
                        assert(semv[pi as int] == semester_set@[pi as int]@);
                    }
                    match self.g.find_course_by_name(semester_set[pi].as_str()) {
                        Some(v) => {
                            if !self.g.course_group_satisfied(v, semester_set) {
                                let err = ExecError::GroupUnsatisfied(semester_set[pi].clone());
                                proof {
                                    assert(spec_post_check(gg, semv, drained, 0) == Err::<
                                        VState,
                                        VError,
                                    >(VError::GroupUnsatisfied(semv[pi as int])));
                                    assert(spec_rounds(gg, semv, rst) == Err::<VState, VError>(
                                        VError::GroupUnsatisfied(semv[pi as int]),
                                    ));
                                    assert(spec_semesters(gg, semsv, st_sem0, si as int) == Err::<
                                        (),
                                        VError,
                                    >(VError::GroupUnsatisfied(semv[pi as int])));
                                }
                                return Err(error_message(&err));
                            } else if self.state.indegree[v] > 0 {
                                let deficit = self.state.indegree[v];
                                let err = ExecError::UnfulfilledRequirement(
                                    semester_set[pi].clone(),
                                    deficit,
                                );
                                proof {
                                    assert(spec_post_check(gg, semv, drained, 0) == Err::<
                                        VState,
                                        VError,
                                    >(VError::UnfulfilledRequirement(semv[pi as int], deficit)));
                                    assert(spec_rounds(gg, semv, rst) == Err::<VState, VError>(
                                        VError::UnfulfilledRequirement(semv[pi as int], deficit),
                                    ));
                                    assert(spec_semesters(gg, semsv, st_sem0, si as int) == Err::<
                                        (),
                                        VError,
                                    >(VError::UnfulfilledRequirement(semv[pi as int], deficit)));
                                }
                                return Err(error_message(&err));
                            } else if !self.state.fulfilled[v] {
                                let ghost prefulf = self.state.fulfilled@;
                                q.push_back((v, NodeState::Neither));
                                self.state.fulfilled[v] = true;
                                proof {
                                    lemma_count_false_update(prefulf, v as int);
                                }
                            }
                        },
                        None => {},
                    }
                    pi = pi + 1;
                }
                let ghost st2 = self.cur_state(q@);
                proof {
                    lemma_post_check_props(gg, semv, drained, 0);
                }
                if q.len() == 0 {
                    done = true;
                } else {
                    proof {
                        lemma_rounds_step_bridge(gg, semv, rst, st2);
                    }
                }
            }
            proof {
                assert(spec_semesters(gg, semsv, st_sem0, si as int) == spec_semesters(
                    gg,
                    semsv,
                    self.cur_state(q@),
                    si + 1,
                ));
            }
            si = si + 1;
        }
        Ok(())
    }

    /// The seminar pre-filter, proved against [`spec_seminar_filter`].
    fn validate_and_remove_seminar_requirement(&mut self, taken_courses: &Vec<Vec<String>>) -> (r:
        Result<Vec<Vec<String>>, String>)
        ensures
            *final(self) == *old(self),
            (match spec_seminar_filter(taken_courses.deep_view(), 0) {
                Ok(stripped) => r matches Ok(v) && v.deep_view() == stripped,
                Err(e) => r matches Err(m) && m@ == spec_error_message(e),
            }),
    {
        let ghost tcdv = taken_courses.deep_view();
        let mut ret: Vec<Vec<String>> = Vec::new();
        let mut i: usize = 0;
        while i < taken_courses.len()
            invariant
                i <= taken_courses@.len(),
                tcdv == taken_courses.deep_view(),
                (match spec_seminar_filter(tcdv, i as int) {
                    Ok(rest) => spec_seminar_filter(tcdv, 0) == Ok::<Seq<Seq<Seq<char>>>, VError>(
                        ret.deep_view() + rest,
                    ),
                    Err(e) => spec_seminar_filter(tcdv, 0) == Err::<Seq<Seq<Seq<char>>>, VError>(e),
                }),
            decreases taken_courses@.len() - i,
        {
            let set = &taken_courses[i];
            proof {
                assert(tcdv[i as int] == set.deep_view());
            }
            let has_u = set_has_univ(set);
            let has_p = set_has_partner(set);
            if has_u != has_p {
                let err = ExecError::SeminarUnsatisfied;
                return Err(error_message(&err));
            }
            let ghost pre = ret.deep_view();
            let stripped = strip_set(set);
            ret.push(stripped);
            proof {
                assert(ret.deep_view() =~= pre.push(tcdv[i as int].filter(keep_in_semester())));
                if spec_seminar_filter(tcdv, i + 1) is Ok {
                    let rest = spec_seminar_filter(tcdv, i + 1)->Ok_0;
                    assert(pre.push(tcdv[i as int].filter(keep_in_semester())) + rest =~= pre + (
                    seq![tcdv[i as int].filter(keep_in_semester())] + rest));
                }
            }
            i = i + 1;
        }
        proof {
            if spec_seminar_filter(tcdv, taken_courses@.len() as int) is Ok {
                let rest = spec_seminar_filter(tcdv, taken_courses@.len() as int)->Ok_0;
                assert(ret.deep_view() + rest =~= ret.deep_view());
            }
        }
        Ok(ret)
    }

    /// The whole request: the seminar pre-filter, then the two-phase
    /// validation. The result is exactly what [`spec_process`] decides, with
    /// the stable message for each error.
    pub fn process(&mut self, taken_courses: Vec<Vec<String>>, bypasses: Vec<String>) -> (r: Result<
        (),
        String,
    >)
        requires
            old(self).fresh(),
        ensures
            (match spec_process(*old(self).g, taken_courses.deep_view(), bypasses.deep_view()) {
                Ok(()) => r is Ok,
                Err(e) => r matches Err(m) && m@ == spec_error_message(e),
            }),
    {
        let course_sets = match self.validate_and_remove_seminar_requirement(&taken_courses) {
            Ok(cs) => cs,
            Err(m) => {
                return Err(m);
            },
        };
        self.validate_degree(&course_sets, &bypasses)
    }
}

} // verus!
