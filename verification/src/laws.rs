//! Laws of the validator that relate whole calls, stated over the same spec
//! functions that the executable functions are proved against.

use vstd::prelude::*;

use crate::graph::spec_find_course;
use crate::graph::spec_group_satisfied;
use crate::graph::spec_group_size;
use crate::graph::CourseGraph;
use crate::graph::EdgeType;
use crate::pgraph::drop_source;
use crate::pgraph::edge_from;
use crate::pgraph::edge_into;
use crate::pgraph::graph_edge_list;
use crate::pgraph::in_degree_of;
use crate::pgraph::out_edge_list;
use crate::pipeline::count_false;
use crate::pipeline::spec_course_edges;
use crate::pipeline::spec_drain;
use crate::pipeline::spec_req_edges;
use crate::pipeline::spec_step;
use crate::pipeline::NodeState;
use crate::pipeline::spec_course_edge;
use crate::pipeline::spec_dec;
use crate::pipeline::spec_fire;
use crate::pipeline::spec_req_edge;
use crate::pipeline::spec_rounds_fuel;
use crate::pipeline::st_wf;
use crate::pipeline::keep_in_semester;
use crate::pipeline::spec_bypass_init;
use crate::pipeline::spec_has_partner;
use crate::pipeline::spec_has_univ;
use crate::pipeline::spec_initial_state;
use crate::pipeline::spec_post_check;
use crate::pipeline::spec_process;
use crate::pipeline::spec_rounds;
use crate::pipeline::spec_semester_init;
use crate::pipeline::spec_seminar_filter;
use crate::pipeline::spec_semesters;
use crate::pipeline::spec_validate_degree;
use crate::pipeline::VError;
use crate::pipeline::VState;

verus! {

/// Law: the validation outcome is a function of the graph and the request
/// alone. The graph is shared read-only, and the verified entry point's
/// contract pins its result to `spec_process`, so running the same request
/// twice against the same graph gives identical results.
pub proof fn lemma_validate_deterministic(
    g: CourseGraph,
    sems: Seq<Seq<Seq<char>>>,
    bypasses: Seq<Seq<char>>,
    r1: Result<(), VError>,
    r2: Result<(), VError>,
)
    requires
        r1 == spec_process(g, sems, bypasses),
        r2 == spec_process(g, sems, bypasses),
    ensures
        r1 == r2,
{
}

/// Law: a plan of one empty semester with no bypasses validates on every
/// well-formed graph.
pub proof fn lemma_empty_plan_ok(g: CourseGraph)
    requires
        g.wf(),
    ensures
        spec_process(g, seq![Seq::<Seq<char>>::empty()], Seq::<Seq<char>>::empty()) == Ok::<
            (),
            VError,
        >(()),
{
    let empty_sem = Seq::<Seq<char>>::empty();
    let sems = seq![empty_sem];
    let none = Seq::<Seq<char>>::empty();
    assert(!spec_has_univ(sems[0]));
    assert(!spec_has_partner(sems[0]));
    assert(sems[0].filter(keep_in_semester()) =~= empty_sem) by {
        reveal(Seq::filter);
    }
    assert(spec_seminar_filter(sems, 1) == Ok::<Seq<Seq<Seq<char>>>, VError>(
        Seq::<Seq<Seq<char>>>::empty(),
    ));
    let stripped = seq![empty_sem] + Seq::<Seq<Seq<char>>>::empty();
    assert(spec_seminar_filter(sems, 0) == Ok::<Seq<Seq<Seq<char>>>, VError>(stripped));
    assert(stripped =~= sems);
    let init = spec_initial_state(g);
    assert(spec_bypass_init(g, none, init, 0) == Ok::<VState, VError>(init));
    assert(spec_drain(g, none, init) == init);
    assert(spec_semester_init(g, empty_sem, init, 0) == Ok::<VState, VError>(init));
    assert(spec_drain(g, empty_sem, init) == init);
    assert(spec_post_check(g, empty_sem, init, 0) == Ok::<VState, VError>(init));
    assert(spec_rounds(g, empty_sem, init) == Ok::<VState, VError>(init));
    assert(spec_semesters(g, stripped, init, 1) == Ok::<(), VError>(()));
    assert(spec_semesters(g, stripped, init, 0) == Ok::<(), VError>(()));
    assert(spec_validate_degree(g, stripped, none) == Ok::<(), VError>(()));
}

/// Opening reachability from known course names always succeeds and leaves a
/// well-formed state.
pub proof fn lemma_bypass_init_ok(g: CourseGraph, names: Seq<Seq<char>>, st: VState, i: int)
    requires
        g.wf(),
        st_wf(g, st),
        0 <= i,
        forall|j: int|
            0 <= j < names.len() ==> spec_find_course(g.nodes@, #[trigger] names[j]) is Some,
    ensures
        spec_bypass_init(g, names, st, i) matches Ok(st2) && st_wf(g, st2),
    decreases names.len() - i,
{
    if i < names.len() {
        crate::graph::lemma_find_course_some(g.nodes@, names[i]);
        let v = spec_find_course(g.nodes@, names[i])->0;
        let st2 = VState {
            indegree: st.indegree.update(v as int, 0usize),
            fulfilled: st.fulfilled.update(v as int, true),
            queue: st.queue.push((v, NodeState::Neither)),
        };
        assert(st_wf(g, st2));
        lemma_bypass_init_ok(g, names, st2, i + 1);
    }
}

/// Law: with an empty plan, any set of known bypasses validates — so there,
/// adding one more valid bypass to a validating request keeps it validating.
/// This is the one part of bypass monotonicity stated here; the general form,
/// over arbitrary plans, is not proved.
pub proof fn lemma_bypasses_keep_empty_plan_ok(g: CourseGraph, bypasses: Seq<Seq<char>>)
    requires
        g.wf(),
        forall|j: int|
            0 <= j < bypasses.len() ==> spec_find_course(g.nodes@, #[trigger] bypasses[j]) is Some,
    ensures
        spec_validate_degree(g, seq![Seq::<Seq<char>>::empty()], bypasses) == Ok::<(), VError>(()),
{
    let empty_sem = Seq::<Seq<char>>::empty();
    let init = spec_initial_state(g);
    crate::pipeline::lemma_initial_state_wf(g);
    lemma_bypass_init_ok(g, bypasses, init, 0);
    let st = spec_bypass_init(g, bypasses, init, 0)->Ok_0;
    crate::pipeline::lemma_drain_fuel(g, bypasses, st, crate::pipeline::spec_measure(st));
    let d = spec_drain(g, bypasses, st);
    assert(d.queue.len() == 0);
    assert(spec_semester_init(g, empty_sem, d, 0) == Ok::<VState, VError>(d));
    assert(spec_drain(g, empty_sem, d) == d);
    assert(spec_post_check(g, empty_sem, d, 0) == Ok::<VState, VError>(d));
    assert(spec_rounds(g, empty_sem, d) == Ok::<VState, VError>(d));
    assert(spec_semesters(g, seq![empty_sem], d, 1) == Ok::<(), VError>(()));
    assert(spec_semesters(g, seq![empty_sem], d, 0) == Ok::<(), VError>(()));
}

/// What `filter` returns on a two-element list.
pub proof fn lemma_filter_two<A>(s: Seq<A>, e0: A, e1: A, p: spec_fn(A) -> bool)
    requires
        s =~= seq![e0, e1],
    ensures
        p(e0) && p(e1) ==> s.filter(p) =~= seq![e0, e1],
        p(e0) && !p(e1) ==> s.filter(p) =~= seq![e0],
        !p(e0) && p(e1) ==> s.filter(p) =~= seq![e1],
        !p(e0) && !p(e1) ==> s.filter(p) =~= Seq::<A>::empty(),
{
    reveal(Seq::filter);
    assert(s.drop_last() =~= seq![e0]);
    assert(s.last() == e1);
    assert(seq![e0].drop_last() =~= Seq::<A>::empty());
    assert(seq![e0].last() == e0);
    assert(Seq::<A>::empty().filter(p) =~= Seq::<A>::empty());
    if p(e0) {
        assert(seq![e0].filter(p) =~= seq![e0]);
    } else {
        assert(seq![e0].filter(p) =~= Seq::<A>::empty());
    }
}

/// The shape shared by the permissiveness and order laws: three nodes, the
/// course at 0 feeding the one-of-one requirement at 2, which feeds the
/// course at 1 under `label`.
pub open spec fn minimal_pair_graph(g: CourseGraph, a: Seq<char>, b: Seq<char>, label: EdgeType) -> bool {
    &&& g.wf()
    &&& g.nodes@.len() == 3
    &&& g.nodes@[0] is CourseNode
    &&& g.nodes@[1] is CourseNode
    &&& g.nodes@[2] is RequirementNode
    &&& g.nodes@[2].spec_required() == 1
    &&& graph_edge_list(g.graph) =~= seq![
        (0usize, 2usize, EdgeType::SUBREQUIREMENT),
        (2usize, 1usize, label),
    ]
    &&& g.nodes@[0].spec_name() == a
    &&& g.nodes@[1].spec_name() == b
    &&& a != b
    &&& g.nodes@[0].spec_key() != g.nodes@[1].spec_key()
}

/// The degrees and adjacency of the minimal pair graph, evaluated.
pub proof fn lemma_minimal_pair_facts(g: CourseGraph, a: Seq<char>, b: Seq<char>, label: EdgeType)
    requires
        minimal_pair_graph(g, a, b, label),
        label != EdgeType::SUBREQUIREMENT,
    ensures
        in_degree_of(g.graph, 0) == 0,
        in_degree_of(g.graph, 1) == 1,
        in_degree_of(g.graph, 2) == 1,
        out_edge_list(g.graph, 0) =~= seq![(2usize, EdgeType::SUBREQUIREMENT)],
        out_edge_list(g.graph, 1) =~= Seq::<(usize, EdgeType)>::empty(),
        out_edge_list(g.graph, 2) =~= seq![(1usize, label)],
        spec_find_course(g.nodes@, a) == Some(0usize),
        spec_find_course(g.nodes@, b) == Some(1usize),
        forall|set: Seq<Seq<char>>| #[trigger] spec_group_satisfied(g.nodes@, 0, set),
        forall|set: Seq<Seq<char>>| #[trigger] spec_group_satisfied(g.nodes@, 1, set),
{
    let es = graph_edge_list(g.graph);
    let e0 = (0usize, 2usize, EdgeType::SUBREQUIREMENT);
    let e1 = (2usize, 1usize, label);
    lemma_filter_two(es, e0, e1, edge_into(0));
    lemma_filter_two(es, e0, e1, edge_into(1));
    lemma_filter_two(es, e0, e1, edge_into(2));
    lemma_filter_two(es, e0, e1, edge_from(0));
    lemma_filter_two(es, e0, e1, edge_from(1));
    lemma_filter_two(es, e0, e1, edge_from(2));
    assert(seq![e0].map_values(drop_source()) =~= seq![(2usize, EdgeType::SUBREQUIREMENT)]);
    assert(seq![e1].map_values(drop_source()) =~= seq![(1usize, label)]);
    assert(Seq::<(usize, usize, EdgeType)>::empty().map_values(drop_source()) =~= Seq::<
        (usize, EdgeType),
    >::empty());
    assert(seq![(2usize, EdgeType::SUBREQUIREMENT)].reverse() =~= seq![
        (2usize, EdgeType::SUBREQUIREMENT),
    ]);
    assert(seq![(1usize, label)].reverse() =~= seq![(1usize, label)]);
    assert(Seq::<(usize, EdgeType)>::empty().reverse() =~= Seq::<(usize, EdgeType)>::empty());
    assert(g.nodes@.drop_last() =~= seq![g.nodes@[0], g.nodes@[1]]);
    assert(g.nodes@.drop_last().drop_last() =~= seq![g.nodes@[0]]);
    assert(seq![g.nodes@[0]].drop_last() =~= Seq::<crate::graph::NodeInfo>::empty());
    assert(g.nodes@.drop_last().drop_last().drop_last() =~= Seq::<
        crate::graph::NodeInfo,
    >::empty());
    assert(spec_find_course(g.nodes@, a) == spec_find_course(g.nodes@.drop_last(), a));
    assert(spec_find_course(g.nodes@.drop_last(), a) == spec_find_course(
        g.nodes@.drop_last().drop_last(),
        a,
    ));
    assert(spec_find_course(g.nodes@.drop_last().drop_last(), a) == Some(0usize));
    assert(spec_find_course(g.nodes@, b) == spec_find_course(g.nodes@.drop_last(), b));
    assert(spec_find_course(g.nodes@.drop_last(), b) == Some(1usize));
    let key0 = g.nodes@[0].spec_key();
    let key1 = g.nodes@[1].spec_key();
    assert(spec_group_size(g.nodes@, key0) == spec_group_size(g.nodes@.drop_last(), key0));
    assert(spec_group_size(g.nodes@.drop_last(), key0) == spec_group_size(
        g.nodes@.drop_last().drop_last(),
        key0,
    ));
    assert(spec_group_size(g.nodes@.drop_last().drop_last().drop_last(), key0) == 0);
    assert(spec_group_size(g.nodes@.drop_last().drop_last(), key0) == 1);
    assert(spec_group_size(g.nodes@, key1) == spec_group_size(g.nodes@.drop_last(), key1));
    assert(spec_group_size(g.nodes@.drop_last(), key1) == 1 + spec_group_size(
        g.nodes@.drop_last().drop_last(),
        key1,
    ));
    assert(spec_group_size(g.nodes@.drop_last().drop_last().drop_last(), key1) == 0);
    assert(spec_group_size(g.nodes@.drop_last().drop_last(), key1) == 0);
    assert forall|set: Seq<Seq<char>>| #[trigger] spec_group_satisfied(g.nodes@, 0, set) by {
        assert(spec_group_size(g.nodes@, g.nodes@[0].spec_key()) == 1);
    }
    assert forall|set: Seq<Seq<char>>| #[trigger] spec_group_satisfied(g.nodes@, 1, set) by {
        assert(spec_group_size(g.nodes@, g.nodes@[1].spec_key()) == 1);
    }
}

/// Law: corequisite permissiveness. When the only requirement of `b` is a
/// one-of-one corequisite on `a`, scheduling both in the same semester
/// validates.
pub proof fn lemma_corequisite_same_semester(g: CourseGraph, a: Seq<char>, b: Seq<char>)
    requires
        minimal_pair_graph(g, a, b, EdgeType::COREQUISITE),
    ensures
        spec_validate_degree(g, seq![seq![a, b]], Seq::<Seq<char>>::empty()) == Ok::<(), VError>(
            (),
        ),
{
    let label = EdgeType::COREQUISITE;
    lemma_minimal_pair_facts(g, a, b, label);
    let s = seq![a, b];
    let none = Seq::<Seq<char>>::empty();
    let init = spec_initial_state(g);
    let s0 = VState {
        indegree: seq![0usize, 1usize, 1usize],
        fulfilled: seq![false, false, false],
        queue: Seq::<(usize, NodeState)>::empty(),
    };
    assert(init.indegree =~= s0.indegree);
    assert(init.fulfilled =~= s0.fulfilled);
    assert(init.queue =~= s0.queue);
    assert(init == s0);
    assert(spec_bypass_init(g, none, s0, 0) == Ok::<VState, VError>(s0));
    assert(spec_drain(g, none, s0) == s0);
    // scheduling: a fires at once, b still owes its gate
    let s1 = VState {
        indegree: seq![0usize, 1usize, 1usize],
        fulfilled: seq![true, false, false],
        queue: seq![(0usize, NodeState::Neither)],
    };
    assert(spec_semester_init(g, s, s0, 0) == spec_semester_init(
        g,
        s,
        VState {
            fulfilled: s0.fulfilled.update(0, true),
            queue: s0.queue.push((0usize, NodeState::Neither)),
            ..s0
        },
        1,
    ));
    assert(s0.fulfilled.update(0, true) =~= s1.fulfilled);
    assert(s0.queue.push((0usize, NodeState::Neither)) =~= s1.queue);
    assert(spec_semester_init(g, s, s1, 1) == spec_semester_init(g, s, s1, 2));
    assert(spec_semester_init(g, s, s1, 2) == Ok::<VState, VError>(s1));
    assert(spec_semester_init(g, s, s0, 0) == Ok::<VState, VError>(s1));
    // draining: the requirement fires, leaving the second course with
    // nothing still owed
    assert(st_wf(g, s1));
    let s1q = VState { queue: s1.queue.drop_first(), ..s1 };
    let outs0 = out_edge_list(g.graph, 0);
    let s2 = VState {
        indegree: seq![0usize, 1usize, 0usize],
        fulfilled: seq![true, false, true],
        queue: seq![(2usize, NodeState::Prerequisite)],
    };
    assert(spec_course_edges(g, s1q, outs0, 0) == spec_course_edges(
        g,
        spec_course_edge(g, s1q, outs0[0]),
        outs0,
        1,
    ));
    assert(spec_course_edge(g, s1q, outs0[0]) == s2) by {
        let d = spec_dec(s1q, 2);
        assert(d.indegree =~= s2.indegree);
        assert(g.spec_requirement_satisfied(2, 0));
        assert(spec_fire(d, 2, NodeState::Prerequisite).indegree =~= s2.indegree);
        assert(spec_fire(d, 2, NodeState::Prerequisite).fulfilled =~= s2.fulfilled);
        assert(spec_fire(d, 2, NodeState::Prerequisite).queue =~= s2.queue);
    }
    assert(spec_course_edges(g, s2, outs0, 1) == s2);
    assert(spec_step(g, s, s1) == s2);
    assert(st_wf(g, s2));
    crate::pipeline::lemma_drain_step_bridge(g, s, s1);
    let s2q = VState { queue: s2.queue.drop_first(), ..s2 };
    let outs2 = out_edge_list(g.graph, 2);
    let s3 = VState {
        indegree: seq![0usize, 0usize, 0usize],
        fulfilled: seq![true, false, true],
        queue: Seq::<(usize, NodeState)>::empty(),
    };
    assert(spec_req_edges(g, s, NodeState::Prerequisite, s2q, outs2, 0) == spec_req_edges(
        g,
        s,
        NodeState::Prerequisite,
        spec_req_edge(g, s, NodeState::Prerequisite, s2q, outs2[0]),
        outs2,
        1,
    ));
    assert(spec_req_edge(g, s, NodeState::Prerequisite, s2q, outs2[0]) == s3) by {
        let d = spec_dec(s2q, 1);
        assert(d.indegree =~= s3.indegree);
        assert(d.fulfilled =~= s3.fulfilled);
        assert(d.queue =~= s3.queue);
    }
    assert(spec_req_edges(g, s, NodeState::Prerequisite, s3, outs2, 1) == s3);
    assert(spec_step(g, s, s2) == s3);
    assert(st_wf(g, s3));
    crate::pipeline::lemma_drain_step_bridge(g, s, s2);
    assert(spec_drain(g, s, s3) == s3);
    assert(spec_drain(g, s, s1) == s3);
    // the post-check accepts a and fires b, whose own round then closes
    let s4 = VState {
        indegree: seq![0usize, 0usize, 0usize],
        fulfilled: seq![true, true, true],
        queue: seq![(1usize, NodeState::Neither)],
    };
    assert(spec_post_check(g, s, s3, 0) == spec_post_check(g, s, s3, 1));
    assert(spec_post_check(g, s, s3, 1) == spec_post_check(
        g,
        s,
        VState {
            fulfilled: s3.fulfilled.update(1, true),
            queue: s3.queue.push((1usize, NodeState::Neither)),
            ..s3
        },
        2,
    ));
    assert(s3.fulfilled.update(1, true) =~= s4.fulfilled);
    assert(s3.queue.push((1usize, NodeState::Neither)) =~= s4.queue);
    assert(spec_post_check(g, s, s4, 2) == Ok::<VState, VError>(s4));
    assert(spec_post_check(g, s, s3, 0) == Ok::<VState, VError>(s4));
    assert(count_false(s1.fulfilled) == 2) by {
        assert(s1.fulfilled.drop_last() =~= seq![true, false]);
        assert(seq![true, false].drop_last() =~= seq![true]);
        assert(seq![true].drop_last() =~= Seq::<bool>::empty());
        assert(count_false(Seq::<bool>::empty()) == 0);
        assert(count_false(seq![true]) == 0);
        assert(count_false(seq![true, false]) == 1);
    }
    let s5 = VState { queue: Seq::<(usize, NodeState)>::empty(), ..s4 };
    assert(st_wf(g, s4));
    let s4q = VState { queue: s4.queue.drop_first(), ..s4 };
    let outs1 = out_edge_list(g.graph, 1);
    assert(spec_course_edges(g, s4q, outs1, 0) == s4q);
    assert(spec_step(g, s, s4) == s4q);
    assert(s4q.queue =~= s5.queue);
    assert(s4q == s5);
    crate::pipeline::lemma_drain_step_bridge(g, s, s4);
    assert(spec_drain(g, s, s5) == s5);
    assert(spec_drain(g, s, s4) == s5);
    assert(spec_post_check(g, s, s5, 0) == spec_post_check(g, s, s5, 1));
    assert(spec_post_check(g, s, s5, 1) == spec_post_check(g, s, s5, 2));
    assert(spec_post_check(g, s, s5, 2) == Ok::<VState, VError>(s5));
    assert(spec_rounds_fuel(g, s, s4, 1) == Ok::<VState, VError>(s5));
    assert(spec_rounds_fuel(g, s, s1, 2) == Ok::<VState, VError>(s5));
    assert(spec_rounds(g, s, s1) == Ok::<VState, VError>(s5));
    // and nothing follows the single semester
    assert(spec_semesters(g, seq![s], s5, 1) == Ok::<(), VError>(()));
    assert(spec_semesters(g, seq![s], s0, 0) == Ok::<(), VError>(()));
    assert(spec_validate_degree(g, seq![s], none) == Ok::<(), VError>(()));
}

/// Law: order sensitivity. When `a` is a one-of-one prerequisite of `b`,
/// taking `a` strictly before `b` validates, while taking `b` first fails
/// with one requirement owed.
pub proof fn lemma_prerequisite_order(g: CourseGraph, a: Seq<char>, b: Seq<char>)
    requires
        minimal_pair_graph(g, a, b, EdgeType::PREREQUISITE),
    ensures
        spec_validate_degree(g, seq![seq![a], seq![b]], Seq::<Seq<char>>::empty()) == Ok::<
            (),
            VError,
        >(()),
        spec_validate_degree(g, seq![seq![b], seq![a]], Seq::<Seq<char>>::empty()) == Err::<
            (),
            VError,
        >(VError::UnfulfilledRequirement(b, 1)),
{
    let label = EdgeType::PREREQUISITE;
    lemma_minimal_pair_facts(g, a, b, label);
    let s_a = seq![a];
    let s_b = seq![b];
    let none = Seq::<Seq<char>>::empty();
    let init = spec_initial_state(g);
    let s0 = VState {
        indegree: seq![0usize, 1usize, 1usize],
        fulfilled: seq![false, false, false],
        queue: Seq::<(usize, NodeState)>::empty(),
    };
    assert(init.indegree =~= s0.indegree);
    assert(init.fulfilled =~= s0.fulfilled);
    assert(init.queue =~= s0.queue);
    assert(init == s0);
    assert(spec_bypass_init(g, none, s0, 0) == Ok::<VState, VError>(s0));
    assert(spec_drain(g, none, s0) == s0);
    // taking the prerequisite first: the requirement fires in semester one
    let s1 = VState {
        indegree: seq![0usize, 1usize, 1usize],
        fulfilled: seq![true, false, false],
        queue: seq![(0usize, NodeState::Neither)],
    };
    assert(spec_semester_init(g, s_a, s0, 0) == spec_semester_init(
        g,
        s_a,
        VState {
            fulfilled: s0.fulfilled.update(0, true),
            queue: s0.queue.push((0usize, NodeState::Neither)),
            ..s0
        },
        1,
    ));
    assert(s0.fulfilled.update(0, true) =~= s1.fulfilled);
    assert(s0.queue.push((0usize, NodeState::Neither)) =~= s1.queue);
    assert(spec_semester_init(g, s_a, s1, 1) == Ok::<VState, VError>(s1));
    assert(st_wf(g, s1));
    let s1q = VState { queue: s1.queue.drop_first(), ..s1 };
    let outs0 = out_edge_list(g.graph, 0);
    let s2 = VState {
        indegree: seq![0usize, 1usize, 0usize],
        fulfilled: seq![true, false, true],
        queue: seq![(2usize, NodeState::Prerequisite)],
    };
    assert(spec_course_edges(g, s1q, outs0, 0) == spec_course_edges(
        g,
        spec_course_edge(g, s1q, outs0[0]),
        outs0,
        1,
    ));
    assert(spec_course_edge(g, s1q, outs0[0]) == s2) by {
        let d = spec_dec(s1q, 2);
        assert(d.indegree =~= s2.indegree);
        assert(g.spec_requirement_satisfied(2, 0));
        assert(spec_fire(d, 2, NodeState::Prerequisite).indegree =~= s2.indegree);
        assert(spec_fire(d, 2, NodeState::Prerequisite).fulfilled =~= s2.fulfilled);
        assert(spec_fire(d, 2, NodeState::Prerequisite).queue =~= s2.queue);
    }
    assert(spec_course_edges(g, s2, outs0, 1) == s2);
    assert(spec_step(g, s_a, s1) == s2);
    assert(st_wf(g, s2));
    crate::pipeline::lemma_drain_step_bridge(g, s_a, s1);
    let s2q = VState { queue: s2.queue.drop_first(), ..s2 };
    let outs2 = out_edge_list(g.graph, 2);
    let s3 = VState {
        indegree: seq![0usize, 0usize, 0usize],
        fulfilled: seq![true, false, true],
        queue: Seq::<(usize, NodeState)>::empty(),
    };
    assert(spec_req_edges(g, s_a, NodeState::Prerequisite, s2q, outs2, 0) == spec_req_edges(
        g,
        s_a,
        NodeState::Prerequisite,
        spec_req_edge(g, s_a, NodeState::Prerequisite, s2q, outs2[0]),
        outs2,
        1,
    ));
    assert(spec_req_edge(g, s_a, NodeState::Prerequisite, s2q, outs2[0]) == s3) by {
        let d = spec_dec(s2q, 1);
        assert(d.indegree =~= s3.indegree);
        assert(d.fulfilled =~= s3.fulfilled);
        assert(d.queue =~= s3.queue);
    }
    assert(spec_req_edges(g, s_a, NodeState::Prerequisite, s3, outs2, 1) == s3);
    assert(spec_step(g, s_a, s2) == s3);
    assert(st_wf(g, s3));
    crate::pipeline::lemma_drain_step_bridge(g, s_a, s2);
    assert(spec_drain(g, s_a, s3) == s3);
    assert(spec_drain(g, s_a, s1) == s3);
    assert(spec_post_check(g, s_a, s3, 0) == spec_post_check(g, s_a, s3, 1));
    assert(spec_post_check(g, s_a, s3, 1) == Ok::<VState, VError>(s3));
    assert(count_false(s1.fulfilled) == 2) by {
        assert(s1.fulfilled.drop_last() =~= seq![true, false]);
        assert(seq![true, false].drop_last() =~= seq![true]);
        assert(seq![true].drop_last() =~= Seq::<bool>::empty());
        assert(count_false(Seq::<bool>::empty()) == 0);
        assert(count_false(seq![true]) == 0);
        assert(count_false(seq![true, false]) == 1);
    }
    assert(spec_rounds_fuel(g, s_a, s1, 2) == Ok::<VState, VError>(s3));
    assert(spec_rounds(g, s_a, s1) == Ok::<VState, VError>(s3));
    // the second semester then takes b at once
    let s6 = VState {
        indegree: seq![0usize, 0usize, 0usize],
        fulfilled: seq![true, true, true],
        queue: seq![(1usize, NodeState::Neither)],
    };
    assert(spec_semester_init(g, s_b, s3, 0) == spec_semester_init(
        g,
        s_b,
        VState {
            fulfilled: s3.fulfilled.update(1, true),
            queue: s3.queue.push((1usize, NodeState::Neither)),
            ..s3
        },
        1,
    ));
    assert(s3.fulfilled.update(1, true) =~= s6.fulfilled);
    assert(s3.queue.push((1usize, NodeState::Neither)) =~= s6.queue);
    assert(spec_semester_init(g, s_b, s6, 1) == Ok::<VState, VError>(s6));
    assert(st_wf(g, s6));
    let s6q = VState { queue: s6.queue.drop_first(), ..s6 };
    let outs1 = out_edge_list(g.graph, 1);
    let s7 = VState { queue: Seq::<(usize, NodeState)>::empty(), ..s6 };
    assert(spec_course_edges(g, s6q, outs1, 0) == s6q);
    assert(spec_step(g, s_b, s6) == s6q);
    assert(s6q.queue =~= s7.queue);
    assert(s6q == s7);
    crate::pipeline::lemma_drain_step_bridge(g, s_b, s6);
    assert(spec_drain(g, s_b, s7) == s7);
    assert(spec_drain(g, s_b, s6) == s7);
    assert(spec_post_check(g, s_b, s7, 0) == spec_post_check(g, s_b, s7, 1));
    assert(spec_post_check(g, s_b, s7, 1) == Ok::<VState, VError>(s7));
    assert(spec_rounds_fuel(g, s_b, s6, count_false(s6.fulfilled)) == Ok::<VState, VError>(s7));
    assert(spec_rounds(g, s_b, s6) == Ok::<VState, VError>(s7));
    assert(spec_semesters(g, seq![s_a, s_b], s7, 2) == Ok::<(), VError>(()));
    assert(spec_semesters(g, seq![s_a, s_b], s3, 1) == Ok::<(), VError>(()));
    assert(spec_semesters(g, seq![s_a, s_b], s0, 0) == Ok::<(), VError>(()));
    assert(spec_validate_degree(g, seq![s_a, s_b], none) == Ok::<(), VError>(()));
    // taking b first: nothing can be scheduled and the post-check reports
    // the one edge still owed
    assert(spec_semester_init(g, s_b, s0, 0) == spec_semester_init(g, s_b, s0, 1));
    assert(spec_semester_init(g, s_b, s0, 1) == Ok::<VState, VError>(s0));
    assert(spec_drain(g, s_b, s0) == s0);
    assert(spec_post_check(g, s_b, s0, 0) == Err::<VState, VError>(
        VError::UnfulfilledRequirement(b, 1),
    ));
    assert(spec_rounds_fuel(g, s_b, s0, count_false(s0.fulfilled)) == Err::<VState, VError>(
        VError::UnfulfilledRequirement(b, 1),
    ));
    assert(spec_rounds(g, s_b, s0) == Err::<VState, VError>(VError::UnfulfilledRequirement(b, 1)));
    assert(spec_semesters(g, seq![s_b, s_a], s0, 0) == Err::<(), VError>(
        VError::UnfulfilledRequirement(b, 1),
    ));
    assert(spec_validate_degree(g, seq![s_b, s_a], none) == Err::<(), VError>(
        VError::UnfulfilledRequirement(b, 1),
    ));
}

} // verus!
