//! The course graph: a bipartite directed graph over course nodes and
//! requirement nodes. An edge `u -> v` means "when `u` is satisfied it
//! contributes one unit toward `v`'s satisfaction".

use vstd::prelude::*;
use vstd::string::StringExecFns;

use crate::course::spec_course_key;
use crate::course::Course;
use crate::nebula::NebulaCourse;
use crate::nebula::RequirementCollection;
use crate::nebula::RequirementCollectionType;
use crate::pgraph::graph_edge_list;
use crate::pgraph::graph_node_count;
use crate::pgraph::in_degree_of;
use crate::pgraph::lemma_in_degree_of_absent;
use crate::pgraph::lemma_in_degree_of_push;
use crate::pgraph::out_edge_list;
use crate::pgraph::pg_add_edge;
use crate::pgraph::pg_add_node;
use crate::pgraph::pg_in_degree;
use crate::pgraph::pg_new;
use crate::pgraph::pg_node_count;
use crate::pgraph::pg_out_edges;
use crate::pgraph::lemma_out_edge_entry;
use crate::reach::acyclic;
use crate::reach::feeds;
use crate::reach::feeds_n;
use crate::reach::has_edge;
use crate::reach::lemma_feeds_frozen;
use crate::reach::lemma_feeds_into_leaf;
use crate::reach::lemma_feeds_n_mono;
use crate::reach::lemma_feeds_push;
use crate::reach::lemma_no_out_no_feeds;
use crate::reach::sub_edge;
use crate::reach::lemma_acyclic_push;
use crate::reach::lemma_closed;
use crate::reach::lemma_no_out_no_reach;
use crate::reach::lemma_reaches_refl;
use crate::reach::lemma_reaches_step;
use crate::reach::lemma_reaches_trans;
use crate::reach::reaches;
use crate::reach::reaches_n;
use crate::pipeline::count_false;
use crate::pipeline::lemma_count_false_update;
use crate::requirement::Requirement;

verus! {

#[derive(Clone, Copy, PartialEq, Eq, Structural, Debug)]
pub enum EdgeType {
    PREREQUISITE,
    COREQUISITE,
    SUBREQUIREMENT,
}

#[derive(Clone, Copy, PartialEq, Eq, Structural, Debug)]
pub enum VertexType {
    COURSE,
    REQUIREMENT,
}

/// What a graph node carries: a course, or a k-of-n requirement gate.
pub enum NodeInfo {
    CourseNode(Course),
    RequirementNode(Requirement),
}

impl NodeInfo {
    /// The name of the course a node carries; empty for requirement nodes.
    pub open spec fn spec_name(&self) -> Seq<char> {
        match self {
            NodeInfo::CourseNode(c) => c.spec_name(),
            NodeInfo::RequirementNode(_) => Seq::<char>::empty(),
        }
    }

    /// The group key of the course a node carries; empty for requirement nodes.
    pub open spec fn spec_key(&self) -> Seq<char> {
        match self {
            NodeInfo::CourseNode(c) => c.spec_key(),
            NodeInfo::RequirementNode(_) => Seq::<char>::empty(),
        }
    }

    /// How many children a requirement node asks for.
    pub open spec fn spec_required(&self) -> u32 {
        match self {
            NodeInfo::CourseNode(_) => 0,
            NodeInfo::RequirementNode(r) => r.required_child,
        }
    }
}

/// The index of the last course node carrying `name`, if any. The builder
/// lets a later course with the same name shadow an earlier one, as a map
/// keyed by name would.
pub open spec fn spec_find_course(nodes: Seq<NodeInfo>, name: Seq<char>) -> Option<usize>
    decreases nodes.len(),
{
    if nodes.len() == 0 {
        None
    } else if nodes.last() is CourseNode && nodes.last().spec_name() == name {
        Some((nodes.len() - 1) as usize)
    } else {
        spec_find_course(nodes.drop_last(), name)
    }
}

pub proof fn lemma_find_course_some(nodes: Seq<NodeInfo>, name: Seq<char>)
    requires
        nodes.len() <= usize::MAX as nat,
    ensures
        spec_find_course(nodes, name) matches Some(v) ==> (v as nat) < nodes.len()
            && nodes[v as int] is CourseNode && nodes[v as int].spec_name() == name,
    decreases nodes.len(),
{
    if nodes.len() > 0 {
        lemma_find_course_some(nodes.drop_last(), name);
        assert(forall|k: int|
            0 <= k < nodes.len() - 1 ==> #[trigger] nodes.drop_last()[k] == nodes[k]);
    }
}

/// How many course nodes carry the group key `key`.
pub open spec fn spec_group_size(nodes: Seq<NodeInfo>, key: Seq<char>) -> nat
    decreases nodes.len(),
{
    if nodes.len() == 0 {
        0
    } else {
        spec_group_size(nodes.drop_last(), key) + if nodes.last() is CourseNode
            && nodes.last().spec_key() == key {
            1nat
        } else {
            0nat
        }
    }
}

/// A course at `v` is covered by the set of names `set` when some other
/// member of its group is named there, or when it is its group's only member.
pub open spec fn spec_group_satisfied(nodes: Seq<NodeInfo>, v: int, set: Seq<Seq<char>>) -> bool {
    (exists|j: int|
        0 <= j < nodes.len() && j != v && (#[trigger] nodes[j]) is CourseNode && nodes[j].spec_key()
            == nodes[v].spec_key() && set.contains(nodes[j].spec_name())) || spec_group_size(
        nodes,
        nodes[v].spec_key(),
    ) == 1
}

/// A node as the builder's functional model sees it: the name parts of a
/// course, or a requirement gate.
pub enum NodeView {
    CourseView { prefix: Seq<char>, number: Seq<char> },
    ReqView { gate: u32 },
}

pub open spec fn node_view(n: NodeInfo) -> NodeView {
    match n {
        NodeInfo::CourseNode(c) => NodeView::CourseView {
            prefix: c.subject_prefix@,
            number: c.course_number@,
        },
        NodeInfo::RequirementNode(r) => NodeView::ReqView { gate: r.required_child },
    }
}

pub open spec fn nodes_view(ns: Seq<NodeInfo>) -> Seq<NodeView> {
    ns.map_values(|n: NodeInfo| node_view(n))
}

pub proof fn lemma_nodes_view_push(ns: Seq<NodeInfo>, x: NodeInfo)
    ensures
        nodes_view(ns.push(x)) =~= nodes_view(ns).push(node_view(x)),
{
}

pub open spec fn view_key(nv: NodeView) -> Seq<char> {
    match nv {
        NodeView::CourseView { prefix, number } => spec_course_key(prefix, number),
        NodeView::ReqView { .. } => Seq::<char>::empty(),
    }
}

/// The builder's state as its functional model sees it: the node views, the
/// edge list, and the course ids, all in insertion order.
pub struct BState {
    pub nodes: Seq<NodeView>,
    pub edges: Seq<(usize, usize, EdgeType)>,
    pub ids: Seq<u64>,
}

/// How a collection's raw required count is read: missing or negative means
/// zero, which always satisfies.
pub open spec fn spec_kraw(required: Option<i32>) -> nat {
    match required {
        Some(r) => if r >= 0 {
            r as nat
        } else {
            0
        },
        None => 0,
    }
}

/// The functional model of translating one requirement tree: the state after
/// the call, and the satisfier node the tree yields, if any. A collection
/// whose children yield nodes `cs` becomes one fresh requirement node gating
/// `min(required, |cs|)` of them, fed by exactly one subrequirement edge per
/// child; a known course reference outside the root group resolves to that
/// course's node with nothing added; everything else yields no node and adds
/// nothing.
pub open spec fn spec_parse(t: RequirementCollection, root_key: Seq<char>, st: BState) -> (
    BState,
    Option<usize>,
)
    decreases t, 1int,
{
    if t.spec_requirement_type() == Some(RequirementCollectionType::COLLECTION) {
        match t.options {
            None => (st, None),
            Some(v) => {
                let stcs = spec_parse_list(v@, 0, root_key, st);
                let st1 = stcs.0;
                let cs = stcs.1;
                if cs.len() == 0 {
                    (st1, None)
                } else {
                    let k: nat = if spec_kraw(t.required) < cs.len() {
                        spec_kraw(t.required)
                    } else {
                        cs.len()
                    };
                    let idx = st1.nodes.len() as usize;
                    let st2 = BState {
                        nodes: st1.nodes.push(NodeView::ReqView { gate: k as u32 }),
                        ..st1
                    };
                    (spec_push_child_edges(st2, cs, idx, 0), Some(idx))
                }
            },
        }
    } else if t.spec_requirement_type() == Some(RequirementCollectionType::COURSE) {
        match t.class_reference {
            Some(id) => match spec_find_id(st.ids, id) {
                Some(ci) => if view_key(st.nodes[ci as int]) == root_key {
                    (st, None)
                } else {
                    (st, Some(ci))
                },
                None => (st, None),
            },
            None => (st, None),
        }
    } else {
        (st, None)
    }
}

/// Translating the trees `ts[i..]` in order, collecting the satisfier nodes.
pub open spec fn spec_parse_list(
    ts: Seq<RequirementCollection>,
    i: int,
    root_key: Seq<char>,
    st: BState,
) -> (BState, Seq<usize>)
    decreases ts, ts.len() - i,
{
    if i < 0 || i >= ts.len() {
        (st, Seq::<usize>::empty())
    } else {
        let str0 = spec_parse(ts[i], root_key, st);
        let strest = spec_parse_list(ts, i + 1, root_key, str0.0);
        (
            strest.0,
            match str0.1 {
                Some(c) => seq![c] + strest.1,
                None => strest.1,
            },
        )
    }
}

/// One subrequirement edge from each child `cs[j..]` into `idx`, in order.
pub open spec fn spec_push_child_edges(st: BState, cs: Seq<usize>, idx: usize, j: int) -> BState
    decreases cs.len() - j,
{
    if j < 0 || j >= cs.len() {
        st
    } else {
        spec_push_child_edges(
            BState { edges: st.edges.push((cs[j], idx, EdgeType::SUBREQUIREMENT)), ..st },
            cs,
            idx,
            j + 1,
        )
    }
}

/// The functional model of placing one top-level edge: a course satisfier is
/// first wrapped in a one-of-one gate; the typed edge is then appended exactly
/// when it would not close a cycle.
pub open spec fn spec_attach(st: BState, satisfier: usize, course_index: usize, label: EdgeType) -> BState {
    let srcst = if st.nodes[satisfier as int] is CourseView {
        (
            st.nodes.len() as usize,
            BState {
                nodes: st.nodes.push(NodeView::ReqView { gate: 1 }),
                edges: st.edges.push(
                    (satisfier, st.nodes.len() as usize, EdgeType::SUBREQUIREMENT),
                ),
                ..st
            },
        )
    } else {
        (satisfier, st)
    };
    let src = srcst.0;
    let st1 = srcst.1;
    if reaches(st1.edges, course_index, src) {
        st1
    } else {
        BState { edges: st1.edges.push((src, course_index, label)), ..st1 }
    }
}

pub open spec fn spec_attach_tree(
    st: BState,
    r: Option<usize>,
    course_index: usize,
    label: EdgeType,
) -> BState {
    match r {
        Some(idx) => spec_attach(st, idx, course_index, label),
        None => st,
    }
}

pub open spec fn spec_course_node_view(c: NebulaCourse) -> NodeView {
    NodeView::CourseView { prefix: c.subject_prefix@, number: c.course_number@ }
}

/// The course pass: one course node per record, ids alongside.
pub open spec fn spec_course_pass(db: Seq<NebulaCourse>, i: int, st: BState) -> BState
    decreases db.len() - i,
{
    if i < 0 || i >= db.len() {
        st
    } else {
        spec_course_pass(
            db,
            i + 1,
            BState {
                nodes: st.nodes.push(spec_course_node_view(db[i])),
                ids: st.ids.push(db[i].id->0),
                ..st
            },
        )
    }
}

/// The requirement pass for one record: its three trees, the prerequisite
/// tree feeding the course under a prerequisite edge and both corequisite
/// trees under corequisite edges.
pub open spec fn spec_build_course(db: Seq<NebulaCourse>, i: int, st: BState) -> BState {
    let rk = spec_course_key(db[i].subject_prefix@, db[i].course_number@);
    let p1 = spec_parse(db[i].prerequisites, rk, st);
    let st2 = spec_attach_tree(p1.0, p1.1, i as usize, EdgeType::PREREQUISITE);
    let p2 = spec_parse(db[i].corequisites, rk, st2);
    let st4 = spec_attach_tree(p2.0, p2.1, i as usize, EdgeType::COREQUISITE);
    let p3 = spec_parse(db[i].co_or_pre_requisites, rk, st4);
    spec_attach_tree(p3.0, p3.1, i as usize, EdgeType::COREQUISITE)
}

pub open spec fn spec_requirement_pass(db: Seq<NebulaCourse>, i: int, st: BState) -> BState
    decreases db.len() - i,
{
    if i < 0 || i >= db.len() {
        st
    } else {
        spec_requirement_pass(db, i + 1, spec_build_course(db, i, st))
    }
}

/// The functional model of the whole build.
pub open spec fn spec_build(db: Seq<NebulaCourse>) -> BState {
    spec_requirement_pass(
        db,
        0,
        spec_course_pass(
            db,
            0,
            BState {
                nodes: Seq::<NodeView>::empty(),
                edges: Seq::<(usize, usize, EdgeType)>::empty(),
                ids: Seq::<u64>::empty(),
            },
        ),
    )
}

/// The group self-exclusion invariant: no course that contributes to a
/// top-level requirement through subrequirement chains shares the group key
/// of the course that the requirement feeds. A course never requires itself
/// or a cross-listing of itself, at any depth.
pub open spec fn spec_group_exclusion(
    es: Seq<(usize, usize, EdgeType)>,
    nodes: Seq<NodeInfo>,
) -> bool {
    forall|k: int, x: usize|
        0 <= k < es.len() && ((#[trigger] es[k]).2 != EdgeType::SUBREQUIREMENT) && (x as nat)
            < nodes.len() && (#[trigger] nodes[x as int]) is CourseNode && feeds(es, x, es[k].0)
            ==> nodes[x as int].spec_key() != nodes[es[k].1 as int].spec_key()
}

/// Growing the graph by subrequirement edges into fresh requirement nodes
/// keeps the self-exclusion invariant: no top-level edge appears, and feeding
/// chains into the old nodes are frozen.
pub proof fn lemma_group_exclusion_extend(
    es1: Seq<(usize, usize, EdgeType)>,
    es2: Seq<(usize, usize, EdgeType)>,
    nodes1: Seq<NodeInfo>,
    nodes2: Seq<NodeInfo>,
)
    requires
        spec_group_exclusion(es1, nodes1),
        es1.len() <= es2.len(),
        forall|k: int| 0 <= k < es1.len() ==> es2[k] == #[trigger] es1[k],
        forall|k: int|
            es1.len() <= k < es2.len() ==> (#[trigger] es2[k]).2 == EdgeType::SUBREQUIREMENT && ((
            es2[k]).1 as nat) >= nodes1.len(),
        nodes1.len() <= nodes2.len(),
        forall|i: int| 0 <= i < nodes1.len() ==> nodes2[i] == #[trigger] nodes1[i],
        forall|i: int| nodes1.len() <= i < nodes2.len() ==> (#[trigger] nodes2[i]) is RequirementNode,
        forall|k: int|
            0 <= k < es1.len() ==> ((#[trigger] es1[k]).0 as nat) < nodes1.len() && ((
            es1[k]).1 as nat) < nodes1.len(),
    ensures
        spec_group_exclusion(es2, nodes2),
{
    assert forall|k: int, x: usize|
        0 <= k < es2.len() && ((#[trigger] es2[k]).2 != EdgeType::SUBREQUIREMENT) && (x as nat)
            < nodes2.len() && (#[trigger] nodes2[x as int]) is CourseNode && feeds(
        es2,
        x,
        es2[k].0,
    ) implies nodes2[x as int].spec_key() != nodes2[es2[k].1 as int].spec_key() by {
        assert(k < es1.len());
        assert(es2[k] == es1[k]);
        let n = choose|n: nat| feeds_n(es2, x, es2[k].0, n);
        lemma_feeds_frozen(es1, es2, x, es2[k].0, nodes1.len(), n);
        assert((x as nat) < nodes1.len());
        assert(nodes2[x as int] == nodes1[x as int]);
        assert(nodes2[es1[k].1 as int] == nodes1[es1[k].1 as int]);
    }
}

/// True when `set` holds a string whose characters are `name`.
pub fn vec_contains_string(set: &Vec<String>, name: &String) -> (r: bool)
    ensures
        r == set.deep_view().contains(name@),
{
    let mut i: usize = 0;
    while i < set.len()
        invariant
            i <= set@.len(),
            forall|k: int| 0 <= k < i ==> set.deep_view()[k] != name@,
        decreases set@.len() - i,
    {
        if set[i] == *name {
            proof {
                assert(set.deep_view()[i as int] == name@);
            }
            return true;
        }
        i = i + 1;
    }
    proof {
        assert forall|k: int| 0 <= k < set.deep_view().len() implies set.deep_view()[k]
            != name@ by {}
    }
    false
}

/// The built graph, read-only once built: the petgraph adjacency plus the
/// arena of node payloads, index-aligned.
pub struct CourseGraph {
    pub graph: petgraph::graph::Graph<usize, EdgeType>,
    pub nodes: Vec<NodeInfo>,
}

impl CourseGraph {
    /// A single edge is well-placed: endpoints in range, prerequisite and
    /// corequisite edges run from a requirement into a course, and
    /// subrequirement edges run into a requirement.
    pub open spec fn edge_ok(&self, e: (usize, usize, EdgeType)) -> bool {
        &&& (e.0 as int) < self.nodes@.len()
        &&& (e.1 as int) < self.nodes@.len()
        &&& (e.2 == EdgeType::SUBREQUIREMENT ==> self.nodes@[e.1 as int] is RequirementNode)
        &&& (e.2 != EdgeType::SUBREQUIREMENT ==> self.nodes@[e.0 as int] is RequirementNode
            && self.nodes@[e.1 as int] is CourseNode)
    }

    pub open spec fn wf(&self) -> bool {
        &&& graph_node_count(self.graph) == self.nodes@.len()
        &&& self.nodes@.len() <= u32::MAX as nat
        &&& graph_edge_list(self.graph).len() <= u32::MAX as nat
        &&& forall|k: int|
            0 <= k < graph_edge_list(self.graph).len() ==> self.edge_ok(
                #[trigger] graph_edge_list(self.graph)[k],
            )
        &&& forall|i: int|
            0 <= i < self.nodes@.len() ==> ((#[trigger] self.nodes@[i]) matches NodeInfo::CourseNode(
                c,
            ) ==> c.wf())
    }

    /// Every incoming edge of `a` is in the edge list, so its in-degree is
    /// bounded by the edge count.
    pub proof fn lemma_in_degree_le(&self, a: usize)
        ensures
            in_degree_of(self.graph, a) <= graph_edge_list(self.graph).len(),
    {
        graph_edge_list(self.graph).lemma_filter_len(|e: (usize, usize, EdgeType)| e.1 == a);
    }

    pub fn find_course_by_name(&self, course_name: &str) -> (r: Option<usize>)
        ensures
            r == spec_find_course(self.nodes@, course_name@),
            r matches Some(v) ==> v < self.nodes@.len() && self.nodes@[v as int] is CourseNode,
    {
        let target = String::from_str(course_name);
        let mut i: usize = self.nodes.len();
        proof {
            assert(self.nodes@.take(i as int) =~= self.nodes@);
        }
        while i > 0
            invariant
                i <= self.nodes@.len(),
                target@ == course_name@,
                spec_find_course(self.nodes@, course_name@) == spec_find_course(
                    self.nodes@.take(i as int),
                    course_name@,
                ),
            decreases i,
        {
            i = i - 1;
            proof {
                assert(self.nodes@.take(i + 1).drop_last() =~= self.nodes@.take(i as int));
                assert(self.nodes@.take(i + 1).last() == self.nodes@[i as int]);
            }
            match &self.nodes[i] {
                NodeInfo::CourseNode(c) => {
                    let n = c.name();
                    if n == target {
                        return Some(i);
                    }
                },
                NodeInfo::RequirementNode(_) => {},
            }
        }
        None
    }

    pub fn graph(&self) -> (r: &petgraph::graph::Graph<usize, EdgeType>)
        ensures
            *r == self.graph,
    {
        &self.graph
    }

    pub fn size(&self) -> (r: usize)
        requires
            self.wf(),
        ensures
            r == self.nodes@.len(),
    {
        pg_node_count(&self.graph)
    }

    pub fn node_type(&self, node_index: usize) -> (r: VertexType)
        requires
            node_index < self.nodes@.len(),
        ensures
            r == VertexType::COURSE <==> self.nodes@[node_index as int] is CourseNode,
    {
        match &self.nodes[node_index] {
            NodeInfo::CourseNode(_) => VertexType::COURSE,
            NodeInfo::RequirementNode(_) => VertexType::REQUIREMENT,
        }
    }

    pub fn in_degree(&self, node_index: usize) -> (r: usize)
        requires
            self.wf(),
            node_index < self.nodes@.len(),
        ensures
            r as nat == in_degree_of(self.graph, node_index),
    {
        pg_in_degree(&self.graph, node_index)
    }

    pub fn out_degree(&self, node_index: usize) -> (r: usize)
        requires
            self.wf(),
            node_index < self.nodes@.len(),
        ensures
            r as nat == out_edge_list(self.graph, node_index).len(),
    {
        let outs = pg_out_edges(&self.graph, node_index);
        outs.len()
    }

    pub fn course_group_satisfied(&self, node_index: usize, course_set: &Vec<String>) -> (r: bool)
        requires
            self.wf(),
            node_index < self.nodes@.len(),
            self.nodes@[node_index as int] is CourseNode,
        ensures
            r == spec_group_satisfied(self.nodes@, node_index as int, course_set.deep_view()),
    {
        let key: String = match &self.nodes[node_index] {
            NodeInfo::CourseNode(c) => c.course_key(),
            NodeInfo::RequirementNode(_) => {
                proof {
                    assert(false);
                }
                String::new()
            },
        };
        let mut count: usize = 0;
        let mut found_other = false;
        let mut j: usize = 0;
        proof {
            assert(self.nodes@.take(0) =~= Seq::<NodeInfo>::empty());
        }
        while j < self.nodes.len()
            invariant
                self.wf(),
                node_index < self.nodes@.len(),
                self.nodes@[node_index as int] is CourseNode,
                j <= self.nodes@.len(),
                key@ == self.nodes@[node_index as int].spec_key(),
                count <= j,
                count as nat == spec_group_size(self.nodes@.take(j as int), key@),
                found_other == (exists|j2: int|
                    0 <= j2 < j && j2 != node_index && (#[trigger] self.nodes@[j2]) is CourseNode
                        && self.nodes@[j2].spec_key() == key@ && course_set.deep_view().contains(
                        self.nodes@[j2].spec_name(),
                    )),
            decreases self.nodes@.len() - j,
        {
            proof {
                assert(self.nodes@.take(j + 1).drop_last() =~= self.nodes@.take(j as int));
                assert(self.nodes@.take(j + 1).last() == self.nodes@[j as int]);
            }
            match &self.nodes[j] {
                NodeInfo::CourseNode(c) => {
                    let k2 = c.course_key();
                    if k2 == key {
                        count = count + 1;
                        if j != node_index {
                            let nm = c.name();
                            if vec_contains_string(course_set, &nm) {
                                found_other = true;
                            }
                        }
                    }
                },
                NodeInfo::RequirementNode(_) => {},
            }
            j = j + 1;
        }
        proof {
            assert(self.nodes@.take(j as int) =~= self.nodes@);
        }
        if found_other {
            true
        } else {
            count == 1
        }
    }

    /// Whether the requirement at `node_index` is satisfied once
    /// `remain_degree` incoming edges remain unsatisfied.
    pub open spec fn spec_requirement_satisfied(&self, node_index: usize, remain_degree: usize) -> bool {
        match self.nodes@[node_index as int] {
            NodeInfo::RequirementNode(req) => req.spec_is_satisfied(
                in_degree_of(self.graph, node_index) as u32,
                remain_degree as u32,
            ),
            NodeInfo::CourseNode(_) => false,
        }
    }

    pub fn requirement_satisfied(&self, node_index: usize, remain_degree: usize) -> (r: bool)
        requires
            self.wf(),
            node_index < self.nodes@.len(),
            remain_degree as nat <= in_degree_of(self.graph, node_index),
        ensures
            r == self.spec_requirement_satisfied(node_index, remain_degree),
    {
        proof {
            self.lemma_in_degree_le(node_index);
        }
        let init_degree = pg_in_degree(&self.graph, node_index);
        match &self.nodes[node_index] {
            NodeInfo::RequirementNode(req) => req.is_satisfied(
                init_degree as u32,
                remain_degree as u32,
            ),
            NodeInfo::CourseNode(_) => false,
        }
    }
}

/// An upper bound on the nodes and on the edges that translating the tree `t`
/// can add to the graph.
pub open spec fn tree_weight(t: RequirementCollection) -> nat
    decreases t, 0int,
{
    2 + 2 * (match t.options {
        Some(v) => trees_weight(v@, 0),
        None => 0nat,
    })
}

/// The combined weight of the trees `s[i..]`.
pub open spec fn trees_weight(s: Seq<RequirementCollection>, i: int) -> nat
    decreases s, s.len() - i,
{
    if i < 0 || i >= s.len() {
        0
    } else {
        tree_weight(s[i]) + trees_weight(s, i + 1)
    }
}

pub proof fn lemma_trees_weight_lower(s: Seq<RequirementCollection>, i: int)
    requires
        0 <= i <= s.len(),
    ensures
        trees_weight(s, i) >= 2 * (s.len() - i),
    decreases s.len() - i,
{
    if i < s.len() {
        lemma_trees_weight_lower(s, i + 1);
        assert(tree_weight(s[i]) >= 2);
    }
}

/// Every collection in the tree carries an explicit `required` of at least
/// one.
pub open spec fn tree_positive(t: RequirementCollection) -> bool
    decreases t, 0int,
{
    t.spec_requirement_type() == Some(RequirementCollectionType::COLLECTION) ==> {
        &&& t.required matches Some(r) && r >= 1
        &&& (match t.options {
            Some(v) => trees_positive(v@, 0),
            None => true,
        })
    }
}

pub open spec fn trees_positive(s: Seq<RequirementCollection>, i: int) -> bool
    decreases s, s.len() - i,
{
    if i < 0 || i >= s.len() {
        true
    } else {
        tree_positive(s[i]) && trees_positive(s, i + 1)
    }
}

pub proof fn lemma_prefix_index<A>(s1: Seq<A>, s2: Seq<A>, j: int)
    requires
        s1.is_prefix_of(s2),
        0 <= j < s1.len(),
    ensures
        s2[j] == s1[j],
{
    assert(s1 =~= s2.subrange(0, s1.len() as int));
}

pub proof fn lemma_prefix_trans<A>(s1: Seq<A>, s2: Seq<A>, s3: Seq<A>)
    requires
        s1.is_prefix_of(s2),
        s2.is_prefix_of(s3),
    ensures
        s1.is_prefix_of(s3),
{
    assert forall|j: int| 0 <= j < s1.len() implies s3.subrange(0, s1.len() as int)[j]
        == s1[j] by {
        lemma_prefix_index(s1, s2, j);
        lemma_prefix_index(s2, s3, j);
    }
    assert(s1 =~= s3.subrange(0, s1.len() as int));
}

pub proof fn lemma_trees_positive_from(s: Seq<RequirementCollection>, j: int, i: int)
    requires
        0 <= j <= i < s.len(),
        trees_positive(s, j),
    ensures
        tree_positive(s[i]),
    decreases i - j,
{
    if j < i {
        lemma_trees_positive_from(s, j + 1, i);
    }
}

pub proof fn lemma_trees_positive_at(s: Seq<RequirementCollection>, i: int)
    requires
        0 <= i < s.len(),
        trees_positive(s, 0),
    ensures
        tree_positive(s[i]),
{
    lemma_trees_positive_from(s, 0, i);
}

/// Every requirement node's gate is within its in-degree: it can fire, and it
/// asks for no more children than it has.
pub open spec fn spec_req_counts_ok(
    g: petgraph::graph::Graph<usize, EdgeType>,
    nodes: Seq<NodeInfo>,
) -> bool {
    forall|i: int|
        0 <= i < nodes.len() && (#[trigger] nodes[i]) is RequirementNode ==> nodes[i].spec_required()
            as nat <= in_degree_of(g, i as usize) && 1 <= in_degree_of(g, i as usize)
}

/// Every requirement node asks for at least one child.
pub open spec fn spec_all_reqs_positive(nodes: Seq<NodeInfo>) -> bool {
    forall|i: int|
        0 <= i < nodes.len() && (#[trigger] nodes[i]) is RequirementNode ==> nodes[i].spec_required()
            >= 1
}

/// The index of the last course node registered under `id`, if any.
pub open spec fn spec_find_id(ids: Seq<u64>, id: u64) -> Option<usize>
    decreases ids.len(),
{
    if ids.len() == 0 {
        None
    } else if ids.last() == id {
        Some((ids.len() - 1) as usize)
    } else {
        spec_find_id(ids.drop_last(), id)
    }
}

/// Grows a [`CourseGraph`] from catalog records: one pass creating the course
/// nodes, then one pass translating each course's requirement trees.
pub struct CourseGraphBuilder {
    pub graph: petgraph::graph::Graph<usize, EdgeType>,
    pub nodes: Vec<NodeInfo>,
    pub course_ids: Vec<u64>,
}

impl CourseGraphBuilder {
    /// The course nodes sit below `course_ids.len()`, aligned with the ids;
    /// everything above is a requirement node.
    pub open spec fn wf(&self) -> bool {
        &&& graph_node_count(self.graph) == self.nodes@.len()
        &&& self.nodes@.len() <= u32::MAX as nat
        &&& graph_edge_list(self.graph).len() <= u32::MAX as nat
        &&& self.course_ids@.len() <= self.nodes@.len()
        &&& forall|k: int|
            0 <= k < graph_edge_list(self.graph).len() ==> self.as_graph().edge_ok(
                #[trigger] graph_edge_list(self.graph)[k],
            )
        &&& forall|i: int|
            0 <= i < self.nodes@.len() ==> ((#[trigger] self.nodes@[i]) is CourseNode <==> i
                < self.course_ids@.len())
        &&& forall|i: int|
            0 <= i < self.nodes@.len() ==> ((#[trigger] self.nodes@[i]) matches NodeInfo::CourseNode(
                c,
            ) ==> c.wf())
    }

    /// The graph as it would stand if finished now.
    pub open spec fn as_graph(&self) -> CourseGraph {
        CourseGraph { graph: self.graph, nodes: self.nodes }
    }

    /// The builder's state as the functional model sees it.
    pub open spec fn model(&self) -> BState {
        BState {
            nodes: nodes_view(self.nodes@),
            edges: graph_edge_list(self.graph),
            ids: self.course_ids@,
        }
    }

    fn new() -> (r: CourseGraphBuilder)
        ensures
            r.wf(),
            r.nodes@ == Seq::<NodeInfo>::empty(),
            r.course_ids@ == Seq::<u64>::empty(),
            graph_edge_list(r.graph) == Seq::<(usize, usize, EdgeType)>::empty(),
    {
        let r = CourseGraphBuilder { graph: pg_new(), nodes: Vec::new(), course_ids: Vec::new() };
        r
    }

    /// Appends one course node, remembering its id; only legal while no
    /// requirement node exists yet.
    fn add_course(&mut self, course: &NebulaCourse) -> (r: usize)
        requires
            old(self).wf(),
            course.wf(),
            old(self).nodes@.len() == old(self).course_ids@.len(),
            old(self).nodes@.len() < u32::MAX as nat,
        ensures
            final(self).wf(),
            r as nat == old(self).nodes@.len(),
            final(self).nodes@ == old(self).nodes@.push(final(self).nodes@.last()),
            final(self).nodes@.last() matches NodeInfo::CourseNode(c) && c.subject_prefix@
                == course.subject_prefix@ && c.course_number@ == course.course_number@,
            final(self).course_ids@ == old(self).course_ids@.push(course.id->0),
            graph_edge_list(final(self).graph) == graph_edge_list(old(self).graph),
            final(self).model() == (BState {
                nodes: old(self).model().nodes.push(spec_course_node_view(*course)),
                ids: old(self).model().ids.push(course.id->0),
                ..old(self).model()
            }),
    {
        let node_index = pg_add_node(&mut self.graph, self.nodes.len());
        let c = Course::new(course.subject_prefix.as_str(), course.course_number.as_str());
        let ghost pre_nodes = self.nodes@;
        self.nodes.push(NodeInfo::CourseNode(c));
        proof {
            lemma_nodes_view_push(pre_nodes, NodeInfo::CourseNode(c));
            assert(node_view(NodeInfo::CourseNode(c)) == spec_course_node_view(*course));
        }
        match course.id {
            Some(id) => self.course_ids.push(id),
            None => {
                proof {
                    assert(false);
                }
            },
        }
        node_index
    }

    /// Appends one requirement node with gate size `required_child`.
    fn add_requirement(&mut self, required_child: u32) -> (r: usize)
        requires
            old(self).wf(),
            old(self).nodes@.len() < u32::MAX as nat,
        ensures
            final(self).wf(),
            r as nat == old(self).nodes@.len(),
            final(self).nodes@ == old(self).nodes@.push(
                NodeInfo::RequirementNode(Requirement { required_child }),
            ),
            final(self).course_ids@ == old(self).course_ids@,
            graph_edge_list(final(self).graph) == graph_edge_list(old(self).graph),
            final(self).model() == (BState {
                nodes: old(self).model().nodes.push(NodeView::ReqView { gate: required_child }),
                ..old(self).model()
            }),
    {
        let node_index = pg_add_node(&mut self.graph, self.nodes.len());
        let ghost pre_nodes = self.nodes@;
        self.nodes.push(NodeInfo::RequirementNode(Requirement::new(required_child)));
        proof {
            lemma_nodes_view_push(
                pre_nodes,
                NodeInfo::RequirementNode(Requirement { required_child }),
            );
        }
        node_index
    }

    /// Translates one requirement tree, computing exactly what [`spec_parse`]
    /// says: a collection becomes a requirement node gating
    /// `min(required, children)` of its translated children, fed by one
    /// subrequirement edge per child; a course reference resolves to the
    /// course's node with nothing added, unless it falls in the same group as
    /// the course being parsed (a course never requires a cross-listing of
    /// itself); anything else — an unknown tag, a missing or unknown
    /// reference, a collection with no translated children — yields no node
    /// and leaves the builder unchanged.
    fn parse_requirement(
        &mut self,
        requirement: &RequirementCollection,
        root_course_group: &String,
    ) -> (r: Option<usize>)
        requires
            old(self).wf(),
            spec_req_counts_ok(old(self).graph, old(self).nodes@),
            old(self).nodes@.len() + tree_weight(*requirement) <= u32::MAX as nat,
            graph_edge_list(old(self).graph).len() + tree_weight(*requirement) <= u32::MAX as nat,
            acyclic(graph_edge_list(old(self).graph)),
        ensures
            final(self).wf(),
            acyclic(graph_edge_list(final(self).graph)),
            spec_req_counts_ok(final(self).graph, final(self).nodes@),
            old(self).nodes@.is_prefix_of(final(self).nodes@),
            final(self).course_ids@ == old(self).course_ids@,
            graph_edge_list(old(self).graph).is_prefix_of(graph_edge_list(final(self).graph)),
            final(self).nodes@.len() <= old(self).nodes@.len() + tree_weight(*requirement),
            graph_edge_list(final(self).graph).len() <= graph_edge_list(old(self).graph).len()
                + tree_weight(*requirement),
            forall|i: int|
                old(self).nodes@.len() <= i < final(self).nodes@.len()
                    ==> (#[trigger] final(self).nodes@[i]) is RequirementNode,
            spec_all_reqs_positive(old(self).nodes@) && tree_positive(*requirement)
                ==> spec_all_reqs_positive(final(self).nodes@),
            forall|k: int|
                graph_edge_list(old(self).graph).len() <= k < graph_edge_list(
                    final(self).graph,
                ).len() ==> (#[trigger] graph_edge_list(final(self).graph)[k]).2
                    == EdgeType::SUBREQUIREMENT && (graph_edge_list(final(self).graph)[k].0 as int)
                    < (graph_edge_list(final(self).graph)[k].1 as int) && old(self).nodes@.len()
                    <= (graph_edge_list(final(self).graph)[k].1 as int),
            forall|a: usize|
                (a as nat) < old(self).nodes@.len() ==> #[trigger] in_degree_of(
                    final(self).graph,
                    a,
                ) == in_degree_of(old(self).graph, a),
            forall|x: usize, rq: usize|
                (rq as nat) < old(self).nodes@.len() ==> (#[trigger] feeds(
                    graph_edge_list(final(self).graph),
                    x,
                    rq,
                ) <==> feeds(graph_edge_list(old(self).graph), x, rq)),
            spec_group_exclusion(graph_edge_list(old(self).graph), old(self).nodes@)
                ==> spec_group_exclusion(graph_edge_list(final(self).graph), final(self).nodes@),
            r matches Some(v) ==> (v as nat) < final(self).nodes@.len(),
            r matches Some(v) ==> (final(self).nodes@[v as int] is CourseNode
                ==> final(self).nodes@[v as int].spec_key() != root_course_group@),
            r matches Some(v) ==> (final(self).nodes@[v as int] is RequirementNode
                ==> (forall|x: usize|
                    (x as nat) < final(self).nodes@.len()
                        && (#[trigger] final(self).nodes@[x as int]) is CourseNode
                        && feeds(graph_edge_list(final(self).graph), x, v)
                        ==> final(self).nodes@[x as int].spec_key() != root_course_group@)),
            final(self).model() == spec_parse(
                *requirement,
                root_course_group@,
                old(self).model(),
            ).0,
            r == spec_parse(*requirement, root_course_group@, old(self).model()).1,
        decreases *requirement,
    {
        match requirement.requirement_type() {
            Some(RequirementCollectionType::COLLECTION) => {
                match &requirement.options {
                    None => None,
                    Some(opts) => {
                        let ghost tw0 = trees_weight(opts@, 0);
                        proof {
                            assert(tree_weight(*requirement) == 2 + 2 * tw0);
                        }
                        let mut children: Vec<usize> = Vec::new();
                        let mut i: usize = 0;
                        proof {
                            assert(children@ + spec_parse_list(
                                opts@,
                                0,
                                root_course_group@,
                                self.model(),
                            ).1 =~= spec_parse_list(opts@, 0, root_course_group@, self.model()).1);
                        }
                        while i < opts.len()
                            invariant
                                self.wf(),
                                acyclic(graph_edge_list(self.graph)),
                                spec_req_counts_ok(self.graph, self.nodes@),
                                i <= opts@.len(),
                                requirement.options == Some(*opts),
                                children@.len() <= i,
                                old(self).wf(),
                                old(self).nodes@.len() + 2 + 2 * tw0 <= u32::MAX as nat,
                                graph_edge_list(old(self).graph).len() + 2 + 2 * tw0 <= u32::MAX
                                    as nat,
                                tw0 == trees_weight(opts@, 0),
                                old(self).nodes@.is_prefix_of(self.nodes@),
                                self.course_ids@ == old(self).course_ids@,
                                graph_edge_list(old(self).graph).is_prefix_of(
                                    graph_edge_list(self.graph),
                                ),
                                self.nodes@.len() + trees_weight(opts@, i as int) <= old(
                                    self,
                                ).nodes@.len() + tw0,
                                graph_edge_list(self.graph).len() + trees_weight(opts@, i as int)
                                    <= graph_edge_list(old(self).graph).len() + tw0,
                                forall|j: int|
                                    old(self).nodes@.len() <= j < self.nodes@.len() ==> (
                                    #[trigger] self.nodes@[j]) is RequirementNode,
                                spec_all_reqs_positive(old(self).nodes@) && trees_positive(
                                    opts@,
                                    0,
                                ) ==> spec_all_reqs_positive(self.nodes@),
                                forall|k: int|
                                    graph_edge_list(old(self).graph).len() <= k < graph_edge_list(
                                        self.graph,
                                    ).len() ==> (#[trigger] graph_edge_list(self.graph)[k]).2
                                        == EdgeType::SUBREQUIREMENT && (graph_edge_list(
                                        self.graph,
                                    )[k].0 as int) < (graph_edge_list(self.graph)[k].1 as int)
                                        && old(self).nodes@.len() <= (graph_edge_list(
                                        self.graph,
                                    )[k].1 as int),
                                forall|a: usize|
                                    (a as nat) < old(self).nodes@.len() ==> #[trigger] in_degree_of(
                                        self.graph,
                                        a,
                                    ) == in_degree_of(old(self).graph, a),
                                forall|c: int|
                                    0 <= c < children@.len() ==> (#[trigger] children@[c] as nat)
                                        < self.nodes@.len(),
                                forall|c: int|
                                    0 <= c < children@.len() ==> (self.nodes@[children@[c] as int] is CourseNode
                                        ==> self.nodes@[children@[c] as int].spec_key()
                                        != root_course_group@),
                                forall|x: usize, rq: usize|
                                    (rq as nat) < old(self).nodes@.len() ==> (#[trigger] feeds(
                                        graph_edge_list(self.graph),
                                        x,
                                        rq,
                                    ) <==> feeds(graph_edge_list(old(self).graph), x, rq)),
                                spec_group_exclusion(
                                    graph_edge_list(old(self).graph),
                                    old(self).nodes@,
                                ) ==> spec_group_exclusion(graph_edge_list(self.graph), self.nodes@),
                                forall|c: int, x: usize|
                                    0 <= c < children@.len() && self.nodes@[children@[c] as int] is RequirementNode
                                        && (x as nat) < self.nodes@.len() && (#[trigger] self.nodes@[x as int]) is CourseNode
                                        && #[trigger] feeds(
                                        graph_edge_list(self.graph),
                                        x,
                                        children@[c],
                                    ) ==> self.nodes@[x as int].spec_key() != root_course_group@,
                                spec_parse_list(
                                    opts@,
                                    0,
                                    root_course_group@,
                                    old(self).model(),
                                ).0 == spec_parse_list(
                                    opts@,
                                    i as int,
                                    root_course_group@,
                                    self.model(),
                                ).0,
                                spec_parse_list(
                                    opts@,
                                    0,
                                    root_course_group@,
                                    old(self).model(),
                                ).1 == children@ + spec_parse_list(
                                    opts@,
                                    i as int,
                                    root_course_group@,
                                    self.model(),
                                ).1,
                            decreases opts@.len() - i,
                        {
                            proof {
                                assert(trees_weight(opts@, i as int) == tree_weight(opts@[i as int])
                                    + trees_weight(opts@, i + 1));
                                if trees_positive(opts@, 0) {
                                    lemma_trees_positive_at(opts@, i as int);
                                }
                                assert(decreases_to!(*requirement => requirement.options));
                                assert(decreases_to!(requirement.options => requirement.options->0));
                                assert(decreases_to!(requirement.options->0 => requirement.options->0@));
                                assert(decreases_to!(
                                    requirement.options->0@ => requirement.options->0@[i as int]));
                                assert(requirement.options->0@ == opts@);
                            }
                            let ghost prev = *self;
                            let sub = self.parse_requirement(&opts[i], root_course_group);
                            proof {
                                assert forall|k: int|
                                    0 <= k < graph_edge_list(prev.graph).len() implies #[trigger] graph_edge_list(
                                    self.graph,
                                )[k] == graph_edge_list(prev.graph)[k] by {
                                    assert(graph_edge_list(prev.graph) == graph_edge_list(
                                        self.graph,
                                    ).subrange(0, graph_edge_list(prev.graph).len() as int));
                                }
                                assert forall|k: int|
                                    0 <= k < prev.nodes@.len() implies #[trigger] self.nodes@[k]
                                    == prev.nodes@[k] by {
                                    assert(prev.nodes@ == self.nodes@.subrange(
                                        0,
                                        prev.nodes@.len() as int,
                                    ));
                                }
                                assert(old(self).nodes@ =~= self.nodes@.subrange(
                                    0,
                                    old(self).nodes@.len() as int,
                                ));
                                assert(graph_edge_list(old(self).graph) =~= graph_edge_list(
                                    self.graph,
                                ).subrange(0, graph_edge_list(old(self).graph).len() as int));
                                assert forall|c: int, x: usize|
                                    0 <= c < children@.len() && self.nodes@[children@[c] as int] is RequirementNode
                                        && (x as nat) < self.nodes@.len() && (#[trigger] self.nodes@[x as int]) is CourseNode
                                        && #[trigger] feeds(
                                        graph_edge_list(self.graph),
                                        x,
                                        children@[c],
                                    ) implies self.nodes@[x as int].spec_key()
                                    != root_course_group@ by {
                                    assert((children@[c] as nat) < prev.nodes@.len());
                                    assert(feeds(graph_edge_list(prev.graph), x, children@[c]));
                                    assert((x as nat) < prev.nodes@.len());
                                    assert(prev.nodes@[x as int] == self.nodes@[x as int]);
                                    assert(prev.nodes@[children@[c] as int]
                                        == self.nodes@[children@[c] as int]);
                                }
                            }
                            let ghost pre_children = children@;
                            if let Some(ci) = sub {
                                children.push(ci);
                            }
                            proof {
                                assert(spec_parse(
                                    opts@[i as int],
                                    root_course_group@,
                                    prev.model(),
                                ).0 == self.model());
                                assert(spec_parse(
                                    opts@[i as int],
                                    root_course_group@,
                                    prev.model(),
                                ).1 == sub);
                                assert(spec_parse_list(
                                    opts@,
                                    i as int,
                                    root_course_group@,
                                    prev.model(),
                                ).0 == spec_parse_list(
                                    opts@,
                                    i + 1,
                                    root_course_group@,
                                    self.model(),
                                ).0);
                                let tail = spec_parse_list(
                                    opts@,
                                    i + 1,
                                    root_course_group@,
                                    self.model(),
                                ).1;
                                match sub {
                                    Some(c) => {
                                        assert(spec_parse_list(
                                            opts@,
                                            i as int,
                                            root_course_group@,
                                            prev.model(),
                                        ).1 == seq![c] + tail);
                                        assert(children@ == pre_children.push(c));
                                        assert(pre_children + (seq![c] + tail) =~= children@ + tail);
                                    },
                                    None => {
                                        assert(spec_parse_list(
                                            opts@,
                                            i as int,
                                            root_course_group@,
                                            prev.model(),
                                        ).1 == tail);
                                    },
                                }
                            }
                            i = i + 1;
                        }
                        if children.len() == 0 {
                            proof {
                                assert(spec_parse_list(
                                    opts@,
                                    opts@.len() as int,
                                    root_course_group@,
                                    self.model(),
                                ).1 =~= Seq::<usize>::empty());
                                assert(children@ + Seq::<usize>::empty() =~= children@);
                                assert(spec_parse(
                                    *requirement,
                                    root_course_group@,
                                    old(self).model(),
                                ).0 == self.model());
                                assert(spec_parse(
                                    *requirement,
                                    root_course_group@,
                                    old(self).model(),
                                ).1 == None::<usize>);
                            }
                            None
                        } else {
                            proof {
                                lemma_trees_weight_lower(opts@, 0);
                                assert(children@.len() <= u32::MAX as nat);
                            }
                            let kraw: usize = match requirement.required {
                                Some(req_count) => if req_count >= 0 {
                                    req_count as usize
                                } else {
                                    0
                                },
                                None => 0,
                            };
                            let k: usize = if kraw < children.len() {
                                kraw
                            } else {
                                children.len()
                            };
                            let ghost mid = *self;
                            let req_node = self.add_requirement(k as u32);
                            let ghost created = *self;
                            proof {
                                assert forall|k2: int|
                                    0 <= k2 < graph_edge_list(self.graph).len() implies ((
                                #[trigger] graph_edge_list(self.graph)[k2]).0 as nat)
                                    < req_node as nat by {
                                    assert(mid.as_graph().edge_ok(graph_edge_list(mid.graph)[k2]));
                                }
                                lemma_in_degree_of_absent(created.graph, req_node);
                                assert forall|a: usize| a != req_node implies #[trigger] in_degree_of(
                                    created.graph,
                                    a,
                                ) == in_degree_of(mid.graph, a) by {
                                    assert(graph_edge_list(created.graph) == graph_edge_list(
                                        mid.graph,
                                    ));
                                }
                                assert forall|x: usize|
                                    #[trigger] feeds(
                                        graph_edge_list(created.graph),
                                        x,
                                        req_node,
                                    ) implies x == req_node by {
                                    assert forall|k2: int|
                                        0 <= k2 < graph_edge_list(created.graph).len() implies !((
                                    #[trigger] graph_edge_list(created.graph)[k2]).1 == req_node
                                        && graph_edge_list(created.graph)[k2].2
                                        == EdgeType::SUBREQUIREMENT) by {
                                        assert(mid.as_graph().edge_ok(
                                            graph_edge_list(mid.graph)[k2],
                                        ));
                                    }
                                    lemma_feeds_into_leaf(
                                        graph_edge_list(created.graph),
                                        x,
                                        req_node,
                                    );
                                }
                            }
                            let mut j: usize = 0;
                            while j < children.len()
                                invariant
                                    self.wf(),
                                    acyclic(graph_edge_list(self.graph)),
                                    forall|k2: int|
                                        0 <= k2 < graph_edge_list(self.graph).len() ==> ((
                                        #[trigger] graph_edge_list(self.graph)[k2]).0 as nat)
                                            < req_node as nat,
                                    j <= children@.len(),
                                    created.wf(),
                                    (req_node as nat) == created.nodes@.len() - 1,
                                    self.nodes@ == created.nodes@,
                                    self.course_ids@ == created.course_ids@,
                                    self.nodes@[req_node as int] == NodeInfo::RequirementNode(
                                        Requirement { required_child: k as u32 },
                                    ),
                                    forall|c: int|
                                        0 <= c < children@.len() ==> (#[trigger] children@[c] as nat)
                                            < req_node as nat,
                                    graph_edge_list(created.graph).len() + children@.len()
                                        <= u32::MAX as nat,
                                    graph_edge_list(self.graph).len() == graph_edge_list(
                                        created.graph,
                                    ).len() + j,
                                    graph_edge_list(created.graph).is_prefix_of(
                                        graph_edge_list(self.graph),
                                    ),
                                    forall|k2: int|
                                        graph_edge_list(created.graph).len() <= k2
                                            < graph_edge_list(self.graph).len()
                                            ==> #[trigger] graph_edge_list(self.graph)[k2] == (
                                        children@[k2 - graph_edge_list(created.graph).len()],
                                        req_node,
                                        EdgeType::SUBREQUIREMENT,
                                        ),
                                    in_degree_of(self.graph, req_node) == j,
                                    forall|a: usize|
                                        a != req_node ==> #[trigger] in_degree_of(self.graph, a)
                                            == in_degree_of(created.graph, a),
                                    mid.wf(),
                                    mid.nodes@.len() == req_node as nat,
                                    graph_edge_list(mid.graph) == graph_edge_list(created.graph),
                                    forall|i2: int|
                                        0 <= i2 < mid.nodes@.len() ==> #[trigger] created.nodes@[i2]
                                            == mid.nodes@[i2],
                                    forall|x: usize, rq: usize|
                                        (rq as nat) < mid.nodes@.len() ==> (#[trigger] feeds(
                                            graph_edge_list(self.graph),
                                            x,
                                            rq,
                                        ) <==> feeds(graph_edge_list(mid.graph), x, rq)),
                                    forall|c: int|
                                        0 <= c < children@.len() ==> (
                                        mid.nodes@[children@[c] as int] is CourseNode
                                            ==> mid.nodes@[children@[c] as int].spec_key()
                                            != root_course_group@),
                                    forall|c: int, x: usize|
                                        0 <= c < children@.len()
                                            && mid.nodes@[children@[c] as int] is RequirementNode
                                            && (x as nat) < mid.nodes@.len() && (
                                        #[trigger] mid.nodes@[x as int]) is CourseNode
                                            && #[trigger] feeds(
                                            graph_edge_list(mid.graph),
                                            x,
                                            children@[c],
                                        ) ==> mid.nodes@[x as int].spec_key()
                                            != root_course_group@,
                                    forall|x: usize|
                                        (x as nat) < self.nodes@.len()
                                            && self.nodes@[x as int] is CourseNode
                                            && #[trigger] feeds(
                                            graph_edge_list(self.graph),
                                            x,
                                            req_node,
                                        ) ==> self.nodes@[x as int].spec_key()
                                            != root_course_group@,
                                    spec_push_child_edges(
                                        created.model(),
                                        children@,
                                        req_node,
                                        0,
                                    ) == spec_push_child_edges(
                                        self.model(),
                                        children@,
                                        req_node,
                                        j as int,
                                    ),
                                decreases children@.len() - j,
                            {
                                let ghost gprev = self.graph;
                                let ghost mprev = self.model();
                                proof {
                                    assert forall|m: usize| !#[trigger] has_edge(
                                        graph_edge_list(gprev),
                                        req_node,
                                        m,
                                    ) by {
                                        if has_edge(graph_edge_list(gprev), req_node, m) {
                                            let k2 = choose|k2: int|
                                                0 <= k2 < graph_edge_list(gprev).len() && (
                                                #[trigger] graph_edge_list(gprev)[k2]).0 == req_node
                                                    && graph_edge_list(gprev)[k2].1 == m;
                                        }
                                    }
                                    lemma_no_out_no_reach(
                                        graph_edge_list(gprev),
                                        req_node,
                                        children@[j as int],
                                    );
                                }
                                pg_add_edge(
                                    &mut self.graph,
                                    children[j],
                                    req_node,
                                    EdgeType::SUBREQUIREMENT,
                                );
                                proof {
                                    let e = (children@[j as int], req_node, EdgeType::SUBREQUIREMENT);
                                    lemma_acyclic_push(graph_edge_list(gprev), e);
                                    assert(self.model() == (BState { edges: mprev.edges.push(e), ..mprev }));
                                    assert(spec_push_child_edges(mprev, children@, req_node, j as int)
                                        == spec_push_child_edges(self.model(), children@, req_node, j + 1));
                                    assert forall|a: usize| true implies #[trigger] in_degree_of(
                                        self.graph,
                                        a,
                                    ) == in_degree_of(gprev, a) + (if a == req_node {
                                        1nat
                                    } else {
                                        0nat
                                    }) by {
                                        lemma_in_degree_of_push(gprev, self.graph, e, a);
                                    }
                                    let cur = graph_edge_list(self.graph);
                                    let prv = graph_edge_list(gprev);
                                    assert forall|k2: int|
                                        0 <= k2 < cur.len() implies ((#[trigger] cur[k2]).0 as nat)
                                        < req_node as nat by {
                                        if k2 < prv.len() {
                                            assert(cur[k2] == prv[k2]);
                                        }
                                    }
                                    assert forall|m: usize| !#[trigger] sub_edge(
                                        cur,
                                        req_node,
                                        m,
                                    ) by {
                                        if sub_edge(cur, req_node, m) {
                                            let k2 = choose|k2: int|
                                                0 <= k2 < cur.len() && (#[trigger] cur[k2]).0
                                                    == req_node && cur[k2].1 == m && cur[k2].2
                                                    == EdgeType::SUBREQUIREMENT;
                                        }
                                    }
                                    assert forall|x: usize, rq: usize|
                                        (rq as nat) < mid.nodes@.len() implies (#[trigger] feeds(
                                            cur,
                                            x,
                                            rq,
                                        ) <==> feeds(prv, x, rq)) by {
                                        if feeds(cur, x, rq) {
                                            lemma_feeds_push(prv, e, x, rq);
                                            if !feeds(prv, x, rq) {
                                                lemma_no_out_no_feeds(cur, req_node, rq);
                                            }
                                        }
                                        if feeds(prv, x, rq) {
                                            let n2 = choose|n2: nat| feeds_n(prv, x, rq, n2);
                                            lemma_feeds_n_mono(prv, cur, x, rq, n2);
                                        }
                                    }
                                    assert forall|x: usize|
                                        (x as nat) < self.nodes@.len()
                                            && self.nodes@[x as int] is CourseNode
                                            && #[trigger] feeds(cur, x, req_node) implies self.nodes@[x as int].spec_key()
                                        != root_course_group@ by {
                                        lemma_feeds_push(prv, e, x, req_node);
                                        if !feeds(prv, x, req_node) {
                                            let cj = children@[j as int];
                                            assert(feeds(prv, x, cj));
                                            assert((cj as nat) < mid.nodes@.len());
                                            assert(feeds(graph_edge_list(mid.graph), x, cj));
                                            assert((x as nat) < mid.nodes@.len());
                                            assert(mid.nodes@[x as int] == self.nodes@[x as int]);
                                            if mid.nodes@[cj as int] is CourseNode {
                                                assert forall|k2: int|
                                                    0 <= k2 < graph_edge_list(mid.graph).len() implies !((
                                                #[trigger] graph_edge_list(mid.graph)[k2]).1 == cj
                                                    && graph_edge_list(mid.graph)[k2].2
                                                    == EdgeType::SUBREQUIREMENT) by {
                                                    assert(mid.as_graph().edge_ok(
                                                        graph_edge_list(mid.graph)[k2],
                                                    ));
                                                }
                                                lemma_feeds_into_leaf(
                                                    graph_edge_list(mid.graph),
                                                    x,
                                                    cj,
                                                );
                                                assert(mid.nodes@[cj as int]
                                                    == self.nodes@[cj as int]);
                                            }
                                        }
                                    }
                                }
                                j = j + 1;
                            }
                            proof {
                                assert forall|a: usize|
                                    (a as nat) < old(self).nodes@.len() implies #[trigger] in_degree_of(
                                    self.graph,
                                    a,
                                ) == in_degree_of(old(self).graph, a) by {
                                    assert(old(self).nodes@.len() <= mid.nodes@.len());
                                    assert(a != req_node);
                                    assert(in_degree_of(self.graph, a) == in_degree_of(
                                        created.graph,
                                        a,
                                    ));
                                    assert(in_degree_of(created.graph, a) == in_degree_of(
                                        mid.graph,
                                        a,
                                    ));
                                }
                                assert(old(self).nodes@ =~= self.nodes@.subrange(
                                    0,
                                    old(self).nodes@.len() as int,
                                ));
                                assert forall|k2: int|
                                    0 <= k2 < graph_edge_list(mid.graph).len() implies #[trigger] graph_edge_list(
                                    self.graph,
                                )[k2] == graph_edge_list(mid.graph)[k2] by {
                                    assert(graph_edge_list(created.graph) == graph_edge_list(
                                        self.graph,
                                    ).subrange(0, graph_edge_list(created.graph).len() as int));
                                }
                                assert(graph_edge_list(old(self).graph) =~= graph_edge_list(
                                    self.graph,
                                ).subrange(0, graph_edge_list(old(self).graph).len() as int));
                                assert(spec_req_counts_ok(self.graph, self.nodes@)) by {
                                    assert forall|ii: int|
                                        0 <= ii < self.nodes@.len() && (#[trigger] self.nodes@[ii]) is RequirementNode implies self.nodes@[ii].spec_required()
                                        as nat <= in_degree_of(self.graph, ii as usize) && 1
                                        <= in_degree_of(self.graph, ii as usize) by {
                                        if ii == req_node as int {
                                            assert(in_degree_of(self.graph, req_node)
                                                == children@.len());
                                            assert(self.nodes@[ii].spec_required() == k as u32);
                                        } else {
                                            assert(in_degree_of(self.graph, ii as usize)
                                                == in_degree_of(mid.graph, ii as usize));
                                        }
                                    }
                                }
                                if spec_all_reqs_positive(old(self).nodes@) && tree_positive(
                                    *requirement,
                                ) {
                                    assert(trees_positive(opts@, 0));
                                    assert(spec_all_reqs_positive(mid.nodes@));
                                    assert(k >= 1);
                                    assert(spec_all_reqs_positive(self.nodes@));
                                }
                                assert forall|x: usize, rq: usize|
                                    (rq as nat) < old(self).nodes@.len() implies (#[trigger] feeds(
                                        graph_edge_list(self.graph),
                                        x,
                                        rq,
                                    ) <==> feeds(graph_edge_list(old(self).graph), x, rq)) by {
                                    assert((rq as nat) < mid.nodes@.len());
                                    assert(feeds(graph_edge_list(self.graph), x, rq) <==> feeds(
                                        graph_edge_list(mid.graph),
                                        x,
                                        rq,
                                    ));
                                }
                                if spec_group_exclusion(
                                    graph_edge_list(old(self).graph),
                                    old(self).nodes@,
                                ) {
                                    let oldes = graph_edge_list(old(self).graph);
                                    let cures = graph_edge_list(self.graph);
                                    assert forall|k2: int|
                                        0 <= k2 < oldes.len() implies cures[k2] == #[trigger] oldes[k2] by {
                                        assert(oldes[k2] == cures.subrange(
                                            0,
                                            oldes.len() as int,
                                        )[k2]);
                                    }
                                    assert forall|i2: int|
                                        0 <= i2 < old(self).nodes@.len() implies self.nodes@[i2]
                                        == #[trigger] old(self).nodes@[i2] by {
                                        assert(old(self).nodes@[i2] == self.nodes@.subrange(
                                            0,
                                            old(self).nodes@.len() as int,
                                        )[i2]);
                                    }
                                    assert forall|k2: int|
                                        0 <= k2 < graph_edge_list(mid.graph).len() implies cures[k2]
                                        == #[trigger] graph_edge_list(mid.graph)[k2] by {
                                        assert(graph_edge_list(created.graph).is_prefix_of(cures));
                                        assert(graph_edge_list(mid.graph)[k2]
                                            == cures.subrange(
                                            0,
                                            graph_edge_list(mid.graph).len() as int,
                                        )[k2]);
                                    }
                                    assert forall|k2: int|
                                        oldes.len() <= k2 < cures.len() implies (
                                        #[trigger] cures[k2]).2 == EdgeType::SUBREQUIREMENT && ((
                                        cures[k2]).1 as nat) >= old(self).nodes@.len() by {
                                        if k2 >= graph_edge_list(mid.graph).len() {
                                            assert(cures[k2] == (
                                                children@[k2 - graph_edge_list(
                                                    created.graph,
                                                ).len()],
                                                req_node,
                                                EdgeType::SUBREQUIREMENT,
                                            ));
                                        }
                                    }
                                    assert forall|k2: int|
                                        0 <= k2 < oldes.len() implies ((#[trigger] oldes[k2]).0
                                            as nat) < old(self).nodes@.len() && ((
                                        oldes[k2]).1 as nat) < old(self).nodes@.len() by {
                                        assert(old(self).as_graph().edge_ok(oldes[k2]));
                                    }
                                    lemma_group_exclusion_extend(
                                        oldes,
                                        cures,
                                        old(self).nodes@,
                                        self.nodes@,
                                    );
                                }
                                let m0 = old(self).model();
                                assert(spec_parse_list(
                                    opts@,
                                    opts@.len() as int,
                                    root_course_group@,
                                    mid.model(),
                                ).1 =~= Seq::<usize>::empty());
                                assert(children@ + Seq::<usize>::empty() =~= children@);
                                assert(spec_parse_list(opts@, 0, root_course_group@, m0).0
                                    == mid.model());
                                assert(spec_parse_list(opts@, 0, root_course_group@, m0).1
                                    == children@);
                                assert((k as nat) == (if spec_kraw(requirement.required)
                                    < children@.len() {
                                    spec_kraw(requirement.required)
                                } else {
                                    children@.len()
                                }));
                                assert(mid.model().nodes.len() == mid.nodes@.len());
                                assert(req_node as nat == mid.model().nodes.len());
                                assert(created.model() == (BState {
                                    nodes: mid.model().nodes.push(
                                        NodeView::ReqView { gate: k as u32 },
                                    ),
                                    ..mid.model()
                                }));
                                assert(spec_push_child_edges(
                                    self.model(),
                                    children@,
                                    req_node,
                                    children@.len() as int,
                                ) == self.model());
                                assert(spec_push_child_edges(
                                    created.model(),
                                    children@,
                                    req_node,
                                    0,
                                ) == self.model());
                                assert(spec_parse(*requirement, root_course_group@, m0).0
                                    == self.model());
                                assert(spec_parse(*requirement, root_course_group@, m0).1 == Some(
                                    req_node,
                                ));
                            }
                            Some(req_node)
                        }
                    },
                }
            },
            Some(RequirementCollectionType::COURSE) => {
                match requirement.class_reference {
                    Some(course_id) => {
                        match self.find_course_by_id(course_id) {
                            Some(ci) => {
                                let ck = match &self.nodes[ci] {
                                    NodeInfo::CourseNode(c) => c.course_key(),
                                    NodeInfo::RequirementNode(_) => {
                                        proof {
                                            assert(false);
                                        }
                                        String::new()
                                    },
                                };
                                proof {
                                    assert(self.model().nodes[ci as int] == node_view(
                                        self.nodes@[ci as int],
                                    ));
                                    assert(view_key(self.model().nodes[ci as int])
                                        == self.nodes@[ci as int].spec_key());
                                }
                                if ck == *root_course_group {
                                    None
                                } else {
                                    Some(ci)
                                }
                            },
                            None => None,
                        }
                    },
                    None => None,
                }
            },
            None => None,
        }
    }

    /// Places the top-level edge for one requirement tree, computing exactly
    /// what [`spec_attach`] says: `satisfier` feeds the course at
    /// `course_index` under `label`. A satisfier that is itself a course (a
    /// bare course-leaf tree) is first wrapped in a one-of-one requirement
    /// node, so that prerequisite and corequisite edges always leave a
    /// requirement node; the typed edge is then appended exactly when it
    /// would not close a cycle.
    fn attach_top(&mut self, satisfier: usize, course_index: usize, label: EdgeType)
        requires
            old(self).wf(),
            spec_req_counts_ok(old(self).graph, old(self).nodes@),
            (satisfier as nat) < old(self).nodes@.len(),
            (course_index as nat) < old(self).course_ids@.len(),
            label != EdgeType::SUBREQUIREMENT,
            old(self).nodes@.len() + 1 <= u32::MAX as nat,
            graph_edge_list(old(self).graph).len() + 2 <= u32::MAX as nat,
            acyclic(graph_edge_list(old(self).graph)),
            spec_group_exclusion(graph_edge_list(old(self).graph), old(self).nodes@),
            forall|x: usize|
                (x as nat) < old(self).nodes@.len() && (#[trigger] old(
                    self,
                ).nodes@[x as int]) is CourseNode && feeds(
                    graph_edge_list(old(self).graph),
                    x,
                    satisfier,
                ) ==> old(self).nodes@[x as int].spec_key() != old(
                    self,
                ).nodes@[course_index as int].spec_key(),
        ensures
            final(self).wf(),
            acyclic(graph_edge_list(final(self).graph)),
            spec_group_exclusion(graph_edge_list(final(self).graph), final(self).nodes@),
            final(self).model() == spec_attach(
                old(self).model(),
                satisfier,
                course_index,
                label,
            ),
            forall|x: usize, rq: usize|
                (rq as nat) < old(self).nodes@.len() ==> (#[trigger] feeds(
                    graph_edge_list(final(self).graph),
                    x,
                    rq,
                ) <==> feeds(graph_edge_list(old(self).graph), x, rq)),
            spec_req_counts_ok(final(self).graph, final(self).nodes@),
            old(self).nodes@.is_prefix_of(final(self).nodes@),
            final(self).course_ids@ == old(self).course_ids@,
            graph_edge_list(old(self).graph).is_prefix_of(graph_edge_list(final(self).graph)),
            final(self).nodes@.len() <= old(self).nodes@.len() + 1,
            graph_edge_list(final(self).graph).len() <= graph_edge_list(old(self).graph).len() + 2,
            forall|i: int|
                old(self).nodes@.len() <= i < final(self).nodes@.len()
                    ==> (#[trigger] final(self).nodes@[i]) is RequirementNode,
            spec_all_reqs_positive(old(self).nodes@) ==> spec_all_reqs_positive(final(self).nodes@),
            forall|a: usize|
                (a as nat) < old(self).nodes@.len() && a != course_index
                    ==> #[trigger] in_degree_of(final(self).graph, a) == in_degree_of(
                    old(self).graph,
                    a,
                ),
    {
        let is_course_node = match &self.nodes[satisfier] {
            NodeInfo::CourseNode(_) => true,
            NodeInfo::RequirementNode(_) => false,
        };
        let src: usize = if is_course_node {
            let ghost mid = *self;
            let w = self.add_requirement(1);
            let ghost created = *self;
            proof {
                lemma_in_degree_of_absent(created.graph, w);
                assert forall|a: usize| a != w implies #[trigger] in_degree_of(created.graph, a)
                    == in_degree_of(mid.graph, a) by {
                    assert(graph_edge_list(created.graph) == graph_edge_list(mid.graph));
                }
            }
            let ghost gprev = self.graph;
            proof {
                assert forall|m: usize| !#[trigger] has_edge(graph_edge_list(gprev), w, m) by {
                    if has_edge(graph_edge_list(gprev), w, m) {
                        let k = choose|k: int|
                            0 <= k < graph_edge_list(gprev).len() && (#[trigger] graph_edge_list(
                                gprev,
                            )[k]).0 == w && graph_edge_list(gprev)[k].1 == m;
                        assert(mid.as_graph().edge_ok(graph_edge_list(gprev)[k]));
                    }
                }
                lemma_no_out_no_reach(graph_edge_list(gprev), w, satisfier);
            }
            pg_add_edge(&mut self.graph, satisfier, w, EdgeType::SUBREQUIREMENT);
            proof {
                let e = (satisfier, w, EdgeType::SUBREQUIREMENT);
                assert forall|a: usize| true implies #[trigger] in_degree_of(self.graph, a)
                    == in_degree_of(gprev, a) + (if a == w {
                    1nat
                } else {
                    0nat
                }) by {
                    lemma_in_degree_of_push(gprev, self.graph, e, a);
                }
                lemma_acyclic_push(graph_edge_list(gprev), e);
                let cur = graph_edge_list(self.graph);
                let prv = graph_edge_list(gprev);
                assert forall|m: usize| !#[trigger] sub_edge(cur, w, m) by {
                    if sub_edge(cur, w, m) {
                        let k2 = choose|k2: int|
                            0 <= k2 < cur.len() && (#[trigger] cur[k2]).0 == w && cur[k2].1 == m
                                && cur[k2].2 == EdgeType::SUBREQUIREMENT;
                        if k2 < prv.len() {
                            assert(mid.as_graph().edge_ok(prv[k2]));
                        }
                    }
                }
                assert forall|x: usize, rq: usize|
                    (rq as nat) < old(self).nodes@.len() implies (#[trigger] feeds(cur, x, rq)
                        <==> feeds(prv, x, rq)) by {
                    if feeds(cur, x, rq) {
                        lemma_feeds_push(prv, e, x, rq);
                        if !feeds(prv, x, rq) {
                            lemma_no_out_no_feeds(cur, w, rq);
                        }
                    }
                    if feeds(prv, x, rq) {
                        let n2 = choose|n2: nat| feeds_n(prv, x, rq, n2);
                        lemma_feeds_n_mono(prv, cur, x, rq, n2);
                    }
                }
                assert forall|x: usize|
                    (x as nat) < self.nodes@.len() && self.nodes@[x as int] is CourseNode
                        && #[trigger] feeds(cur, x, w) implies self.nodes@[x as int].spec_key()
                    != self.nodes@[course_index as int].spec_key() by {
                    lemma_feeds_push(prv, e, x, w);
                    if feeds(prv, x, w) {
                        assert forall|k2: int|
                            0 <= k2 < prv.len() implies !((#[trigger] prv[k2]).1 == w && prv[k2].2
                                == EdgeType::SUBREQUIREMENT) by {
                            assert(mid.as_graph().edge_ok(prv[k2]));
                        }
                        lemma_feeds_into_leaf(prv, x, w);
                    } else {
                        assert(feeds(prv, x, satisfier));
                        assert((x as nat) < old(self).nodes@.len());
                    }
                }
                lemma_group_exclusion_extend(prv, cur, mid.nodes@, self.nodes@);
                assert(old(self).model().nodes[satisfier as int] == node_view(
                    old(self).nodes@[satisfier as int],
                ));
                assert(old(self).model().nodes[satisfier as int] is CourseView);
                assert(w as nat == old(self).model().nodes.len());
                assert(self.model() == (BState {
                    nodes: old(self).model().nodes.push(NodeView::ReqView { gate: 1 }),
                    edges: old(self).model().edges.push(
                        (satisfier, w, EdgeType::SUBREQUIREMENT),
                    ),
                    ..old(self).model()
                }));
            }
            w
        } else {
            proof {
                assert(old(self).model().nodes[satisfier as int] == node_view(
                    old(self).nodes@[satisfier as int],
                ));
                assert(!(old(self).model().nodes[satisfier as int] is CourseView));
            }
            satisfier
        };
        let ghost before_top = *self;
        let ghost gprev2 = self.graph;
        // a reference whose edge would close a cycle is dropped: the graph
        // stays a directed acyclic graph
        let cycle = self.node_reaches(course_index, src);
        if !cycle {
            pg_add_edge(&mut self.graph, src, course_index, label);
            proof {
                let e = (src, course_index, label);
                assert forall|a: usize| true implies #[trigger] in_degree_of(self.graph, a)
                    == in_degree_of(gprev2, a) + (if a == course_index {
                    1nat
                } else {
                    0nat
                }) by {
                    lemma_in_degree_of_push(gprev2, self.graph, e, a);
                }
                lemma_acyclic_push(graph_edge_list(gprev2), e);
                let cur2 = graph_edge_list(self.graph);
                let prv2 = graph_edge_list(gprev2);
                assert forall|x: usize, rq: usize| true implies (#[trigger] feeds(cur2, x, rq)
                    <==> feeds(prv2, x, rq)) by {
                    if feeds(cur2, x, rq) {
                        lemma_feeds_push(prv2, e, x, rq);
                    }
                    if feeds(prv2, x, rq) {
                        let n2 = choose|n2: nat| feeds_n(prv2, x, rq, n2);
                        lemma_feeds_n_mono(prv2, cur2, x, rq, n2);
                    }
                }
                assert forall|k: int, x: usize|
                    0 <= k < cur2.len() && ((#[trigger] cur2[k]).2 != EdgeType::SUBREQUIREMENT)
                        && (x as nat) < self.nodes@.len() && (
                    #[trigger] self.nodes@[x as int]) is CourseNode && feeds(
                        cur2,
                        x,
                        cur2[k].0,
                    ) implies self.nodes@[x as int].spec_key()
                    != self.nodes@[cur2[k].1 as int].spec_key() by {
                    if k < prv2.len() {
                        assert(cur2[k] == prv2[k]);
                        assert(feeds(prv2, x, prv2[k].0));
                        assert(spec_group_exclusion(prv2, before_top.nodes@));
                    } else {
                        assert(cur2[k] == e);
                        assert(feeds(prv2, x, src));
                    }
                }
                assert(spec_group_exclusion(cur2, self.nodes@));
            }
        }
        proof {
            assert(old(self).nodes@ =~= self.nodes@.subrange(0, old(self).nodes@.len() as int));
            assert(graph_edge_list(old(self).graph) =~= graph_edge_list(self.graph).subrange(
                0,
                graph_edge_list(old(self).graph).len() as int,
            ));
            let m0 = old(self).model();
            let st1 = before_top.model();
            assert(cycle == reaches(st1.edges, course_index, src));
            if is_course_node {
                assert(src as nat == m0.nodes.len());
            }
            if cycle {
                assert(self.model() == st1);
            } else {
                assert(self.model() == (BState {
                    edges: st1.edges.push((src, course_index, label)),
                    ..st1
                }));
            }
            assert(self.model() == spec_attach(m0, satisfier, course_index, label));
        }
    }

    /// Depth-first reachability over the graph as built so far; it decides
    /// whether placing an edge would close a cycle.
    fn node_reaches(&self, from: usize, to: usize) -> (r: bool)
        requires
            self.wf(),
            (from as nat) < self.nodes@.len(),
            (to as nat) < self.nodes@.len(),
        ensures
            r == reaches(graph_edge_list(self.graph), from, to),
    {
        let ghost es = graph_edge_list(self.graph);
        if from == to {
            proof {
                lemma_reaches_refl(es, from);
            }
            return true;
        }
        let n = self.nodes.len();
        let mut visited: Vec<bool> = Vec::new();
        let mut i: usize = 0;
        while i < n
            invariant
                i <= n,
                visited@.len() == i,
                forall|v: int| 0 <= v < i ==> !(#[trigger] visited@[v]),
            decreases n - i,
        {
            visited.push(false);
            i = i + 1;
        }
        let mut stack: Vec<usize> = Vec::new();
        visited[from] = true;
        stack.push(from);
        proof {
            lemma_reaches_refl(es, from);
            assert(stack@[0] == from);
            assert(stack@.contains(from));
            assert forall|k: int|
                0 <= k < es.len() && visited@[(#[trigger] es[k]).0 as int] implies stack@.contains(
                es[k].0,
            ) by {
                assert(self.as_graph().edge_ok(es[k]));
                assert(es[k].0 == from);
            }
        }
        while stack.len() > 0
            invariant
                self.wf(),
                es == graph_edge_list(self.graph),
                visited@.len() == self.nodes@.len(),
                (from as nat) < self.nodes@.len(),
                (to as nat) < self.nodes@.len(),
                from != to,
                !visited@[to as int],
                visited@[from as int],
                forall|s: int|
                    0 <= s < stack@.len() ==> ((#[trigger] stack@[s]) as nat) < self.nodes@.len()
                        && visited@[stack@[s] as int],
                forall|v: int|
                    0 <= v < visited@.len() && #[trigger] visited@[v] ==> reaches(
                        es,
                        from,
                        v as usize,
                    ),
                forall|k: int|
                    0 <= k < es.len() ==> ((visited@[(#[trigger] es[k]).0 as int]
                        && !stack@.contains(es[k].0)) ==> visited@[es[k].1 as int]),
            decreases count_false(visited@), stack@.len(),
        {
            let ghost cf0 = count_false(visited@);
            let ghost stack0 = stack@;
            let u = match stack.pop() {
                Some(x) => x,
                None => {
                    proof {
                        assert(false);
                    }
                    0
                },
            };
            proof {
                assert(stack@ == stack0.drop_last());
                assert(stack0[stack0.len() - 1] == u);
                assert forall|src: usize| !stack@.contains(src) && src != u implies !stack0.contains(
                    src,
                ) by {
                    if stack0.contains(src) {
                        let idx = choose|idx: int| 0 <= idx < stack0.len() && stack0[idx] == src;
                        assert(stack@[idx] == src);
                    }
                }
                assert(self.as_graph().wf());
                crate::pipeline::lemma_out_edges_in_range(self.as_graph(), u);
            }
            let outs = pg_out_edges(&self.graph, u);
            let mut j: usize = 0;
            while j < outs.len()
                invariant
                    self.wf(),
                    es == graph_edge_list(self.graph),
                    (u as nat) < self.nodes@.len(),
                    outs@ == out_edge_list(self.graph, u),
                    j <= outs@.len(),
                    visited@.len() == self.nodes@.len(),
                    (from as nat) < self.nodes@.len(),
                    (to as nat) < self.nodes@.len(),
                    from != to,
                    !visited@[to as int],
                    visited@[from as int],
                    visited@[u as int],
                    forall|s: int|
                        0 <= s < stack@.len() ==> ((#[trigger] stack@[s]) as nat)
                            < self.nodes@.len() && visited@[stack@[s] as int],
                    forall|v: int|
                        0 <= v < visited@.len() && #[trigger] visited@[v] ==> reaches(
                            es,
                            from,
                            v as usize,
                        ),
                    forall|k: int|
                        0 <= k < es.len() ==> ((visited@[(#[trigger] es[k]).0 as int]
                            && !stack@.contains(es[k].0) && es[k].0 != u) ==> visited@[es[k].1 as int]),
                    forall|jj: int|
                        0 <= jj < outs@.len() ==> ((#[trigger] outs@[jj]).0 as nat)
                            < self.nodes@.len(),
                    forall|jj: int|
                        0 <= jj < j ==> visited@[(#[trigger] outs@[jj]).0 as int],
                    count_false(visited@) + stack@.len() == cf0 + stack0.len() - 1,
                    count_false(visited@) <= cf0,
                decreases outs@.len() - j,
            {
                let e = outs[j];
                let v = e.0;
                let ghost vprev = visited@;
                let ghost sprev = stack@;
                proof {
                    lemma_out_edge_entry(self.graph, u, j as int);
                    let oj = outs@[j as int];
                    let k = choose|k: int|
                        0 <= k < es.len() && #[trigger] es[k] == (u, oj.0, oj.1);
                    assert(self.as_graph().edge_ok(es[k]));
                    assert(has_edge(es, u, v));
                    lemma_reaches_step(es, u, v);
                    lemma_reaches_trans(es, from, u, v);
                }
                if v == to {
                    return true;
                }
                if !visited[v] {
                    visited[v] = true;
                    stack.push(v);
                    proof {
                        lemma_count_false_update(vprev, v as int);
                    }
                }
                proof {
                    if visited@ != vprev {
                        assert(stack@ == sprev.push(v));
                        assert(stack@[stack@.len() - 1] == v);
                        assert(stack@.contains(v));
                        assert forall|src: usize| sprev.contains(src) implies stack@.contains(
                            src,
                        ) by {
                            let idx = choose|idx: int| 0 <= idx < sprev.len() && sprev[idx] == src;
                            assert(stack@[idx] == src);
                        }
                    }
                }
                j = j + 1;
            }
            proof {
                assert forall|k: int|
                    0 <= k < es.len() && (#[trigger] es[k]).0 == u implies visited@[es[k].1 as int] by {
                    crate::pgraph::lemma_out_edge_complete(self.graph, u, k);
                    let ii = choose|ii: int|
                        0 <= ii < out_edge_list(self.graph, u).len() && (#[trigger] out_edge_list(
                            self.graph,
                            u,
                        )[ii]).0 == es[k].1;
                    assert(visited@[outs@[ii].0 as int]);
                }
            }
        }
        proof {
            if reaches(es, from, to) {
                let nn = choose|nn: nat| reaches_n(es, from, to, nn);
                assert forall|k: int|
                    0 <= k < es.len() implies ((#[trigger] es[k]).1 as nat) < visited@.len() by {
                    assert(self.as_graph().edge_ok(es[k]));
                }
                lemma_closed(es, visited@, from, to, nn);
            }
        }
        false
    }

    fn find_course_by_id(&self, id: u64) -> (r: Option<usize>)
        requires
            self.wf(),
        ensures
            r == spec_find_id(self.course_ids@, id),
            r matches Some(v) ==> v < self.course_ids@.len() && self.nodes@[v as int] is CourseNode,
    {
        let mut i: usize = self.course_ids.len();
        proof {
            assert(self.course_ids@.take(i as int) =~= self.course_ids@);
        }
        while i > 0
            invariant
                self.wf(),
                i <= self.course_ids@.len(),
                spec_find_id(self.course_ids@, id) == spec_find_id(
                    self.course_ids@.take(i as int),
                    id,
                ),
            decreases i,
        {
            i = i - 1;
            proof {
                assert(self.course_ids@.take(i + 1).drop_last() =~= self.course_ids@.take(i as int));
                assert(self.course_ids@.take(i + 1).last() == self.course_ids@[i as int]);
            }
            if self.course_ids[i] == id {
                return Some(i);
            }
        }
        None
    }
}

/// The node and edge budget that translating one catalog record can use
/// beyond its own course node.
pub open spec fn course_rest_weight(c: NebulaCourse) -> nat {
    7 + tree_weight(c.prerequisites) + tree_weight(c.corequisites) + tree_weight(
        c.co_or_pre_requisites,
    )
}

/// The combined budget of the records `db[i..]`.
pub open spec fn spec_db_rest(db: Seq<NebulaCourse>, i: int) -> nat
    decreases db.len() - i,
{
    if i < 0 || i >= db.len() {
        0
    } else {
        course_rest_weight(db[i]) + spec_db_rest(db, i + 1)
    }
}

/// Every requirement tree in the catalog asks for at least one option.
pub open spec fn spec_db_positive(db: Seq<NebulaCourse>) -> bool {
    forall|i: int|
        0 <= i < db.len() ==> tree_positive((#[trigger] db[i]).prerequisites) && tree_positive(
            db[i].corequisites,
        ) && tree_positive(db[i].co_or_pre_requisites)
}

impl CourseGraphBuilder {
    /// Builds the graph: one course node per record, then each record's three
    /// requirement trees, with the prerequisite tree feeding its course under
    /// a prerequisite edge and both corequisite trees under corequisite
    /// edges. The result's nodes and edges are exactly those of the
    /// functional model [`spec_build`], so the contract determines the whole
    /// graph.
    ///
    /// Once built, the graph is acyclic and self-excluding, every requirement
    /// node's gate is at most its in-degree with at least one incoming edge;
    /// and when every collection in the catalog asks for at least one option,
    /// every gate is at least one even after clamping.
    #[verifier::rlimit(100)]
    pub fn build_from_db(course_database: &Vec<NebulaCourse>) -> (g: CourseGraph)
        requires
            forall|i: int| 0 <= i < course_database@.len() ==> (#[trigger] course_database@[i]).wf(),
            course_database@.len() + spec_db_rest(course_database@, 0) <= u32::MAX as nat,
        ensures
            g.wf(),
            acyclic(graph_edge_list(g.graph)),
            spec_group_exclusion(graph_edge_list(g.graph), g.nodes@),
            nodes_view(g.nodes@) == spec_build(course_database@).nodes,
            graph_edge_list(g.graph) == spec_build(course_database@).edges,
            spec_req_counts_ok(g.graph, g.nodes@),
            spec_db_positive(course_database@) ==> spec_all_reqs_positive(g.nodes@),
            course_database@.len() <= g.nodes@.len(),
            forall|i: int|
                0 <= i < g.nodes@.len() ==> ((#[trigger] g.nodes@[i]) is CourseNode <==> i
                    < course_database@.len()),
            forall|i: int|
                0 <= i < course_database@.len() ==> ((#[trigger] g.nodes@[i])
                    matches NodeInfo::CourseNode(c) && c.subject_prefix@
                    == course_database@[i].subject_prefix@ && c.course_number@
                    == course_database@[i].course_number@),
    {
        let ghost db = course_database@;
        let mut b = CourseGraphBuilder::default();
        let mut i: usize = 0;
        let ghost empty_state = BState {
            nodes: Seq::<NodeView>::empty(),
            edges: Seq::<(usize, usize, EdgeType)>::empty(),
            ids: Seq::<u64>::empty(),
        };
        proof {
            lemma_db_rest_lower(db, 0);
            assert(nodes_view(b.nodes@) =~= empty_state.nodes);
            assert(b.model() == empty_state);
        }
        while i < course_database.len()
            invariant
                b.wf(),
                i <= db.len(),
                course_database@ == db,
                forall|j: int| 0 <= j < db.len() ==> (#[trigger] db[j]).wf(),
                db.len() + spec_db_rest(db, 0) <= u32::MAX as nat,
                b.nodes@.len() == i,
                b.course_ids@.len() == i,
                graph_edge_list(b.graph).len() == 0,
                empty_state == (BState {
                    nodes: Seq::<NodeView>::empty(),
                    edges: Seq::<(usize, usize, EdgeType)>::empty(),
                    ids: Seq::<u64>::empty(),
                }),
                spec_course_pass(db, 0, empty_state) == spec_course_pass(db, i as int, b.model()),
                forall|j: int|
                    0 <= j < i ==> ((#[trigger] b.nodes@[j]) matches NodeInfo::CourseNode(c)
                        && c.subject_prefix@ == db[j].subject_prefix@ && c.course_number@
                        == db[j].course_number@),
            decreases db.len() - i,
        {
            let ghost pm = b.model();
            b.add_course(&course_database[i]);
            proof {
                assert(spec_course_pass(db, i as int, pm) == spec_course_pass(
                    db,
                    i + 1,
                    b.model(),
                ));
            }
            i = i + 1;
        }
        let ghost m1 = b.model();
        proof {
            assert(spec_course_pass(db, db.len() as int, m1) == m1);
            assert(spec_course_pass(db, 0, empty_state) == m1);
            assert(spec_req_counts_ok(b.graph, b.nodes@));
            assert(acyclic(graph_edge_list(b.graph))) by {
                assert forall|a: usize, bb: usize| !#[trigger] has_edge(
                    graph_edge_list(b.graph),
                    a,
                    bb,
                ) by {}
            }
        }
        let mut i2: usize = 0;
        while i2 < course_database.len()
            invariant
                b.wf(),
                acyclic(graph_edge_list(b.graph)),
                spec_group_exclusion(graph_edge_list(b.graph), b.nodes@),
                spec_req_counts_ok(b.graph, b.nodes@),
                i2 <= db.len(),
                course_database@ == db,
                forall|j: int| 0 <= j < db.len() ==> (#[trigger] db[j]).wf(),
                db.len() + spec_db_rest(db, 0) <= u32::MAX as nat,
                b.course_ids@.len() == db.len(),
                db.len() <= b.nodes@.len(),
                spec_requirement_pass(db, 0, m1) == spec_requirement_pass(
                    db,
                    i2 as int,
                    b.model(),
                ),
                b.nodes@.len() + spec_db_rest(db, i2 as int) <= db.len() + spec_db_rest(db, 0),
                graph_edge_list(b.graph).len() + spec_db_rest(db, i2 as int) <= spec_db_rest(db, 0),
                forall|j: int|
                    0 <= j < db.len() ==> ((#[trigger] b.nodes@[j]) matches NodeInfo::CourseNode(c)
                        && c.subject_prefix@ == db[j].subject_prefix@ && c.course_number@
                        == db[j].course_number@),
                spec_db_positive(db) ==> spec_all_reqs_positive(b.nodes@),
            decreases db.len() - i2,
        {
            proof {
                assert(spec_db_rest(db, i2 as int) == course_rest_weight(db[i2 as int])
                    + spec_db_rest(db, i2 + 1));
            }
            let ghost s0 = b;
            let course_key = course_database[i2].course_key();
            let pre = b.parse_requirement(&course_database[i2].prerequisites, &course_key);
            let ghost s1 = b;
            if let Some(idx) = pre {
                proof {
                    lemma_prefix_index(s0.nodes@, b.nodes@, i2 as int);
                    assert(b.nodes@[i2 as int] == s0.nodes@[i2 as int]);
                    assert(course_key@ == b.nodes@[i2 as int].spec_key());
                    assert forall|x: usize|
                        (x as nat) < b.nodes@.len() && (#[trigger] b.nodes@[x as int]) is CourseNode
                            && feeds(graph_edge_list(b.graph), x, idx) implies b.nodes@[x as int].spec_key()
                        != b.nodes@[i2 as int].spec_key() by {
                        if b.nodes@[idx as int] is CourseNode {
                            assert forall|k2: int|
                                0 <= k2 < graph_edge_list(b.graph).len() implies !((
                            #[trigger] graph_edge_list(b.graph)[k2]).1 == idx && graph_edge_list(
                                b.graph,
                            )[k2].2 == EdgeType::SUBREQUIREMENT) by {
                                assert(b.as_graph().edge_ok(graph_edge_list(b.graph)[k2]));
                            }
                            lemma_feeds_into_leaf(graph_edge_list(b.graph), x, idx);
                        }
                    }
                }
                b.attach_top(idx, i2, EdgeType::PREREQUISITE);
            }
            let ghost s2 = b;
            proof {
                lemma_prefix_trans(s0.nodes@, s1.nodes@, s2.nodes@);
                lemma_prefix_trans(
                    graph_edge_list(s0.graph),
                    graph_edge_list(s1.graph),
                    graph_edge_list(s2.graph),
                );
            }
            let co = b.parse_requirement(&course_database[i2].corequisites, &course_key);
            let ghost s3 = b;
            proof {
                lemma_prefix_trans(s0.nodes@, s2.nodes@, s3.nodes@);
                lemma_prefix_trans(
                    graph_edge_list(s0.graph),
                    graph_edge_list(s2.graph),
                    graph_edge_list(s3.graph),
                );
            }
            if let Some(idx) = co {
                proof {
                    lemma_prefix_index(s0.nodes@, b.nodes@, i2 as int);
                    assert(b.nodes@[i2 as int] == s0.nodes@[i2 as int]);
                    assert(course_key@ == b.nodes@[i2 as int].spec_key());
                    assert forall|x: usize|
                        (x as nat) < b.nodes@.len() && (#[trigger] b.nodes@[x as int]) is CourseNode
                            && feeds(graph_edge_list(b.graph), x, idx) implies b.nodes@[x as int].spec_key()
                        != b.nodes@[i2 as int].spec_key() by {
                        if b.nodes@[idx as int] is CourseNode {
                            assert forall|k2: int|
                                0 <= k2 < graph_edge_list(b.graph).len() implies !((
                            #[trigger] graph_edge_list(b.graph)[k2]).1 == idx && graph_edge_list(
                                b.graph,
                            )[k2].2 == EdgeType::SUBREQUIREMENT) by {
                                assert(b.as_graph().edge_ok(graph_edge_list(b.graph)[k2]));
                            }
                            lemma_feeds_into_leaf(graph_edge_list(b.graph), x, idx);
                        }
                    }
                }
                b.attach_top(idx, i2, EdgeType::COREQUISITE);
            }
            let ghost s4 = b;
            proof {
                lemma_prefix_trans(s0.nodes@, s3.nodes@, s4.nodes@);
                lemma_prefix_trans(
                    graph_edge_list(s0.graph),
                    graph_edge_list(s3.graph),
                    graph_edge_list(s4.graph),
                );
            }
            let cop = b.parse_requirement(&course_database[i2].co_or_pre_requisites, &course_key);
            let ghost s5 = b;
            proof {
                lemma_prefix_trans(s0.nodes@, s4.nodes@, s5.nodes@);
                lemma_prefix_trans(
                    graph_edge_list(s0.graph),
                    graph_edge_list(s4.graph),
                    graph_edge_list(s5.graph),
                );
            }
            if let Some(idx) = cop {
                proof {
                    lemma_prefix_index(s0.nodes@, b.nodes@, i2 as int);
                    assert(b.nodes@[i2 as int] == s0.nodes@[i2 as int]);
                    assert(course_key@ == b.nodes@[i2 as int].spec_key());
                    assert forall|x: usize|
                        (x as nat) < b.nodes@.len() && (#[trigger] b.nodes@[x as int]) is CourseNode
                            && feeds(graph_edge_list(b.graph), x, idx) implies b.nodes@[x as int].spec_key()
                        != b.nodes@[i2 as int].spec_key() by {
                        if b.nodes@[idx as int] is CourseNode {
                            assert forall|k2: int|
                                0 <= k2 < graph_edge_list(b.graph).len() implies !((
                            #[trigger] graph_edge_list(b.graph)[k2]).1 == idx && graph_edge_list(
                                b.graph,
                            )[k2].2 == EdgeType::SUBREQUIREMENT) by {
                                assert(b.as_graph().edge_ok(graph_edge_list(b.graph)[k2]));
                            }
                            lemma_feeds_into_leaf(graph_edge_list(b.graph), x, idx);
                        }
                    }
                }
                b.attach_top(idx, i2, EdgeType::COREQUISITE);
            }
            proof {
                lemma_prefix_trans(s0.nodes@, s5.nodes@, b.nodes@);
                assert forall|j: int| 0 <= j < db.len() implies #[trigger] b.nodes@[j]
                    == s0.nodes@[j] by {
                    lemma_prefix_index(s0.nodes@, b.nodes@, j);
                }
                let rk = spec_course_key(
                    db[i2 as int].subject_prefix@,
                    db[i2 as int].course_number@,
                );
                assert(course_key@ == rk);
                assert(s1.model() == spec_parse(db[i2 as int].prerequisites, rk, s0.model()).0);
                assert(pre == spec_parse(db[i2 as int].prerequisites, rk, s0.model()).1);
                assert(s2.model() == spec_attach_tree(s1.model(), pre, i2, EdgeType::PREREQUISITE));
                assert(s3.model() == spec_parse(db[i2 as int].corequisites, rk, s2.model()).0);
                assert(co == spec_parse(db[i2 as int].corequisites, rk, s2.model()).1);
                assert(s4.model() == spec_attach_tree(s3.model(), co, i2, EdgeType::COREQUISITE));
                assert(s5.model() == spec_parse(
                    db[i2 as int].co_or_pre_requisites,
                    rk,
                    s4.model(),
                ).0);
                assert(cop == spec_parse(db[i2 as int].co_or_pre_requisites, rk, s4.model()).1);
                assert(b.model() == spec_attach_tree(s5.model(), cop, i2, EdgeType::COREQUISITE));
                assert(spec_build_course(db, i2 as int, s0.model()) == b.model());
                assert(spec_requirement_pass(db, i2 as int, s0.model()) == spec_requirement_pass(
                    db,
                    i2 + 1,
                    b.model(),
                ));
            }
            i2 = i2 + 1;
        }
        proof {
            assert(spec_requirement_pass(db, db.len() as int, b.model()) == b.model());
            assert(spec_requirement_pass(db, 0, m1) == b.model());
            assert(spec_build(db) == b.model());
        }
        CourseGraph { graph: b.graph, nodes: b.nodes }
    }
}

pub proof fn lemma_db_rest_lower(db: Seq<NebulaCourse>, i: int)
    requires
        0 <= i <= db.len(),
    ensures
        spec_db_rest(db, i) >= 7 * (db.len() - i),
    decreases db.len() - i,
{
    if i < db.len() {
        lemma_db_rest_lower(db, i + 1);
    }
}

impl Default for CourseGraphBuilder {
    fn default() -> (r: CourseGraphBuilder)
        ensures
            r.wf(),
            r.nodes@ == Seq::<NodeInfo>::empty(),
            r.course_ids@ == Seq::<u64>::empty(),
            graph_edge_list(r.graph) == Seq::<(usize, usize, EdgeType)>::empty(),
    {
        CourseGraphBuilder::new()
    }
}

} // verus!
