//! Reachability over an edge list, and what edge insertion does to it. The
//! builder checks reachability before placing a top-level edge, so every
//! built graph is acyclic.

use vstd::prelude::*;

use crate::graph::EdgeType;

verus! {

pub open spec fn has_edge(es: Seq<(usize, usize, EdgeType)>, a: usize, b: usize) -> bool {
    exists|k: int| 0 <= k < es.len() && (#[trigger] es[k]).0 == a && es[k].1 == b
}

/// `b` can be reached from `a` along at most `n` edges.
pub open spec fn reaches_n(es: Seq<(usize, usize, EdgeType)>, a: usize, b: usize, n: nat) -> bool
    decreases n,
{
    a == b || (n > 0 && exists|m: usize|
        #[trigger] has_edge(es, a, m) && reaches_n(es, m, b, (n - 1) as nat))
}

pub open spec fn reaches(es: Seq<(usize, usize, EdgeType)>, a: usize, b: usize) -> bool {
    exists|n: nat| reaches_n(es, a, b, n)
}

/// No edge closes a cycle: nothing reaches back to the source of any edge
/// from its target.
pub open spec fn acyclic(es: Seq<(usize, usize, EdgeType)>) -> bool {
    forall|a: usize, b: usize| #[trigger] has_edge(es, a, b) ==> !reaches(es, b, a)
}

pub proof fn lemma_reaches_step(es: Seq<(usize, usize, EdgeType)>, a: usize, m: usize)
    requires
        has_edge(es, a, m),
    ensures
        reaches_n(es, a, m, 1),
{
    assert(reaches_n(es, m, m, 0));
}

pub proof fn lemma_reaches_refl(es: Seq<(usize, usize, EdgeType)>, a: usize)
    ensures
        reaches(es, a, a),
{
    assert(reaches_n(es, a, a, 0));
}

pub proof fn lemma_reaches_n_mono(
    es1: Seq<(usize, usize, EdgeType)>,
    es2: Seq<(usize, usize, EdgeType)>,
    a: usize,
    b: usize,
    n: nat,
)
    requires
        reaches_n(es1, a, b, n),
        forall|k: int| 0 <= k < es1.len() ==> es2[k] == #[trigger] es1[k],
        es1.len() <= es2.len(),
    ensures
        reaches_n(es2, a, b, n),
    decreases n,
{
    if a != b {
        let m = choose|m: usize| has_edge(es1, a, m) && reaches_n(es1, m, b, (n - 1) as nat);
        let k = choose|k: int| 0 <= k < es1.len() && (#[trigger] es1[k]).0 == a && es1[k].1 == m;
        assert(es2[k].0 == a && es2[k].1 == m);
        assert(has_edge(es2, a, m));
        lemma_reaches_n_mono(es1, es2, m, b, (n - 1) as nat);
    }
}

pub proof fn lemma_reaches_trans_n(
    es: Seq<(usize, usize, EdgeType)>,
    a: usize,
    b: usize,
    c: usize,
    n1: nat,
    n2: nat,
)
    requires
        reaches_n(es, a, b, n1),
        reaches_n(es, b, c, n2),
    ensures
        reaches_n(es, a, c, n1 + n2),
    decreases n1,
{
    if a == b {
        lemma_reaches_pad(es, b, c, n2, n1 + n2);
    } else {
        let m = choose|m: usize| has_edge(es, a, m) && reaches_n(es, m, b, (n1 - 1) as nat);
        lemma_reaches_trans_n(es, m, b, c, (n1 - 1) as nat, n2);
    }
}

/// More fuel never hurts.
pub proof fn lemma_reaches_pad(es: Seq<(usize, usize, EdgeType)>, a: usize, b: usize, n: nat, m: nat)
    requires
        reaches_n(es, a, b, n),
        n <= m,
    ensures
        reaches_n(es, a, b, m),
    decreases n,
{
    if a != b {
        let w = choose|w: usize| has_edge(es, a, w) && reaches_n(es, w, b, (n - 1) as nat);
        lemma_reaches_pad(es, w, b, (n - 1) as nat, (m - 1) as nat);
    }
}

pub proof fn lemma_reaches_trans(
    es: Seq<(usize, usize, EdgeType)>,
    a: usize,
    b: usize,
    c: usize,
)
    requires
        reaches(es, a, b),
        reaches(es, b, c),
    ensures
        reaches(es, a, c),
{
    let n1 = choose|n1: nat| reaches_n(es, a, b, n1);
    let n2 = choose|n2: nat| reaches_n(es, b, c, n2);
    lemma_reaches_trans_n(es, a, b, c, n1, n2);
}

/// A node with no outgoing edge reaches nothing but itself.
pub proof fn lemma_no_out_no_reach(es: Seq<(usize, usize, EdgeType)>, b: usize, a: usize)
    requires
        forall|m: usize| !#[trigger] has_edge(es, b, m),
        b != a,
    ensures
        !reaches(es, b, a),
{
    assert forall|n: nat| !reaches_n(es, b, a, n) by {
        if reaches_n(es, b, a, n) {
            let m = choose|m: usize| has_edge(es, b, m) && reaches_n(es, m, a, (n - 1) as nat);
        }
    }
}

/// A set of nodes that contains `a` and is closed under edges contains
/// everything reachable from `a`.
pub proof fn lemma_closed(
    es: Seq<(usize, usize, EdgeType)>,
    vis: Seq<bool>,
    a: usize,
    b: usize,
    n: nat,
)
    requires
        reaches_n(es, a, b, n),
        (a as nat) < vis.len(),
        (b as nat) < vis.len(),
        vis[a as int],
        forall|k: int| 0 <= k < es.len() ==> ((#[trigger] es[k]).1 as nat) < vis.len(),
        forall|k: int|
            0 <= k < es.len() ==> (vis[(#[trigger] es[k]).0 as int] ==> vis[es[k].1 as int]),
    ensures
        vis[b as int],
    decreases n,
{
    if a != b {
        let m = choose|m: usize| has_edge(es, a, m) && reaches_n(es, m, b, (n - 1) as nat);
        let k = choose|k: int| 0 <= k < es.len() && (#[trigger] es[k]).0 == a && es[k].1 == m;
        assert(vis[m as int]);
        lemma_closed(es, vis, m, b, (n - 1) as nat);
    }
}

/// A path in the extended list either avoids the new edge, or runs through
/// the old list up to the new edge's source and continues from its target.
pub proof fn lemma_reaches_n_push(
    es: Seq<(usize, usize, EdgeType)>,
    e: (usize, usize, EdgeType),
    a: usize,
    b: usize,
    n: nat,
)
    requires
        reaches_n(es.push(e), a, b, n),
    ensures
        reaches(es, a, b) || (reaches(es, a, e.0) && reaches(es.push(e), e.1, b)),
    decreases n,
{
    if a == b {
        lemma_reaches_refl(es, a);
    } else {
        let es2 = es.push(e);
        let m = choose|m: usize| has_edge(es2, a, m) && reaches_n(es2, m, b, (n - 1) as nat);
        let k = choose|k: int| 0 <= k < es2.len() && (#[trigger] es2[k]).0 == a && es2[k].1 == m;
        if k < es.len() {
            // the first step is an old edge
            assert(es[k] == es2[k]);
            assert(has_edge(es, a, m));
            lemma_reaches_step(es, a, m);
            lemma_reaches_n_push(es, e, m, b, (n - 1) as nat);
            if reaches(es, m, b) {
                lemma_reaches_trans(es, a, m, b);
            } else {
                lemma_reaches_trans(es, a, m, e.0);
            }
        } else {
            // the first step is the new edge itself: a == e.0, m == e.1
            assert(es2[k] == e);
            lemma_reaches_refl(es, a);
        }
    }
}

pub proof fn lemma_reaches_push(
    es: Seq<(usize, usize, EdgeType)>,
    e: (usize, usize, EdgeType),
    a: usize,
    b: usize,
)
    requires
        reaches(es.push(e), a, b),
    ensures
        reaches(es, a, b) || (reaches(es, a, e.0) && reaches(es.push(e), e.1, b)),
{
    let n = choose|n: nat| reaches_n(es.push(e), a, b, n);
    lemma_reaches_n_push(es, e, a, b, n);
}

/// A subrequirement edge from `a` to `b`.
pub open spec fn sub_edge(es: Seq<(usize, usize, EdgeType)>, a: usize, b: usize) -> bool {
    exists|k: int|
        0 <= k < es.len() && (#[trigger] es[k]).0 == a && es[k].1 == b && es[k].2
            == EdgeType::SUBREQUIREMENT
}

/// `a` feeds `b` through a chain of at most `n` subrequirement edges.
pub open spec fn feeds_n(es: Seq<(usize, usize, EdgeType)>, a: usize, b: usize, n: nat) -> bool
    decreases n,
{
    a == b || (n > 0 && exists|m: usize|
        #[trigger] sub_edge(es, a, m) && feeds_n(es, m, b, (n - 1) as nat))
}

/// `a` contributes to `b` through subrequirement chains alone.
pub open spec fn feeds(es: Seq<(usize, usize, EdgeType)>, a: usize, b: usize) -> bool {
    exists|n: nat| feeds_n(es, a, b, n)
}

pub proof fn lemma_feeds_refl(es: Seq<(usize, usize, EdgeType)>, a: usize)
    ensures
        feeds(es, a, a),
{
    assert(feeds_n(es, a, a, 0));
}

pub proof fn lemma_feeds_extend(es: Seq<(usize, usize, EdgeType)>, a: usize, m: usize, b: usize)
    requires
        sub_edge(es, a, m),
        feeds(es, m, b),
    ensures
        feeds(es, a, b),
{
    let n = choose|n: nat| feeds_n(es, m, b, n);
    assert(feeds_n(es, a, b, n + 1));
}

pub proof fn lemma_feeds_n_mono(
    es1: Seq<(usize, usize, EdgeType)>,
    es2: Seq<(usize, usize, EdgeType)>,
    a: usize,
    b: usize,
    n: nat,
)
    requires
        feeds_n(es1, a, b, n),
        forall|k: int| 0 <= k < es1.len() ==> es2[k] == #[trigger] es1[k],
        es1.len() <= es2.len(),
    ensures
        feeds_n(es2, a, b, n),
    decreases n,
{
    if a != b {
        let m = choose|m: usize| sub_edge(es1, a, m) && feeds_n(es1, m, b, (n - 1) as nat);
        let k = choose|k: int|
            0 <= k < es1.len() && (#[trigger] es1[k]).0 == a && es1[k].1 == m && es1[k].2
                == EdgeType::SUBREQUIREMENT;
        assert(es2[k] == es1[k]);
        assert(sub_edge(es2, a, m));
        lemma_feeds_n_mono(es1, es2, m, b, (n - 1) as nat);
    }
}

/// When every appended subrequirement edge points at or above `bound`, the
/// feeding relation into anything below `bound` is frozen: the old list
/// already carries the chain, which also starts below `bound`.
pub proof fn lemma_feeds_frozen(
    es1: Seq<(usize, usize, EdgeType)>,
    es2: Seq<(usize, usize, EdgeType)>,
    x: usize,
    r: usize,
    bound: nat,
    n: nat,
)
    requires
        feeds_n(es2, x, r, n),
        es1.len() <= es2.len(),
        forall|k: int| 0 <= k < es1.len() ==> es2[k] == #[trigger] es1[k],
        forall|k: int|
            es1.len() <= k < es2.len() ==> (((#[trigger] es2[k]).1 as nat) >= bound || es2[k].2
                != EdgeType::SUBREQUIREMENT),
        forall|k: int|
            0 <= k < es1.len() ==> ((#[trigger] es1[k]).0 as nat) < bound && ((es1[k]).1 as nat)
                < bound,
        (r as nat) < bound,
    ensures
        feeds(es1, x, r),
        (x as nat) < bound,
    decreases n,
{
    if x == r {
        lemma_feeds_refl(es1, x);
    } else {
        let m = choose|m: usize| sub_edge(es2, x, m) && feeds_n(es2, m, r, (n - 1) as nat);
        lemma_feeds_frozen(es1, es2, m, r, bound, (n - 1) as nat);
        let k = choose|k: int|
            0 <= k < es2.len() && (#[trigger] es2[k]).0 == x && es2[k].1 == m && es2[k].2
                == EdgeType::SUBREQUIREMENT;
        assert(k < es1.len());
        assert(es1[k] == es2[k]);
        assert(sub_edge(es1, x, m));
        lemma_feeds_extend(es1, x, m, r);
    }
}

/// A chain in the extended list either avoids the new edge, or runs through
/// the old list to the new edge's source.
pub proof fn lemma_feeds_n_push(
    es: Seq<(usize, usize, EdgeType)>,
    e: (usize, usize, EdgeType),
    a: usize,
    b: usize,
    n: nat,
)
    requires
        feeds_n(es.push(e), a, b, n),
    ensures
        feeds(es, a, b) || (e.2 == EdgeType::SUBREQUIREMENT && feeds(es, a, e.0) && feeds(
            es.push(e),
            e.1,
            b,
        )),
    decreases n,
{
    if a == b {
        lemma_feeds_refl(es, a);
    } else {
        let es2 = es.push(e);
        let m = choose|m: usize| sub_edge(es2, a, m) && feeds_n(es2, m, b, (n - 1) as nat);
        let k = choose|k: int|
            0 <= k < es2.len() && (#[trigger] es2[k]).0 == a && es2[k].1 == m && es2[k].2
                == EdgeType::SUBREQUIREMENT;
        if k < es.len() {
            assert(es[k] == es2[k]);
            assert(sub_edge(es, a, m));
            lemma_feeds_n_push(es, e, m, b, (n - 1) as nat);
            if feeds(es, m, b) {
                lemma_feeds_extend(es, a, m, b);
            } else {
                lemma_feeds_extend(es, a, m, e.0);
            }
        } else {
            assert(es2[k] == e);
            lemma_feeds_refl(es, a);
        }
    }
}

pub proof fn lemma_feeds_push(
    es: Seq<(usize, usize, EdgeType)>,
    e: (usize, usize, EdgeType),
    a: usize,
    b: usize,
)
    requires
        feeds(es.push(e), a, b),
    ensures
        feeds(es, a, b) || (e.2 == EdgeType::SUBREQUIREMENT && feeds(es, a, e.0) && feeds(
            es.push(e),
            e.1,
            b,
        )),
{
    let n = choose|n: nat| feeds_n(es.push(e), a, b, n);
    lemma_feeds_n_push(es, e, a, b, n);
}

/// A node with no outgoing subrequirement edge feeds nothing but itself.
pub proof fn lemma_no_out_no_feeds(es: Seq<(usize, usize, EdgeType)>, b: usize, a: usize)
    requires
        forall|m: usize| !#[trigger] sub_edge(es, b, m),
        b != a,
    ensures
        !feeds(es, b, a),
{
    assert forall|n: nat| !feeds_n(es, b, a, n) by {
        if feeds_n(es, b, a, n) {
            let m = choose|m: usize| sub_edge(es, b, m) && feeds_n(es, m, a, (n - 1) as nat);
        }
    }
}

/// Nothing feeds a node that no subrequirement edge enters, except itself.
pub proof fn lemma_feeds_into_leaf(es: Seq<(usize, usize, EdgeType)>, x: usize, c: usize)
    requires
        forall|k: int|
            0 <= k < es.len() ==> !((#[trigger] es[k]).1 == c && es[k].2
                == EdgeType::SUBREQUIREMENT),
        feeds(es, x, c),
    ensures
        x == c,
{
    let n = choose|n: nat| feeds_n(es, x, c, n);
    lemma_feeds_n_into_leaf(es, x, c, n);
}

pub proof fn lemma_feeds_n_into_leaf(es: Seq<(usize, usize, EdgeType)>, x: usize, c: usize, n: nat)
    requires
        forall|k: int|
            0 <= k < es.len() ==> !((#[trigger] es[k]).1 == c && es[k].2
                == EdgeType::SUBREQUIREMENT),
        feeds_n(es, x, c, n),
    ensures
        x == c,
    decreases n,
{
    if x != c {
        let m = choose|m: usize| sub_edge(es, x, m) && feeds_n(es, m, c, (n - 1) as nat);
        lemma_feeds_n_into_leaf(es, m, c, (n - 1) as nat);
        let k = choose|k: int|
            0 <= k < es.len() && (#[trigger] es[k]).0 == x && es[k].1 == m && es[k].2
                == EdgeType::SUBREQUIREMENT;
    }
}

/// Appending an edge whose target does not reach its source keeps the list
/// acyclic.
pub proof fn lemma_acyclic_push(es: Seq<(usize, usize, EdgeType)>, e: (usize, usize, EdgeType))
    requires
        acyclic(es),
        !reaches(es, e.1, e.0),
    ensures
        acyclic(es.push(e)),
{
    let es2 = es.push(e);
    assert forall|a: usize, b: usize| #[trigger] has_edge(es2, a, b) implies !reaches(
        es2,
        b,
        a,
    ) by {
        if reaches(es2, b, a) {
            let k = choose|k: int| 0 <= k < es2.len() && (#[trigger] es2[k]).0 == a && es2[k].1
                == b;
            lemma_reaches_push(es, e, b, a);
            if k < es.len() {
                assert(es[k] == es2[k]);
                assert(has_edge(es, a, b));
                lemma_reaches_step(es, a, b);
                if reaches(es, b, a) {
                } else {
                    // the path crosses the new edge: b reaches its source,
                    // and from its target some path returns to a
                    assert(reaches(es, b, e.0));
                    assert(reaches(es2, e.1, a));
                    lemma_reaches_push(es, e, e.1, a);
                    if reaches(es, e.1, a) {
                        lemma_reaches_trans(es, e.1, a, b);
                        lemma_reaches_trans(es, e.1, b, e.0);
                    }
                }
            } else {
                assert(es2[k] == e);
                if reaches(es, b, a) {
                    assert(reaches(es, e.1, e.0));
                }
            }
        }
    }
}

} // verus!
