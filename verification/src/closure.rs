//! Reachability over node indices, staged by the highest intermediate index
//! allowed, as the closure computation produces it: stage `k` admits paths
//! whose intermediate nodes all have index below `k`, so stage `nodes.len()`
//! coincides with the reflexive-transitive closure of the declared edges.

use vstd::prelude::*;

use crate::subtype::SubtypeEdge;
use crate::subtype::TypeName;
use crate::subtype::has_edge;
use crate::subtype::lemma_reaches_mono;
use crate::subtype::lemma_subtype_reflexive;
use crate::subtype::lemma_subtype_transitive;
use crate::subtype::reaches_within;
use crate::subtype::registered;
use crate::subtype::subtype_holds;

verus! {

/// Node `i` reaches node `j` along declared edges through intermediate nodes
/// of index below `k` only. Stage `0` admits a single edge or equal indices.
pub open spec fn staged_reach(
    edges: Seq<SubtypeEdge>,
    nodes: Seq<TypeName>,
    i: int,
    j: int,
    k: int,
) -> bool
    decreases k,
{
    if k <= 0 {
        i == j || has_edge(edges, nodes[i], nodes[j])
    } else {
        staged_reach(edges, nodes, i, j, k - 1) || (staged_reach(edges, nodes, i, k - 1, k - 1)
            && staged_reach(edges, nodes, k - 1, j, k - 1))
    }
}

/// A stage witness stays valid at any later stage.
pub proof fn lemma_staged_mono(
    edges: Seq<SubtypeEdge>,
    nodes: Seq<TypeName>,
    i: int,
    j: int,
    k: int,
    m: int,
)
    requires
        staged_reach(edges, nodes, i, j, k),
        k <= m,
    ensures
        staged_reach(edges, nodes, i, j, m),
    decreases m,
{
    if m <= 0 {
        // both stages are the base case
    } else if k == m {
        // nothing to raise
    } else {
        lemma_staged_mono(edges, nodes, i, j, k, m - 1);
    }
}

/// Staged reachability composes through a middle node below the stage.
pub proof fn lemma_staged_trans(
    edges: Seq<SubtypeEdge>,
    nodes: Seq<TypeName>,
    a: int,
    b: int,
    c: int,
    k: int,
)
    requires
        staged_reach(edges, nodes, a, b, k),
        staged_reach(edges, nodes, b, c, k),
        0 <= b < k,
    ensures
        staged_reach(edges, nodes, a, c, k),
    decreases k,
{
    let k1 = k - 1;
    if b == k1 {
        assert(staged_reach(edges, nodes, a, k1, k1));
        assert(staged_reach(edges, nodes, k1, c, k1));
    } else {
        if staged_reach(edges, nodes, a, b, k1) {
            if staged_reach(edges, nodes, b, c, k1) {
                lemma_staged_trans(edges, nodes, a, b, c, k1);
            } else {
                lemma_staged_trans(edges, nodes, a, b, k1, k1);
                assert(staged_reach(edges, nodes, k1, c, k1));
            }
        } else {
            assert(staged_reach(edges, nodes, a, k1, k1));
            assert(staged_reach(edges, nodes, k1, b, k1));
            if staged_reach(edges, nodes, b, c, k1) {
                lemma_staged_trans(edges, nodes, k1, b, c, k1);
            } else {
                assert(staged_reach(edges, nodes, k1, c, k1));
            }
        }
    }
}

/// Soundness: a staged witness between in-range nodes gives a subtype pair.
pub proof fn lemma_staged_sound(
    edges: Seq<SubtypeEdge>,
    nodes: Seq<TypeName>,
    i: int,
    j: int,
    k: int,
)
    requires
        0 <= i < nodes.len(),
        0 <= j < nodes.len(),
        k <= nodes.len(),
        staged_reach(edges, nodes, i, j, k),
    ensures
        subtype_holds(edges, nodes[i], nodes[j]),
    decreases k,
{
    if k <= 0 {
        if i == j {
            lemma_subtype_reflexive(edges, nodes[i]);
        } else {
            assert(reaches_within(edges, nodes[j], nodes[j], 0));
            assert(reaches_within(edges, nodes[i], nodes[j], 1));
        }
    } else {
        if staged_reach(edges, nodes, i, j, k - 1) {
            lemma_staged_sound(edges, nodes, i, j, k - 1);
        } else {
            lemma_staged_sound(edges, nodes, i, k - 1, k - 1);
            lemma_staged_sound(edges, nodes, k - 1, j, k - 1);
            lemma_subtype_transitive(edges, nodes[i], nodes[k - 1], nodes[j]);
        }
    }
}

/// Completeness: when every registered name is a node and nodes are distinct,
/// any reachability witness appears at the final stage.
pub proof fn lemma_staged_complete(
    edges: Seq<SubtypeEdge>,
    nodes: Seq<TypeName>,
    i: int,
    j: int,
    n: nat,
)
    requires
        0 <= i < nodes.len(),
        0 <= j < nodes.len(),
        nodes.no_duplicates(),
        forall|t: TypeName| registered(edges, t) ==> nodes.contains(t),
        reaches_within(edges, nodes[i], nodes[j], n),
    ensures
        staged_reach(edges, nodes, i, j, nodes.len() as int),
    decreases n,
{
    let len = nodes.len() as int;
    if nodes[i] == nodes[j] {
        assert(i == j);
        assert(staged_reach(edges, nodes, i, j, 0));
        lemma_staged_mono(edges, nodes, i, j, 0, len);
    } else {
        let c = choose|c: TypeName|
            has_edge(edges, nodes[i], c) && reaches_within(edges, c, nodes[j], (n - 1) as nat);
        let e = choose|e: int| 0 <= e < edges.len() && edges[e] == (nodes[i], c);
        assert(edges[e].1 == c);
        assert(registered(edges, c));
        assert(nodes.contains(c));
        let h = choose|h: int| 0 <= h < nodes.len() && nodes[h] == c;
        lemma_staged_complete(edges, nodes, h, j, (n - 1) as nat);
        assert(staged_reach(edges, nodes, i, h, 0));
        lemma_staged_mono(edges, nodes, i, h, 0, len);
        lemma_staged_trans(edges, nodes, i, h, j, len);
    }
}

/// The final stage between in-range distinct nodes coincides with the
/// subtype closure, given distinct nodes covering every registered name.
pub proof fn lemma_staged_closure(
    edges: Seq<SubtypeEdge>,
    nodes: Seq<TypeName>,
    i: int,
    j: int,
)
    requires
        0 <= i < nodes.len(),
        0 <= j < nodes.len(),
        nodes.no_duplicates(),
        forall|t: TypeName| registered(edges, t) ==> nodes.contains(t),
    ensures
        staged_reach(edges, nodes, i, j, nodes.len() as int) == subtype_holds(
            edges,
            nodes[i],
            nodes[j],
        ),
{
    if staged_reach(edges, nodes, i, j, nodes.len() as int) {
        lemma_staged_sound(edges, nodes, i, j, nodes.len() as int);
    }
    if subtype_holds(edges, nodes[i], nodes[j]) {
        let n = choose|n: nat| reaches_within(edges, nodes[i], nodes[j], n);
        lemma_staged_complete(edges, nodes, i, j, n);
    }
}

} // verus!
