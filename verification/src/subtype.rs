//! The mathematical model of the nominal subtype relation: declared edges,
//! bounded reachability through them, and the reflexive-transitive closure,
//! with the laws the closure obeys.

use vstd::prelude::*;

verus! {

/// A nominal type or a lifetime, named by an interned symbol.
pub type TypeName = u64;

/// A declared direct subtype edge: `(sub, sup)` means `sub <: sup`.
pub type SubtypeEdge = (TypeName, TypeName);

/// Some declared edge states `a <: b` directly.
pub open spec fn has_edge(edges: Seq<SubtypeEdge>, a: TypeName, b: TypeName) -> bool {
    exists|i: int| 0 <= i < edges.len() && edges[i] == (a, b)
}

/// `a` reaches `b` along declared edges in at most `n` steps.
pub open spec fn reaches_within(edges: Seq<SubtypeEdge>, a: TypeName, b: TypeName, n: nat) -> bool
    decreases n,
{
    a == b || (n > 0 && exists|c: TypeName|
        has_edge(edges, a, c) && reaches_within(edges, c, b, (n - 1) as nat))
}

/// `a <: b` under the reflexive-transitive closure of the declared edges.
pub open spec fn subtype_holds(edges: Seq<SubtypeEdge>, a: TypeName, b: TypeName) -> bool {
    exists|n: nat| reaches_within(edges, a, b, n)
}

/// The name takes part in some declared edge.
pub open spec fn registered(edges: Seq<SubtypeEdge>, t: TypeName) -> bool {
    exists|i: int| 0 <= i < edges.len() && (edges[i].0 == t || edges[i].1 == t)
}

/// Two distinct names are mutual subtypes: the declared edges are unsound.
pub open spec fn has_cycle(edges: Seq<SubtypeEdge>) -> bool {
    exists|a: TypeName, b: TypeName|
        a != b && subtype_holds(edges, a, b) && subtype_holds(edges, b, a)
}

/// Reflexivity: every name is a subtype of itself, registered or not.
pub proof fn lemma_subtype_reflexive(edges: Seq<SubtypeEdge>, t: TypeName)
    ensures
        subtype_holds(edges, t, t),
{
    assert(reaches_within(edges, t, t, 0));
}

/// A bounded reachability witness stays valid at any larger bound.
pub proof fn lemma_reaches_mono(edges: Seq<SubtypeEdge>, a: TypeName, b: TypeName, n: nat, m: nat)
    requires
        reaches_within(edges, a, b, n),
        n <= m,
    ensures
        reaches_within(edges, a, b, m),
    decreases n,
{
    if a != b {
        let c = choose|c: TypeName|
            has_edge(edges, a, c) && reaches_within(edges, c, b, (n - 1) as nat);
        lemma_reaches_mono(edges, c, b, (n - 1) as nat, (m - 1) as nat);
        assert(has_edge(edges, a, c) && reaches_within(edges, c, b, (m - 1) as nat));
    }
}

/// Two reachability witnesses concatenate, adding their bounds.
pub proof fn lemma_reaches_concat(
    edges: Seq<SubtypeEdge>,
    a: TypeName,
    b: TypeName,
    c: TypeName,
    n: nat,
    m: nat,
)
    requires
        reaches_within(edges, a, b, n),
        reaches_within(edges, b, c, m),
    ensures
        reaches_within(edges, a, c, n + m),
    decreases n,
{
    if a == b {
        lemma_reaches_mono(edges, b, c, m, n + m);
    } else {
        let d = choose|d: TypeName|
            has_edge(edges, a, d) && reaches_within(edges, d, b, (n - 1) as nat);
        lemma_reaches_concat(edges, d, b, c, (n - 1) as nat, m);
        assert(has_edge(edges, a, d) && reaches_within(edges, d, c, (n + m - 1) as nat));
    }
}

/// Transitivity: `a <: b` and `b <: c` give `a <: c`.
pub proof fn lemma_subtype_transitive(
    edges: Seq<SubtypeEdge>,
    a: TypeName,
    b: TypeName,
    c: TypeName,
)
    requires
        subtype_holds(edges, a, b),
        subtype_holds(edges, b, c),
    ensures
        subtype_holds(edges, a, c),
{
    let n = choose|n: nat| reaches_within(edges, a, b, n);
    let m = choose|m: nat| reaches_within(edges, b, c, m);
    lemma_reaches_concat(edges, a, b, c, n, m);
}

/// A nontrivial reachability witness registers both of its endpoints.
pub proof fn lemma_reaches_registered(
    edges: Seq<SubtypeEdge>,
    a: TypeName,
    b: TypeName,
    n: nat,
)
    requires
        reaches_within(edges, a, b, n),
        a != b,
    ensures
        registered(edges, a),
        registered(edges, b),
    decreases n,
{
    let c = choose|c: TypeName|
        has_edge(edges, a, c) && reaches_within(edges, c, b, (n - 1) as nat);
    let i = choose|i: int| 0 <= i < edges.len() && edges[i] == (a, c);
    assert(edges[i].0 == a);
    if c == b {
        assert(edges[i].1 == b);
    } else {
        lemma_reaches_registered(edges, c, b, (n - 1) as nat);
    }
}

/// A subtype pair of distinct names registers both names.
pub proof fn lemma_subtype_registered(edges: Seq<SubtypeEdge>, a: TypeName, b: TypeName)
    requires
        subtype_holds(edges, a, b),
        a != b,
    ensures
        registered(edges, a),
        registered(edges, b),
{
    let n = choose|n: nat| reaches_within(edges, a, b, n);
    lemma_reaches_registered(edges, a, b, n);
}

/// Antisymmetry on cycle-free edges: mutual subtypes are the same name.
pub proof fn lemma_subtype_antisymmetric(edges: Seq<SubtypeEdge>, a: TypeName, b: TypeName)
    requires
        !has_cycle(edges),
        subtype_holds(edges, a, b),
        subtype_holds(edges, b, a),
    ensures
        a == b,
{
    if a != b {
        assert(has_cycle(edges));
    }
}

} // verus!
