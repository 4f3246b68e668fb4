//! The subtype relation store: built once from declared edges, it holds the
//! reflexive-transitive closure precomputed in a matrix over the registered
//! names, rejects cyclic declarations, and answers queries from the matrix.

use vstd::prelude::*;

use crate::closure::lemma_staged_closure;
use crate::closure::staged_reach;
use crate::subtype::SubtypeEdge;
use crate::subtype::TypeName;
use crate::subtype::has_cycle;
use crate::subtype::has_edge;
use crate::subtype::lemma_subtype_reflexive;
use crate::subtype::lemma_subtype_registered;
use crate::subtype::registered;
use crate::subtype::subtype_holds;

verus! {

/// A failure of `build_relation`; no partial relation is ever returned.
#[derive(Clone, Copy, Debug, PartialEq, Eq, Structural)]
pub enum ConstructionError {
    /// The declared edges make two distinct names mutual subtypes.
    /// The two names carried are the endpoints of the offending chain.
    CycleError { first: TypeName, second: TypeName },
}

/// An immutable nominal subtype relation: the registered names together with
/// the precomputed reflexive-transitive closure of the declared edges.
pub struct SubtypeRelation {
    nodes: Vec<TypeName>,
    matrix: Vec<Vec<bool>>,
    edges: Ghost<Seq<SubtypeEdge>>,
}

impl SubtypeRelation {
    /// The declared edges this relation was built from.
    pub closed spec fn edges(self) -> Seq<SubtypeEdge> {
        self.edges@
    }

    /// The relation is intact: its nodes are exactly the registered names,
    /// without duplicates, and its matrix is the closure of its edges.
    pub closed spec fn wf(self) -> bool {
        &&& self.nodes@.no_duplicates()
        &&& forall|t: TypeName| registered(self.edges@, t) <==> self.nodes@.contains(t)
        &&& self.matrix@.len() == self.nodes@.len()
        &&& forall|i: int|
            0 <= i < self.matrix@.len() ==> (#[trigger] self.matrix@[i])@.len()
                == self.nodes@.len()
        &&& forall|i: int, j: int|
            0 <= i < self.nodes@.len() && 0 <= j < self.nodes@.len()
                ==> (#[trigger] self.matrix@[i]@[j]) == subtype_holds(
                self.edges@,
                self.nodes@[i],
                self.nodes@[j],
            )
    }

    /// `a <: b` under this relation: the reflexive-transitive closure of the
    /// edges it was built from.
    pub open spec fn spec_subtype(self, a: TypeName, b: TypeName) -> bool {
        subtype_holds(self.edges(), a, b)
    }

    /// Decides `a <: b`. Total: a name that appears in no declared edge takes
    /// part only through reflexivity, so for such a name the query answers
    /// `true` against the name itself and `false` against every other name,
    /// rather than failing.
    pub fn is_subtype(&self, a: TypeName, b: TypeName) -> (r: bool)
        requires
            self.wf(),
        ensures
            r == self.spec_subtype(a, b),
    {
        if a == b {
            proof {
                lemma_subtype_reflexive(self.edges@, a);
            }
            return true;
        }
        let ia = find_index(&self.nodes, a);
        let ib = find_index(&self.nodes, b);
        match (ia, ib) {
            (Some(i), Some(j)) => self.matrix[i][j],
            _ => {
                proof {
                    if subtype_holds(self.edges@, a, b) {
                        lemma_subtype_registered(self.edges@, a, b);
                        assert(self.nodes@.contains(a) && self.nodes@.contains(b));
                    }
                }
                false
            },
        }
    }
}

/// The position of `x` in `v`, when `x` occurs there.
fn find_index(v: &Vec<TypeName>, x: TypeName) -> (r: Option<usize>)
    ensures
        match r {
            Some(i) => i < v@.len() && v@[i as int] == x,
            None => !v@.contains(x),
        },
{
    let mut i: usize = 0;
    while i < v.len()
        invariant
            i <= v@.len(),
            forall|k: int| 0 <= k < i ==> v@[k] != x,
        decreases v@.len() - i,
    {
        if v[i] == x {
            return Some(i);
        }
        i += 1;
    }
    None
}

/// Whether the declared edges contain `(a, b)` itself.
fn has_direct_edge(edges: &Vec<SubtypeEdge>, a: TypeName, b: TypeName) -> (r: bool)
    ensures
        r == has_edge(edges@, a, b),
{
    let mut i: usize = 0;
    while i < edges.len()
        invariant
            i <= edges@.len(),
            forall|k: int| 0 <= k < i ==> edges@[k] != (a, b),
        decreases edges@.len() - i,
    {
        let (s, t) = edges[i];
        if s == a && t == b {
            assert(edges@[i as int] == (a, b));
            return true;
        }
        i += 1;
    }
    false
}

/// Appending a fresh element keeps a sequence free of duplicates.
proof fn lemma_push_no_duplicates(s: Seq<TypeName>, a: TypeName)
    requires
        s.no_duplicates(),
        !s.contains(a),
    ensures
        s.push(a).no_duplicates(),
{
    let t = s.push(a);
    assert forall|i: int, j: int|
        0 <= i < t.len() && 0 <= j < t.len() && i != j implies t[i] != t[j] by {
        if i < s.len() && j < s.len() {
            assert(t[i] == s[i] && t[j] == s[j]);
        } else if j == s.len() {
            if s[i] == a {
                assert(s.contains(a));
            }
        } else {
            if s[j] == a {
                assert(s.contains(a));
            }
        }
    }
}

/// Appends `x` unless it is already present, keeping every present name.
fn push_if_missing(nodes: &mut Vec<TypeName>, x: TypeName)
    requires
        old(nodes)@.no_duplicates(),
    ensures
        final(nodes)@.no_duplicates(),
        final(nodes)@.contains(x),
        forall|t: TypeName| old(nodes)@.contains(t) ==> final(nodes)@.contains(t),
        forall|t: TypeName| final(nodes)@.contains(t) ==> old(nodes)@.contains(t) || t == x,
{
    if !contains_name(nodes, x) {
        proof {
            lemma_push_no_duplicates(nodes@, x);
        }
        nodes.push(x);
        proof {
            assert(nodes@[nodes@.len() - 1] == x);
            assert(nodes@.contains(x));
            assert forall|t: TypeName| old(nodes)@.contains(t) implies nodes@.contains(t) by {
                let k = choose|k: int| 0 <= k < old(nodes)@.len() && old(nodes)@[k] == t;
                assert(nodes@[k] == t);
            }
            assert forall|t: TypeName| nodes@.contains(t) implies old(nodes)@.contains(t) || t
                == x by {
                let k = choose|k: int| 0 <= k < nodes@.len() && nodes@[k] == t;
                if k < old(nodes)@.len() {
                    assert(old(nodes)@[k] == t);
                }
            }
        }
    }
}

/// Every name that takes part in some edge, each name once.
#[verifier::loop_isolation(false)]
fn collect_nodes(edges: &Vec<SubtypeEdge>) -> (nodes: Vec<TypeName>)
    ensures
        nodes@.no_duplicates(),
        forall|t: TypeName| registered(edges@, t) <==> nodes@.contains(t),
{
    let mut nodes: Vec<TypeName> = Vec::new();
    let mut i: usize = 0;
    while i < edges.len()
        invariant
            i <= edges@.len(),
            nodes@.no_duplicates(),
            forall|t: TypeName| nodes@.contains(t) ==> registered(edges@, t),
            forall|k: int|
                0 <= k < i ==> nodes@.contains(#[trigger] edges@[k].0) && nodes@.contains(
                    edges@[k].1,
                ),
        decreases edges@.len() - i,
    {
        let (a, b) = edges[i];
        proof {
            assert(edges@[i as int] == (a, b));
            assert(registered(edges@, a));
            assert(registered(edges@, b));
        }
        let ghost nodes0 = nodes@;
        push_if_missing(&mut nodes, a);
        let ghost nodes1 = nodes@;
        push_if_missing(&mut nodes, b);
        proof {
            assert forall|k: int|
                0 <= k < i + 1 implies nodes@.contains(#[trigger] edges@[k].0)
                && nodes@.contains(edges@[k].1) by {
                if k < i {
                    assert(nodes0.contains(edges@[k].0) && nodes0.contains(edges@[k].1));
                    assert(nodes1.contains(edges@[k].0) && nodes1.contains(edges@[k].1));
                } else {
                    assert(edges@[k] == (a, b));
                    assert(nodes1.contains(a));
                }
            }
        }
        i += 1;
    }
    proof {
        assert forall|t: TypeName| registered(edges@, t) implies nodes@.contains(t) by {
            let k = choose|k: int|
                0 <= k < edges@.len() && (edges@[k].0 == t || edges@[k].1 == t);
            assert(nodes@.contains(edges@[k].0) && nodes@.contains(edges@[k].1));
        }
    }
    nodes
}

/// Whether `x` occurs in `v`.
fn contains_name(v: &Vec<TypeName>, x: TypeName) -> (r: bool)
    ensures
        r == v@.contains(x),
{
    match find_index(v, x) {
        Some(i) => {
            assert(v@[i as int] == x);
            true
        },
        None => false,
    }
}

/// The adjacency matrix at stage zero: equal indices or a direct edge.
#[verifier::loop_isolation(false)]
fn base_matrix(edges: &Vec<SubtypeEdge>, nodes: &Vec<TypeName>) -> (m: Vec<Vec<bool>>)
    ensures
        m@.len() == nodes@.len(),
        forall|i: int| 0 <= i < m@.len() ==> (#[trigger] m@[i])@.len() == nodes@.len(),
        forall|i: int, j: int|
            0 <= i < nodes@.len() && 0 <= j < nodes@.len() ==> (#[trigger] m@[i]@[j])
                == staged_reach(edges@, nodes@, i, j, 0),
{
    let n = nodes.len();
    let mut m: Vec<Vec<bool>> = Vec::new();
    let mut i: usize = 0;
    while i < n
        invariant
            i <= n,
            m@.len() == i,
            forall|p: int| 0 <= p < i ==> (#[trigger] m@[p])@.len() == n,
            forall|p: int, q: int|
                0 <= p < i && 0 <= q < n ==> (#[trigger] m@[p]@[q]) == staged_reach(
                    edges@,
                    nodes@,
                    p,
                    q,
                    0,
                ),
        decreases n - i,
    {
        let mut row: Vec<bool> = Vec::new();
        let mut j: usize = 0;
        while j < n
            invariant
                j <= n,
                i < n,
                row@.len() == j,
                forall|q: int|
                    0 <= q < j ==> (#[trigger] row@[q]) == staged_reach(
                        edges@,
                        nodes@,
                        i as int,
                        q,
                        0,
                    ),
            decreases n - j,
        {
            let v = i == j || has_direct_edge(edges, nodes[i], nodes[j]);
            row.push(v);
            j += 1;
        }
        m.push(row);
        i += 1;
    }
    m
}

/// Raises the matrix stage by stage until every index may stand as an
/// intermediate node, which makes it the full closure matrix.
#[verifier::loop_isolation(false)]
fn saturate(edges: &Vec<SubtypeEdge>, nodes: &Vec<TypeName>, m0: Vec<Vec<bool>>) -> (m: Vec<
    Vec<bool>,
>)
    requires
        m0@.len() == nodes@.len(),
        forall|i: int| 0 <= i < m0@.len() ==> (#[trigger] m0@[i])@.len() == nodes@.len(),
        forall|i: int, j: int|
            0 <= i < nodes@.len() && 0 <= j < nodes@.len() ==> (#[trigger] m0@[i]@[j])
                == staged_reach(edges@, nodes@, i, j, 0),
    ensures
        m@.len() == nodes@.len(),
        forall|i: int| 0 <= i < m@.len() ==> (#[trigger] m@[i])@.len() == nodes@.len(),
        forall|i: int, j: int|
            0 <= i < nodes@.len() && 0 <= j < nodes@.len() ==> (#[trigger] m@[i]@[j])
                == staged_reach(edges@, nodes@, i, j, nodes@.len() as int),
{
    let n = nodes.len();
    let mut m = m0;
    let mut k: usize = 0;
    while k < n
        invariant
            k <= n,
            m@.len() == n,
            forall|i: int| 0 <= i < n ==> (#[trigger] m@[i])@.len() == n,
            forall|i: int, j: int|
                0 <= i < n && 0 <= j < n ==> (#[trigger] m@[i]@[j]) == staged_reach(
                    edges@,
                    nodes@,
                    i,
                    j,
                    k as int,
                ),
        decreases n - k,
    {
        let mut next: Vec<Vec<bool>> = Vec::new();
        let mut i: usize = 0;
        while i < n
            invariant
                i <= n,
                k < n,
                next@.len() == i,
                forall|p: int| 0 <= p < i ==> (#[trigger] next@[p])@.len() == n,
                forall|p: int, q: int|
                    0 <= p < i && 0 <= q < n ==> (#[trigger] next@[p]@[q]) == staged_reach(
                        edges@,
                        nodes@,
                        p,
                        q,
                        k as int + 1,
                    ),
            decreases n - i,
        {
            let mut row: Vec<bool> = Vec::new();
            let mut j: usize = 0;
            while j < n
                invariant
                    j <= n,
                    i < n,
                    k < n,
                    row@.len() == j,
                    forall|q: int|
                        0 <= q < j ==> (#[trigger] row@[q]) == staged_reach(
                            edges@,
                            nodes@,
                            i as int,
                            q,
                            k as int + 1,
                        ),
                decreases n - j,
            {
                let v = m[i][j] || (m[i][k] && m[k][j]);
                row.push(v);
                j += 1;
            }
            next.push(row);
            i += 1;
        }
        m = next;
        k += 1;
    }
    m
}

/// A pair of distinct names that the closure makes mutual subtypes, when
/// one exists.
#[verifier::loop_isolation(false)]
fn find_cycle_pair(edges: &Vec<SubtypeEdge>, nodes: &Vec<TypeName>, m: &Vec<Vec<bool>>) -> (r:
    Option<(TypeName, TypeName)>)
    requires
        nodes@.no_duplicates(),
        forall|t: TypeName| registered(edges@, t) ==> nodes@.contains(t),
        m@.len() == nodes@.len(),
        forall|i: int| 0 <= i < m@.len() ==> (#[trigger] m@[i])@.len() == nodes@.len(),
        forall|i: int, j: int|
            0 <= i < nodes@.len() && 0 <= j < nodes@.len() ==> (#[trigger] m@[i]@[j])
                == subtype_holds(edges@, nodes@[i], nodes@[j]),
    ensures
        match r {
            Some(pair) => pair.0 != pair.1 && subtype_holds(edges@, pair.0, pair.1)
                && subtype_holds(edges@, pair.1, pair.0),
            None => !has_cycle(edges@),
        },
{
    let n = nodes.len();
    let mut i: usize = 0;
    while i < n
        invariant
            i <= n,
            forall|p: int, q: int|
                0 <= p < i && 0 <= q < n && p != q ==> !((#[trigger] m@[p]@[q]) && m@[q]@[p]),
        decreases n - i,
    {
        let mut j: usize = 0;
        while j < n
            invariant
                j <= n,
                i < n,
                forall|q: int|
                    0 <= q < j && i as int != q ==> !((#[trigger] m@[i as int]@[q])
                        && m@[q]@[i as int]),
            decreases n - j,
        {
            if i != j && m[i][j] && m[j][i] {
                assert(nodes@[i as int] != nodes@[j as int]);
                return Some((nodes[i], nodes[j]));
            }
            j += 1;
        }
        i += 1;
    }
    proof {
        if has_cycle(edges@) {
            let (a, b) = choose|a: TypeName, b: TypeName|
                a != b && subtype_holds(edges@, a, b) && subtype_holds(edges@, b, a);
            lemma_subtype_registered(edges@, a, b);
            let p = choose|p: int| 0 <= p < nodes@.len() && nodes@[p] == a;
            let q = choose|q: int| 0 <= q < nodes@.len() && nodes@[q] == b;
            assert(m@[p]@[q] && m@[q]@[p]);
            assert(false);
        }
    }
    None
}

/// Builds the relation from the declared edges: registers every name the
/// edges mention, computes the reflexive-transitive closure, and rejects the
/// edge set wholesale when it makes two distinct names mutual subtypes.
pub fn build_relation(edges: &Vec<SubtypeEdge>) -> (result: Result<
    SubtypeRelation,
    ConstructionError,
>)
    ensures
        match result {
            Ok(rel) => rel.wf() && rel.edges() == edges@ && !has_cycle(edges@),
            Err(ConstructionError::CycleError { first, second }) => has_cycle(edges@) && first
                != second && subtype_holds(edges@, first, second) && subtype_holds(
                edges@,
                second,
                first,
            ),
        },
{
    let nodes = collect_nodes(edges);
    let m0 = base_matrix(edges, &nodes);
    let matrix = saturate(edges, &nodes, m0);
    proof {
        assert forall|i: int, j: int|
            0 <= i < nodes@.len() && 0 <= j < nodes@.len() implies (#[trigger] matrix@[i]@[j])
            == subtype_holds(edges@, nodes@[i], nodes@[j]) by {
            lemma_staged_closure(edges@, nodes@, i, j);
        }
    }
    match find_cycle_pair(edges, &nodes, &matrix) {
        Some(pair) => {
            proof {
                assert(has_cycle(edges@));
            }
            Err(ConstructionError::CycleError { first: pair.0, second: pair.1 })
        },
        None => Ok(SubtypeRelation { nodes, matrix, edges: Ghost(edges@) }),
    }
}

} // verus!

