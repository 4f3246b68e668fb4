//! Function-type subtyping: a function type is a subtype of another when its
//! argument type is contravariant (the supertype's argument is a subtype of
//! the subtype's argument) and its return type is covariant (the subtype's
//! return is a subtype of the supertype's return).

use vstd::prelude::*;

use crate::relation::SubtypeRelation;
use crate::subtype::SubtypeEdge;
use crate::subtype::TypeName;
use crate::subtype::lemma_subtype_reflexive;
use crate::subtype::subtype_holds;

verus! {

/// A function signature with one argument type and one return type:
/// `arg -> ret`.
#[derive(Clone, Copy, Debug, PartialEq, Eq, Structural)]
pub struct FunctionType {
    pub arg: TypeName,
    pub ret: TypeName,
}

/// `sub <: sup` as function types under the closure of the declared edges:
/// arguments are contravariant and returns are covariant.
pub open spec fn function_subtype_holds(
    edges: Seq<SubtypeEdge>,
    sub: FunctionType,
    sup: FunctionType,
) -> bool {
    subtype_holds(edges, sup.arg, sub.arg) && subtype_holds(edges, sub.ret, sup.ret)
}

impl SubtypeRelation {
    /// Decides whether `sub` is a function subtype of `sup`: the supertype's
    /// argument must be a subtype of the subtype's argument, and the
    /// subtype's return a subtype of the supertype's return, both under this
    /// relation. Pure and total.
    pub fn is_function_subtype(&self, sub: FunctionType, sup: FunctionType) -> (r: bool)
        requires
            self.wf(),
        ensures
            r == function_subtype_holds(self.edges(), sub, sup),
    {
        self.is_subtype(sup.arg, sub.arg) && self.is_subtype(sub.ret, sup.ret)
    }
}

/// Covariance of return types, with the argument side held constant: whether
/// a function `arg -> sub_ret` may be declared as an `arg -> sup_ret`, which
/// holds exactly when `sub_ret <: sup_ret`.
pub fn covariance(
    relation: &SubtypeRelation,
    arg: TypeName,
    sub_ret: TypeName,
    sup_ret: TypeName,
) -> (r: bool)
    requires
        relation.wf(),
    ensures
        r == function_subtype_holds(
            relation.edges(),
            (FunctionType { arg, ret: sub_ret }),
            (FunctionType { arg, ret: sup_ret }),
        ),
        r == subtype_holds(relation.edges(), sub_ret, sup_ret),
{
    proof {
        lemma_subtype_reflexive(relation.edges(), arg);
    }
    relation.is_function_subtype(
        FunctionType { arg, ret: sub_ret },
        FunctionType { arg, ret: sup_ret },
    )
}

/// Contravariance of argument types, with the return side held constant:
/// whether a function `sub_arg -> ret` may be declared as a `sup_arg -> ret`,
/// which holds exactly when `sup_arg <: sub_arg` — the direction reverses.
pub fn contravariance(
    relation: &SubtypeRelation,
    sub_arg: TypeName,
    sup_arg: TypeName,
    ret: TypeName,
) -> (r: bool)
    requires
        relation.wf(),
    ensures
        r == function_subtype_holds(
            relation.edges(),
            (FunctionType { arg: sub_arg, ret }),
            (FunctionType { arg: sup_arg, ret }),
        ),
        r == subtype_holds(relation.edges(), sup_arg, sub_arg),
{
    proof {
        lemma_subtype_reflexive(relation.edges(), ret);
    }
    relation.is_function_subtype(
        FunctionType { arg: sub_arg, ret },
        FunctionType { arg: sup_arg, ret },
    )
}

/// The covariance rule: when `y <: x`, a function returning `y` is a subtype
/// of one returning `x` with the same argument type.
pub proof fn lemma_return_covariance(
    edges: Seq<SubtypeEdge>,
    arg: TypeName,
    y: TypeName,
    x: TypeName,
)
    requires
        subtype_holds(edges, y, x),
    ensures
        function_subtype_holds(
            edges,
            (FunctionType { arg, ret: y }),
            (FunctionType { arg, ret: x }),
        ),
{
    lemma_subtype_reflexive(edges, arg);
}

/// The contravariance rule: when `b <: a`, a function accepting `a` is a
/// subtype of one accepting `b` with the same return type.
pub proof fn lemma_argument_contravariance(
    edges: Seq<SubtypeEdge>,
    b: TypeName,
    a: TypeName,
    ret: TypeName,
)
    requires
        subtype_holds(edges, b, a),
    ensures
        function_subtype_holds(
            edges,
            (FunctionType { arg: a, ret }),
            (FunctionType { arg: b, ret }),
        ),
{
    lemma_subtype_reflexive(edges, ret);
}

/// Every function type is a subtype of itself under any relation.
pub proof fn lemma_function_subtype_reflexive(edges: Seq<SubtypeEdge>, f: FunctionType)
    ensures
        function_subtype_holds(edges, f, f),
{
    lemma_subtype_reflexive(edges, f.arg);
    lemma_subtype_reflexive(edges, f.ret);
}

/// Construction is deterministic in its input: relations built from equal
/// edge sets answer every query, simple or function-typed, identically.
pub proof fn lemma_equal_edges_equal_queries(r1: SubtypeRelation, r2: SubtypeRelation)
    requires
        r1.edges() == r2.edges(),
    ensures
        forall|a: TypeName, b: TypeName| r1.spec_subtype(a, b) == r2.spec_subtype(a, b),
        forall|sub: FunctionType, sup: FunctionType|
            function_subtype_holds(r1.edges(), sub, sup) == function_subtype_holds(
                r2.edges(),
                sub,
                sup,
            ),
{
}

} // verus!
