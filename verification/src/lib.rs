//! A subtyping rule evaluator: a nominal subtype relation over named types
//! (lifetimes are treated as ordinary type names), built once from declared
//! edges as a reflexive-transitive closure, together with a function-type
//! subtyping checker that applies contravariance to argument types and
//! covariance to return types.

pub mod closure;
pub mod function_type;
pub mod relation;
pub mod subtype;

pub use function_type::FunctionType;
pub use function_type::contravariance;
pub use function_type::covariance;
pub use relation::ConstructionError;
pub use relation::SubtypeRelation;
pub use relation::build_relation;
pub use subtype::SubtypeEdge;
pub use subtype::TypeName;
