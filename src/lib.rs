//! An incremental query engine core: plan nodes that turn relations of
//! timed, signed updates into new relations, with their meaning stated
//! over multisets of tuples.

pub mod value;
pub mod relation;
pub mod filter;
pub mod project;
pub mod pull;
pub mod transform;
pub mod plan;
pub mod sources;
pub mod incremental;

pub use value::{Attribute, Entity, Value, Var};
pub use relation::{Relation, Update};
pub use filter::{Filter, Predicate};
pub use project::Project;
pub use pull::{Pull, PullLevel, interleave};
pub use transform::{Function, Transform};
pub use plan::{AttributeIndex, GlobalArrangements, LocalArrangements, NamedRelation, Plan, PlanError};
pub use sources::{PlainFile, Source};
