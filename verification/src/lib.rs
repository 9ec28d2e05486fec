pub mod approval;
pub mod engine;
pub mod nitera;
pub mod policy;
pub mod text;

pub use approval::{ApprovalDecision, ApprovalHandler};
pub use engine::{CreateKind, Decision, NiteraRequest, Operation, Resource, Target};
pub use nitera::{Nitera, NiteraError, NiteraOperationError};
