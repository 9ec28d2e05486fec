pub mod decision;
pub mod request;

pub use decision::Decision;
pub use request::{CreateKind, NiteraRequest, Operation, Resource, Target};
