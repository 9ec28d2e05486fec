pub mod evaluate;
pub mod matcher;
pub mod model;
pub mod parser;
pub mod path;
pub mod prepared;

pub use model::{
    FilesystemPolicy, FilesystemRules, HostPattern, NetworkPolicy, PathPattern, Policy,
    ProcessPolicy,
};
pub use parser::{parse, ParseError};
