//! Semantic diff for configuration files.

pub mod text;
pub mod path;
pub mod value;
pub mod numeric;
pub mod wide;
pub mod glob;
pub mod error;
pub mod options;
pub mod ini_doc;
pub mod diff_spec;
pub mod diff;
pub mod format;
pub mod dotenv;
pub mod render;
pub mod cli;
pub mod laws;
pub mod pairing;
pub mod ignoring;
pub mod minimality;
pub mod shapes;
pub mod outcomes;
pub mod provenance;

pub use diff::{Change, ChangeKind, Diff, Summary, diff};
pub use error::Error;
pub use format::Format;
pub use options::{ArrayStrategy, DiffOptions};
pub use path::{Path, Segment};
pub use value::{Float, Value, ValueMap};
