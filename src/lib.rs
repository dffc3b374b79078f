//! Configuration resolution: a value tree read from a file and overlaid with
//! the process environment, queried by dotted paths, scoped to sub-tables,
//! and read into records.
pub mod loader;
pub mod locate;
pub mod path;
pub mod resolve;
pub mod text;
pub mod value;

pub use loader::{ConfigError, ConfigLoader, Field, Number};
pub use locate::{search_step, SearchStep};
pub use value::{Kind, Value};
