//! An in-memory hierarchical file store: a tree of named folders and files,
//! addressed by slash-separated paths, with verified lookup and mutation.

pub mod config;
pub mod error;
pub mod fs;
pub mod node;
pub mod path;
pub mod state;

pub use config::load_startup_config;
pub use error::{MinixError, MinixResult};
pub use fs::FileSystem;
pub use node::{Element, File, Folder};
pub use path::Path;
pub use state::State;
