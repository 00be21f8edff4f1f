pub mod config;
pub mod disjoint_set;
pub mod generator;
pub mod text;
pub mod variables;
pub mod watcher;

pub use config::{Config, ConfigFiles, PathBinding};
pub use disjoint_set::DisjointSet;
pub use generator::Generator;
pub use variables::{Resolution, Variables};
pub use watcher::{Action, Descriptor, Mode, Multiplexer, WatchTable, WatchedElement};
