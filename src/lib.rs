//! Scanning engine of a launcher for visual-effects project files: it finds
//! versioned artifact files in a project's directory tree, parses their names,
//! infers shot identifiers, and keeps a mirror of the result per project.

pub mod text;
pub mod version;
pub mod shot;
pub mod patterns;
pub mod tree;
pub mod record;
pub mod scanner;
pub mod targets;
pub mod scan;
pub mod store;
pub mod watch;
pub mod config;
pub mod paths;
pub mod models;
pub mod locks;
pub mod distinct;
