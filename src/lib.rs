//! Builds one distributable Lua source file out of a library, its internal
//! modules and its dependencies.
//!
//! The definition of a library lists its modules and dependencies; the build
//! registers each module body under a generated identifier, merges the bodies
//! with a header and the base block that binds them, and rewrites the `@`
//! references of the source into module loads.
pub mod assemble;
pub mod assets;
pub mod buffer;
pub mod definition;
pub mod install;
pub mod preload;
pub mod table;
pub mod text;
pub mod version;
