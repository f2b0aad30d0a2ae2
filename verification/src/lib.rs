//! A small configuration-file parsing and declarative-binding engine.
//!
//! The crate reads a TOML-like, line-oriented key/value text format into a
//! tree of tables (`tree`), binds that tree onto typed settings structures
//! through an explicit, data-driven schema walk (`schema`, `settings`), and
//! compiles human-readable style descriptors such as `"bold, red"` into ANSI
//! escape sequences (`format`). Around that core stand the small data types
//! of the command-line tool that uses it: a directory stack (`stack`), a
//! bookmark store (`bookmarks`), the command-line argument shapes
//! (`arguments`) and an output accumulator (`output`).

pub mod arguments;
pub mod bookmarks;
pub mod format;
pub mod output;
pub mod schema;
pub mod settings;
pub mod stack;
pub mod text;
pub mod tree;
