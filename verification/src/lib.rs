//! Template-instantiation engine for skeleton projects: recursive tree copy,
//! literal content substitution that skips executable files, and
//! leading-dot-segment name substitution with rename-before-descend
//! ordering, together with the path and settings utilities around them.

pub mod app;
pub mod cli_util;
pub mod error;
pub mod names;
pub mod settings;
pub mod skeleton;
pub mod text;
pub mod tree;
pub mod util;
