//! Storage layer of an icon manager: a tree of collections, the icons they
//! hold, and a small set of user settings, kept as table rows with their
//! integrity rules checked on every change.

pub mod ident;
pub mod model;
pub mod schema;
pub mod settings;
pub mod sort;
pub mod store;
pub mod tags;
pub mod text;
pub mod tree;
