pub mod error;
pub mod language;
pub mod name;
pub mod rename;
pub mod rewrite;
pub mod scaffold;
pub mod tree;
