//! Style sheets and the cascade that applies them to a document.

pub mod css;
pub mod style_tree;
