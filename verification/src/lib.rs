//! Style resolution and block layout for a small document renderer.
//!
//! A document tree and a style sheet are resolved into a tree of styled
//! nodes (selector matching and the cascade), the styled tree is turned into
//! a tree of layout boxes, and the block layout pass fills in the geometry
//! of every block-level box.

pub mod css;
pub mod dom;
pub mod html;
pub mod layout;
pub mod parser;
pub mod strmap;
pub mod style;
