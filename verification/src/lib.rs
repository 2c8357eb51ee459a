//! A small rendering-engine core: a document tree, a stylesheet model,
//! the style cascade that resolves matching rules per element, and a
//! box-tree builder that groups block and inline boxes, with anonymous
//! wrapper boxes synthesized where inline and block children are siblings.

pub mod css;
pub mod dom;
pub mod html;
pub mod layout;
pub mod source;
pub mod style;
pub mod text;
