//! A miniature browser-style styling front end: a CSS-like grammar parser
//! and a cascade resolver that computes, for every node of a document tree,
//! the set of style properties that apply to it.

pub mod chars;
pub mod css;
pub mod dom;
pub mod html;
pub mod parser;
pub mod style;
