//! A maintainer for markdown todo lists: a document tree, a sort that brings
//! unfinished tasks first, a rotation into a fresh day's section, and a
//! renderer back to markdown.

pub mod model;
pub mod parse;
pub mod render;
pub mod rotate;
pub mod sort;
