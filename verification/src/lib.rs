//! A compiler front end for an eight-symbol tape-machine language.
//!
//! Source text is turned into symbols, the symbols into a tree of loops, and
//! the tree into basic blocks of low-level operations over a fixed array of
//! cells and one pointer register.
pub mod compiler;
