//! Reading and editing hosts documents without losing a byte of them.
//!
//! A document is cut into tokens ([`tokenizer`]), the tokens are given
//! their meaning as the nodes of a tree ([`parser`], [`cst`]), and the tree
//! writes back the text it was read from. The edits ([`commands`]) add and
//! remove nodes and leave the rest of the document as it is.

pub mod address;
pub mod commands;
pub mod cst;
pub mod document;
pub mod lookahead;
pub mod parser;
pub mod text;
pub mod tokenizer;
pub mod tokens;
pub mod visitor;
