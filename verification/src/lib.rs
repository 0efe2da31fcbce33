//! A small text-to-document pipeline: a parser that turns raw text into a
//! structured `Document` of blocks, and a renderer that turns a `Document`
//! back into plain text. Both stages are pure functions of their input, with
//! structured errors on the first failure.

pub mod ast;
pub mod parser;
pub mod render;
