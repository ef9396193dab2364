//! A compiler for a tiny tape language: tokenizer, structural parser,
//! peephole optimizer and lowering into a block-structured function body.
pub mod parser;
pub mod optimizer;
pub mod lower;
pub mod machine;
