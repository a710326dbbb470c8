//! A compiler front end for a minimal eight-symbol, tape-based language.
//!
//! The pipeline has three verified stages: lexical scanning of raw bytes into
//! a token stream (with a loop-bracket balance check), recursive-descent
//! parsing of the token stream into a nested syntax tree, and lowering of the
//! tree into an explicit basic-block control-flow graph over a flat byte tape.
//! A caller reads the source file, runs the pipeline, serializes the resulting
//! graph to its textual form, and drives the external assemble/link tools.

pub mod binary;
pub mod codegen;
pub mod ir_text;
pub mod lexer;
pub mod parser;
pub mod pipeline;
