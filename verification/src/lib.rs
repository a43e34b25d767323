//! A small computational engine with two cooperating parts: an
//! arithmetic-expression evaluator built on an explicit dual-stack machine
//! that records its own execution trace, and a symbolic polynomial algebra
//! engine that parses, stores, combines, differentiates, evaluates and
//! renders named single-variable polynomials.

use vstd::prelude::*;

pub mod combine;
pub mod digits;
pub mod engine;
pub mod errors;
pub mod eval;
pub mod grammar;
pub mod laws;
pub mod log;
pub mod parse;
pub mod poly;
pub mod registry;
pub mod render;
