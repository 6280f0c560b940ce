//! A programmatic emitter for C program fragments: a typed representation of
//! C types, expressions and statements, a renderer that turns that
//! representation into C source text, and a reversible identifier-mangling
//! codec so arbitrary names can appear as valid C identifiers.

pub mod c_cg;
pub mod escape;
pub mod rand_id_generation;

use vstd::prelude::*;

verus! {

} // verus!
