//! Compression of a corpus of lambda terms by abstraction.
//!
//! A corpus is a list of closed programs: de-Bruijn-indexed lambda terms over
//! named primitives. A step of compression finds the *invention*, a body with
//! holes, that makes the corpus cheapest when it is added as a primitive, and
//! rewrites the corpus with calls of it; steps follow one another until none
//! finds an invention.
//!
//! - `term`, `expr`: terms as trees and as lists of nodes; `sexp`: terms as
//!   text.
//! - `store`: the store in which equal terms share one place; `order`: the
//!   order in which its nodes are visited.
//! - `shift`: moving the indices of a term.
//! - `model`: what a pass over a corpus computes, stated over terms.
//! - `applam`, `best`, `inversion`: the pass itself, over the places of a
//!   store.
//! - `extract`: writing a node down again, as it is or rewritten.
//! - `compress`: one step, and the loop of steps.
//! - `info`: cost and depth of expressions.
//! - `shift_laws`, `pass_laws`, `fill_laws`, `rewrite_laws`, `sexp_laws`: what
//!   holds of all of this.
pub mod term;
pub mod expr;
pub mod store;
pub mod shift;
pub mod shift_laws;
pub mod model;
pub mod applam;
pub mod best;
pub mod inversion;
pub mod extract;
pub mod order;
pub mod compress;
pub mod sexp;
pub mod pass_laws;
pub mod info;
pub mod sexp_laws;
pub mod fill_laws;
pub mod rewrite_laws;
