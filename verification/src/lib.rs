//! A verified model of a foreign managed-memory runtime's value layer.
//!
//! The library models, and proves the invariants of, the four pieces that
//! native extension code must get right when it manipulates values owned by
//! a moving, precise garbage collector:
//!
//! * the one-word tagged value encoding (immediates vs. heap blocks),
//! * the heap of tagged blocks and its accessors,
//! * the stack-discipline root-registration protocol (frames),
//! * the conversion layer, call protocol and deep clone built on top.
//!
//! The collector's own algorithm is out of scope: the heap here is a model
//! that never moves a block, so every contract speaks of stable addresses.
#![allow(unused_imports)]

pub mod call;
pub mod conv;
pub mod frame;
pub mod graph;
pub mod handler;
pub mod raw;
pub mod runtime;
pub mod tag;
pub mod value;

use vstd::prelude::*;

use crate::value::Value;

verus! {

/// Structured recoverable errors of the call protocol.
///
/// `NotCallable` reports a callee whose tag is not `CLOSURE`; `Exception`
/// carries the value a callee raised instead of returning.
#[derive(Clone, Copy, Debug, PartialEq, Eq, Structural)]
pub enum Error {
    NotCallable,
    Exception(Value),
}

} // verus!
