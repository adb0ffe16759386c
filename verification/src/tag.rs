//! Classification of heap block kinds.
//!
//! The byte in a block's header selects its representational kind.  Tags
//! 0–245 are ordinary scanned blocks (tuples, variants, list cells); the
//! named tags from `LAZY` upward are special.  Every tag at or above
//! `NO_SCAN` marks a block whose contents the collector does not scan.

use vstd::prelude::*;

verus! {

/// Lazy suspension block.
pub const LAZY: u8 = 246;

/// Closure block: the only callable kind.
pub const CLOSURE: u8 = 247;

/// Object block: field 0 holds the method table.
pub const OBJECT: u8 = 248;

/// Infix header inside a mutually recursive closure block.
pub const INFIX: u8 = 249;

/// Forwarding pointer left by a short-circuited lazy value.
pub const FORWARD: u8 = 250;

/// Abstract block: an opaque word the collector never scans.
pub const ABSTRACT: u8 = 251;

/// Least tag whose blocks the collector does not scan.
pub const NO_SCAN: u8 = 251;

/// Text/byte buffer block.
pub const STRING: u8 = 252;

/// Boxed floating-point block.
pub const DOUBLE: u8 = 253;

/// Unboxed floating-point array block.
pub const DOUBLE_ARRAY: u8 = 254;

/// Custom block: an operations word followed by opaque payload words.
pub const CUSTOM: u8 = 255;

/// The header byte selecting a block's representational kind.
#[derive(Clone, Copy, Debug, PartialEq, Eq, Structural)]
pub struct Tag(pub u8);

impl Tag {
    /// The raw tag byte.
    pub fn byte(self) -> (b: u8)
        ensures
            b == self.0,
    {
        self.0
    }

    /// Does this tag mark a block the collector does not scan?
    pub fn is_no_scan(self) -> (b: bool)
        ensures
            b == (self.0 >= NO_SCAN),
    {
        self.0 >= NO_SCAN
    }
}

} // verus!
