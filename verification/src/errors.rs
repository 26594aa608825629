//! The single domain error of the packer.

use vstd::prelude::*;

verus! {

/// Packing failed because the canvas has no remaining region large enough for
/// an item; carries the width and height of the item that could not be placed.
#[derive(Debug, Clone, Copy, PartialEq, Eq, Structural)]
pub enum PackError {
    PackerOutOfSpace(u32, u32),
}

impl PackError {
    /// The width and height of the item that triggered the failure.
    pub fn target_slot(&self) -> (r: (u32, u32))
        ensures
            *self == PackError::PackerOutOfSpace(r.0, r.1),
    {
        match self {
            PackError::PackerOutOfSpace(w, h) => (*w, *h),
        }
    }
}

} // verus!
