//! The three ways an operation of this crate can fail.

use vstd::prelude::*;

verus! {

/// An error returned when an allocation fails.
#[derive(Clone, Copy, Debug, PartialEq, Eq, Structural)]
pub struct AllocationError;

/// An error returned when font face could not be subset.
#[derive(Clone, Copy, Debug, PartialEq, Eq, Structural)]
pub struct SubsettingError;

/// An error returned when a font face could not be extracted from blob.
#[derive(Clone, Copy, Debug, PartialEq, Eq, Structural)]
pub struct FontFaceExtractionError;

impl AllocationError {
    /// The message shown for this error.
    pub fn message(&self) -> (r: String)
        ensures
            r@ == "Failed to allocate object"@,
    {
        "Failed to allocate object".to_owned()
    }
}

impl SubsettingError {
    /// The message shown for this error.
    pub fn message(&self) -> (r: String)
        ensures
            r@ == "Failed to subset font face"@,
    {
        "Failed to subset font face".to_owned()
    }
}

impl FontFaceExtractionError {
    /// The message shown for this error.
    pub fn message(&self) -> (r: String)
        ensures
            r@ == "Failed to extract font face from blob"@,
    {
        "Failed to extract font face from blob".to_owned()
    }
}

} // verus!
