//! Binary data that is passed around as one piece.

use crate::error::AllocationError;
use vstd::prelude::*;

verus! {

/// Blobs wrap a chunk of binary data.
///
/// Blobs are primarily used to create font faces, and to hand out the bytes of a font face.
/// Once made, the bytes of a blob never change.
#[derive(Debug)]
pub struct Blob {
    data: Vec<u8>,
}

impl View for Blob {
    type V = Seq<u8>;

    /// The bytes of the blob.
    closed spec fn view(&self) -> Seq<u8> {
        self.data@
    }
}

impl Blob {
    #[verifier::type_invariant]
    spec fn inv(self) -> bool {
        self.data@.len() <= u32::MAX
    }

    /// Creates a new blob object holding a copy of the bytes of a slice.
    ///
    /// Fails when the slice is longer than a blob can be: more than `u32::MAX` bytes.
    pub fn from_bytes(buffer: &[u8]) -> (r: Result<Self, AllocationError>)
        ensures
            buffer@.len() <= u32::MAX ==> r is Ok && r->Ok_0@ == buffer@,
            buffer@.len() > u32::MAX ==> r is Err,
    {
        if buffer.len() > u32::MAX as usize {
            return Err(AllocationError);
        }
        let mut data: Vec<u8> = Vec::new();
        let mut i: usize = 0;
        while i < buffer.len()
            invariant
                i <= buffer.len(),
                buffer@.len() <= u32::MAX,
                data@ == buffer@.take(i as int),
            decreases buffer.len() - i,
        {
            data.push(buffer[i]);
            i += 1;
            proof {
                assert(data@ =~= buffer@.take(i as int));
            }
        }
        proof {
            assert(buffer@.take(buffer.len() as int) =~= buffer@);
        }
        Ok(Blob { data })
    }

    /// The blob without any bytes.
    pub fn empty() -> (r: Self)
        ensures
            r@ == Seq::<u8>::empty(),
    {
        Blob { data: Vec::new() }
    }

    /// Tests whether the blob is empty, i.e. its length is 0.
    pub fn is_empty(&self) -> (r: bool)
        ensures
            r == (self@.len() == 0),
    {
        self.len() == 0
    }

    /// Returns the number of bytes in the blob.
    pub fn len(&self) -> (n: usize)
        ensures
            n == self@.len(),
            n <= u32::MAX,
    {
        proof {
            use_type_invariant(self);
        }
        self.data.len()
    }

    /// Converts the blob into its raw form: its bytes.
    pub fn into_raw(self) -> (r: Vec<u8>)
        ensures
            r@ == self@,
            r@.len() <= u32::MAX,
    {
        proof {
            use_type_invariant(&self);
        }
        self.data
    }

    /// Exposes the raw form of the blob without giving it away.
    pub fn as_raw(&self) -> (r: &Vec<u8>)
        ensures
            r@ == self@,
            r@.len() <= u32::MAX,
    {
        proof {
            use_type_invariant(self);
        }
        &self.data
    }

    /// Constructs a blob from its raw form.
    ///
    /// The bytes must be no more than a blob can hold: `u32::MAX` at most.
    pub fn from_raw(data: Vec<u8>) -> (r: Self)
        requires
            data@.len() <= u32::MAX,
        ensures
            r@ == data@,
    {
        Blob { data }
    }

    /// The bytes of the blob.
    pub fn as_bytes(&self) -> (r: &Vec<u8>)
        ensures
            r@ == self@,
    {
        &self.data
    }

    /// A copy of the bytes of the blob.
    pub fn to_vec(&self) -> (r: Vec<u8>)
        ensures
            r@ == self@,
    {
        let mut out: Vec<u8> = Vec::new();
        let mut i: usize = 0;
        while i < self.data.len()
            invariant
                i <= self.data.len(),
                out@ == self.data@.take(i as int),
            decreases self.data.len() - i,
        {
            out.push(self.data[i]);
            i += 1;
            proof {
                assert(out@ =~= self.data@.take(i as int));
            }
        }
        proof {
            assert(self.data@.take(self.data.len() as int) =~= self.data@);
        }
        out
    }
}

impl Clone for Blob {
    fn clone(&self) -> (r: Self)
        ensures
            r@ == self@,
    {
        proof {
            use_type_invariant(self);
        }
        Blob { data: self.to_vec() }
    }
}

} // verus!
