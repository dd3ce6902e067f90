//! The identifier value type: exactly 16 raw bytes, freely copyable, with
//! byte-wise equality and an all-zero default.

use vstd::prelude::*;

verus! {

/// A 128-bit identifier, held as 16 raw bytes.
///
/// Any 16-byte sequence is a valid identifier; no structure beyond byte
/// order is meaningful. Its mathematical view is the sequence of its bytes.
#[derive(Debug, Clone, Copy)]
pub struct ID128 {
    value: [u8; 16],
}

impl PartialEq for ID128 {
    /// Byte-wise equality of the two 16-byte values.
    fn eq(&self, other: &ID128) -> (r: bool) {
        let mut i: usize = 0;
        while i < 16
            invariant
                i <= 16,
                forall|k: int| 0 <= k < i ==> self.value@[k] == other.value@[k],
            decreases 16 - i,
        {
            if self.value[i] != other.value[i] {
                return false;
            }
            i = i + 1;
        }
        proof {
            assert(self@ =~= other@);
        }
        true
    }
}

impl Eq for ID128 {}

impl vstd::std_specs::cmp::PartialEqSpecImpl for ID128 {
    open spec fn obeys_eq_spec() -> bool {
        true
    }

    open spec fn eq_spec(&self, other: &ID128) -> bool {
        self@ == other@
    }
}

impl View for ID128 {
    type V = Seq<u8>;

    closed spec fn view(&self) -> Seq<u8> {
        self.value@
    }
}

/// Errors raised by this library.
///
/// Variants:
/// - `NullError`: a string handed to a native-library call contained an
///   embedded NUL byte.
/// - `SDError`: a native-library call returned a negative error code, which
///   is carried verbatim.
/// - `IntoStringError`: a native-library call produced output that was not
///   valid UTF-8.
/// - `ParseStringError`: the text parser rejected its input; carries a fixed
///   diagnostic message and the offending character offset (or the observed
///   total length, for length mismatches).
#[derive(Debug, PartialEq, Eq)]
pub enum Error {
    NullError,
    SDError(i32),
    IntoStringError,
    ParseStringError(&'static str, usize),
}

/// The view of an identifier is always a sequence of exactly 16 bytes.
pub broadcast proof fn lemma_id128_view_len(id: ID128)
    ensures
        #[trigger] id@.len() == 16,
{
}

impl ID128 {
    /// Constructs an identifier from a raw 16-byte value; never fails.
    pub fn from_raw_value(value: [u8; 16]) -> (r: ID128)
        ensures
            r@ == value@,
    {
        ID128 { value }
    }

    /// Returns a read-only view of the raw 16-byte value.
    pub fn as_raw_value(&self) -> (r: &[u8; 16])
        ensures
            r@ == self@,
    {
        &self.value
    }

    /// Returns a mutable view of the raw 16-byte value.
    pub fn as_mut_raw_value(&mut self) -> (r: &mut [u8; 16])
        ensures
            (*r)@ == old(self)@,
            final(self)@ == (*final(r))@,
    {
        &mut self.value
    }

    /// Consumes the identifier, yielding its raw 16-byte value.
    pub fn into_raw_value(self) -> (r: [u8; 16])
        ensures
            r@ == self@,
    {
        self.value
    }
}

impl Default for ID128 {
    /// The all-zero identifier.
    fn default() -> (r: ID128)
        ensures
            r@ == Seq::<u8>::new(16, |i: int| 0u8),
    {
        let r = ID128 { value: [0u8; 16] };
        proof {
            assert(r.value@ =~= Seq::<u8>::new(16, |i: int| 0u8));
        }
        r
    }
}

} // verus!
