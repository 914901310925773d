//! Hierarchical service names.
//!
//! Both ends of a service agree on a name; a name that does not satisfy the
//! rules below is a configuration error, fatal at construction time.

use vstd::prelude::*;

verus! {

/// Construction failures of a [`ServiceName`].
#[derive(Clone, Copy, Debug, PartialEq, Eq, Structural)]
pub enum NameError {
    /// The byte string is empty, too long, holds a forbidden byte, or has
    /// an empty hierarchy segment.
    InvalidName,
}

/// Longest accepted name, in bytes.
pub const MAX_NAME_LEN: usize = 255;

/// Bytes a service name may consist of: ASCII letters and digits,
/// `_`, `-`, `.`, and `/` as the hierarchy separator.
pub open spec fn allowed_byte(b: u8) -> bool {
    (97 <= b <= 122)  // a-z
    || (65 <= b <= 90)  // A-Z
    || (48 <= b <= 57)  // 0-9
    || b == 95  // _
    || b == 45  // -
    || b == 46  // .
    || b == 47  // /
}

/// A valid name is non-empty, at most [`MAX_NAME_LEN`] bytes, made of
/// allowed bytes, and its `/`-separated hierarchy segments are all
/// non-empty (no leading, trailing or doubled separator).
pub open spec fn valid_name(s: Seq<u8>) -> bool {
    &&& 1 <= s.len() <= MAX_NAME_LEN
    &&& forall|i: int| 0 <= i < s.len() ==> allowed_byte(#[trigger] s[i])
    &&& s[0] != 47
    &&& s[s.len() - 1] != 47
    &&& forall|i: int| 0 <= i < s.len() - 1 ==> !(#[trigger] s[i] == 47 && s[i + 1] == 47)
}

/// A validated, hierarchical service name.
pub struct ServiceName {
    bytes: Vec<u8>,
}

impl View for ServiceName {
    type V = Seq<u8>;

    closed spec fn view(&self) -> Seq<u8> {
        self.bytes@
    }
}

impl ServiceName {
    pub open spec fn wf(&self) -> bool {
        valid_name(self@)
    }

    /// Validates `bytes` as a service name. Succeeds exactly on valid
    /// names and then carries the bytes unchanged.
    pub fn new(bytes: Vec<u8>) -> (r: Result<ServiceName, NameError>)
        ensures
            r is Ok <==> valid_name(bytes@),
            r is Ok ==> r->Ok_0@ == bytes@ && r->Ok_0.wf(),
            r is Err ==> r == Result::<ServiceName, NameError>::Err(NameError::InvalidName),
    {
        if bytes.len() == 0 || bytes.len() > MAX_NAME_LEN {
            return Err(NameError::InvalidName);
        }
        if bytes[0] == 47 || bytes[bytes.len() - 1] == 47 {
            return Err(NameError::InvalidName);
        }
        let mut i: usize = 0;
        while i < bytes.len()
            invariant
                i <= bytes.len(),
                forall|j: int| 0 <= j < i ==> allowed_byte(#[trigger] bytes@[j]),
                forall|j: int| 0 <= j < i - 1 ==> !(#[trigger] bytes@[j] == 47 && bytes@[j + 1] == 47),
            decreases bytes.len() - i,
        {
            let b = bytes[i];
            let ok = (97 <= b && b <= 122) || (65 <= b && b <= 90) || (48 <= b && b <= 57)
                || b == 95 || b == 45 || b == 46 || b == 47;
            if !ok {
                return Err(NameError::InvalidName);
            }
            if b == 47 && i > 0 && bytes[i - 1] == 47 {
                return Err(NameError::InvalidName);
            }
            i = i + 1;
        }
        Ok(ServiceName { bytes })
    }

    /// The validated bytes of the name.
    pub fn as_bytes(&self) -> (r: &Vec<u8>)
        ensures
            r@ == self@,
    {
        &self.bytes
    }

    pub fn len(&self) -> (n: usize)
        ensures
            n == self@.len(),
    {
        self.bytes.len()
    }
}

} // verus!
