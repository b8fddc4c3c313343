//! What is known of the sender of a request.

use vstd::prelude::*;

verus! {

/// The standing of the sender of a request.
#[derive(Clone, Copy, Debug, PartialEq, Eq)]
pub struct RequestData {
    pub is_admin: bool,
}

/// Whether two byte strings are the same.
pub fn same_bytes(a: &[u8], b: &[u8]) -> (same: bool)
    ensures
        same == (a@ == b@),
{
    if a.len() != b.len() {
        return false;
    }
    let mut i: usize = 0;
    while i < a.len()
        invariant
            i <= a@.len(),
            a@.len() == b@.len(),
            a@.take(i as int) == b@.take(i as int),
        decreases a@.len() - i,
    {
        if a[i] != b[i] {
            return false;
        }
        i = i + 1;
        assert(a@.take(i as int) =~= a@.take(i - 1).push(a@[i - 1]));
        assert(b@.take(i as int) =~= b@.take(i - 1).push(b@[i - 1]));
    }
    assert(a@.take(i as int) =~= a@);
    assert(b@.take(i as int) =~= b@);
    true
}

impl RequestData {
    /// The sender is an administrator if the request carries the admin header
    /// and the header holds the secret, byte for byte.
    pub fn from_admin_header(header: Option<&[u8]>, secret: &[u8]) -> (data: RequestData)
        ensures
            data.is_admin == (header matches Some(value) && value@ == secret@),
    {
        match header {
            Some(value) => RequestData { is_admin: same_bytes(value, secret) },
            None => RequestData { is_admin: false },
        }
    }
}

} // verus!
