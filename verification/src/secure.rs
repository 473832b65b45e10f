//! A byte container for secret material. Its contents can be overwritten
//! with zeros when no longer needed, and the type deliberately has no
//! `Debug` or `Display`, so default value-printing never reveals it.

use vstd::prelude::*;

verus! {

/// A secret byte payload (master passphrase, derived key, or an entry's
/// password). Call [`SecureBytes::wipe`] before discarding a value to
/// overwrite the backing memory with zeros.
pub struct SecureBytes {
    data: Vec<u8>,
}

impl View for SecureBytes {
    type V = Seq<u8>;

    closed spec fn view(&self) -> Seq<u8> {
        self.data@
    }
}

impl SecureBytes {
    /// Wraps a byte payload.
    pub fn new(data: Vec<u8>) -> (r: SecureBytes)
        ensures
            r@ == data@,
    {
        SecureBytes { data }
    }

    /// The wrapped bytes, for handing to the cipher or key derivation.
    pub fn expose(&self) -> (r: &Vec<u8>)
        ensures
            r@ == self@,
    {
        &self.data
    }

    /// The payload's length in bytes.
    pub fn len(&self) -> (r: usize)
        ensures
            r == self@.len(),
    {
        self.data.len()
    }

    /// Overwrites every byte of the payload with zero. The length is kept,
    /// so the container stays usable as a placeholder of the same shape.
    pub fn wipe(&mut self)
        ensures
            final(self)@.len() == old(self)@.len(),
            forall|i: int| 0 <= i < final(self)@.len() ==> final(self)@[i] == 0u8,
    {
        let n = self.data.len();
        let mut i: usize = 0;
        while i < n
            invariant
                n == self.data@.len(),
                i <= n,
                forall|j: int| 0 <= j < i ==> self.data@[j] == 0u8,
            decreases n - i,
        {
            self.data.set(i, 0u8);
            i = i + 1;
        }
    }
}

impl Clone for SecureBytes {
    /// An independent copy, with its own zeroing responsibility.
    fn clone(&self) -> (r: SecureBytes)
        ensures
            r@ == self@,
    {
        let mut data: Vec<u8> = Vec::new();
        let n = self.data.len();
        let mut i: usize = 0;
        while i < n
            invariant
                n == self.data@.len(),
                i <= n,
                data@ == self.data@.take(i as int),
            decreases n - i,
        {
            data.push(self.data[i]);
            i = i + 1;
        }
        proof {
            assert(data@ =~= self.data@);
        }
        SecureBytes { data }
    }
}

} // verus!
