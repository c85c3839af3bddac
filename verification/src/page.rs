//! A page: one fixed-size block of bytes, the unit of buffer growth and of
//! pool recycling.

use vstd::prelude::*;

use crate::PAGE_SIZE;

verus! {

/// The contents of a page that has never been written: all zero bytes.
pub open spec fn zero_page() -> Seq<u8> {
    Seq::new(PAGE_SIZE as nat, |i: int| 0u8)
}

/// One page-sized block of bytes. Pages are interchangeable storage: a page
/// taken from the pool keeps whatever bytes its previous owner left in it.
pub struct Page {
    bytes: Vec<u8>,
}

impl View for Page {
    type V = Seq<u8>;

    closed spec fn view(&self) -> Seq<u8> {
        self.bytes@
    }
}

impl Page {
    /// A page is well formed when it holds exactly `PAGE_SIZE` bytes.
    pub open spec fn wf(&self) -> bool {
        self@.len() == PAGE_SIZE
    }

    /// A fresh, zero-filled page.
    pub fn zeroed() -> (p: Page)
        ensures
            p.wf(),
            p@ == zero_page(),
    {
        let mut bytes: Vec<u8> = Vec::new();
        while bytes.len() < PAGE_SIZE
            invariant
                bytes@.len() <= PAGE_SIZE,
                forall|i: int| 0 <= i < bytes@.len() ==> bytes@[i] == 0u8,
            decreases PAGE_SIZE - bytes@.len(),
        {
            bytes.push(0u8);
        }
        proof {
            assert(bytes@ =~= zero_page());
        }
        Page { bytes }
    }

    /// Wrap a page-sized byte vector as a page.
    pub fn from_vec(bytes: Vec<u8>) -> (p: Page)
        requires
            bytes@.len() == PAGE_SIZE,
        ensures
            p.wf(),
            p@ == bytes@,
    {
        Page { bytes }
    }

    /// Unwrap the page into its byte vector.
    pub fn into_vec(self) -> (v: Vec<u8>)
        ensures
            v@ == self@,
    {
        self.bytes
    }

    /// The page's bytes as a slice.
    pub fn as_slice(&self) -> (s: &[u8])
        ensures
            s@ == self@,
    {
        self.bytes.as_slice()
    }

    /// Overwrite the byte at `i`.
    pub fn write(&mut self, i: usize, b: u8)
        requires
            i < old(self)@.len(),
        ensures
            final(self)@ == old(self)@.update(i as int, b),
    {
        self.bytes[i] = b;
    }
}

} // verus!
