//! Scatter/gather views: cursor-driven producers that translate a logical
//! byte range of a buffer into its per-page spans.
//!
//! The read view yields read-only slices bounded by a total length; the write
//! view yields page spans with no length bound, growing the buffer as the
//! cursor advances. Both advance one page per step and are single-pass.

use vstd::arithmetic::div_mod::lemma_fundamental_div_mod;
use vstd::arithmetic::mul::lemma_mul_inequality;
use vstd::prelude::*;

use crate::buffer::Buffer;
use crate::pool::PagePool;
use crate::PAGE_SIZE;

verus! {

/// A cursor over a bounded, read-only byte range of a buffer.
///
/// Each step yields the bytes from the cursor to the end of its page, capped
/// by the remaining length bound, and moves the cursor to the next page
/// boundary. The sequence ends when the bound is exhausted or the buffer has
/// no page under the cursor; ending early on missing pages is not an error,
/// the caller checks how much was produced.
pub struct Readable {
    cursor: usize,
    remaining: usize,
}

impl Readable {
    /// The logical byte offset the next slice starts at.
    pub closed spec fn cursor(&self) -> int {
        self.cursor as int
    }

    /// How many more bytes the view may still yield.
    pub closed spec fn remaining(&self) -> int {
        self.remaining as int
    }

    /// A read view over `len` bytes starting at logical offset `from`.
    pub fn new(from: usize, len: usize) -> (r: Readable)
        ensures
            r.cursor() == from,
            r.remaining() == len,
    {
        Readable { cursor: from, remaining: len }
    }

    /// The next read-only slice, or `None` when the view is exhausted.
    pub fn next<'a>(&mut self, buf: &'a Buffer) -> (r: Option<&'a [u8]>)
        requires
            buf.wf(),
        ensures
            ({
                let off = old(self).cursor() % (PAGE_SIZE as int);
                let l = if old(self).remaining() <= PAGE_SIZE - off {
                    old(self).remaining()
                } else {
                    PAGE_SIZE - off
                };
                match r {
                    None => {
                        &&& old(self).remaining() == 0 || old(self).cursor() / (PAGE_SIZE as int)
                            >= buf.page_count()
                        &&& *final(self) == *old(self)
                    },
                    Some(s) => {
                        &&& old(self).remaining() > 0
                        &&& old(self).cursor() / (PAGE_SIZE as int) < buf.page_count()
                        &&& s@.len() == l
                        &&& s@ == buf@.subrange(old(self).cursor(), old(self).cursor() + l)
                        &&& final(self).cursor() == old(self).cursor() - off + PAGE_SIZE
                        &&& final(self).remaining() == old(self).remaining() - l
                    },
                }
            }),
    {
        if self.remaining == 0 {
            return None;
        }
        let offset = self.cursor % PAGE_SIZE;
        match buf.read_first(self.cursor, self.remaining) {
            None => None,
            Some(s) => {
                proof {
                    lemma_fundamental_div_mod(self.cursor as int, PAGE_SIZE as int);
                    let block = self.cursor as int / (PAGE_SIZE as int);
                    lemma_mul_inequality(block + 1, buf.page_count(), PAGE_SIZE as int);
                    assert((block + 1) * PAGE_SIZE == block * PAGE_SIZE + PAGE_SIZE);
                }
                let l = s.len();
                self.cursor = self.cursor - offset + PAGE_SIZE;
                self.remaining = self.remaining - l;
                Some(s)
            },
        }
    }
}

/// A cursor over an open-ended, writable byte range of a buffer.
///
/// Each step names the page span the cursor lies in, growing the buffer by
/// exactly the pages needed for that span to exist, and moves the cursor to
/// the next page boundary.
pub struct Writeable {
    cursor: usize,
}

impl Writeable {
    /// The logical byte offset the next span starts at.
    pub closed spec fn cursor(&self) -> int {
        self.cursor as int
    }

    /// A write view starting at logical offset `from`.
    pub fn new(from: usize) -> (r: Writeable)
        ensures
            r.cursor() == from,
    {
        Writeable { cursor: from }
    }

    /// The page index and in-page offset of the cursor, after growing the
    /// buffer so that page exists. The span runs from that offset to the end
    /// of the page; bytes already in the buffer keep their place.
    pub fn next_span(&mut self, buf: &mut Buffer, pool: &mut PagePool) -> (r: (usize, usize))
        requires
            old(buf).wf(),
            old(pool).inv(),
            old(self).cursor() + PAGE_SIZE <= usize::MAX,
        ensures
            final(buf).wf(),
            final(pool).inv(),
            r.0 == old(self).cursor() / (PAGE_SIZE as int),
            r.1 == old(self).cursor() % (PAGE_SIZE as int),
            0 <= r.1 < PAGE_SIZE,
            final(buf).page_count() == if old(buf).page_count() >= r.0 + 1 {
                old(buf).page_count()
            } else {
                r.0 + 1
            },
            final(buf)@.len() >= old(buf)@.len(),
            final(buf)@.subrange(0, old(buf)@.len() as int) == old(buf)@,
            final(buf)@.len() >= old(self).cursor() + (PAGE_SIZE - r.1),
            final(self).cursor() == old(self).cursor() - r.1 + PAGE_SIZE,
            final(pool)@.subset_of(old(pool)@),
            (old(pool)@.len() - final(pool)@.len()) * PAGE_SIZE <= final(buf)@.len() - old(
                buf,
            )@.len(),
    {
        let block = self.cursor / PAGE_SIZE;
        let offset = self.cursor % PAGE_SIZE;
        proof {
            lemma_fundamental_div_mod(self.cursor as int, PAGE_SIZE as int);
        }
        let ghost orig = *buf;
        while buf.pages() < block + 1
            invariant
                buf.wf(),
                pool.inv(),
                orig.wf(),
                block * PAGE_SIZE + PAGE_SIZE <= usize::MAX,
                orig.page_count() <= buf.page_count(),
                buf.page_count() <= if orig.page_count() >= block + 1 {
                    orig.page_count()
                } else {
                    block as int + 1
                },
                buf@.subrange(0, orig@.len() as int) == orig@,
                pool@.subset_of(old(pool)@),
                (old(pool)@.len() - pool@.len()) * PAGE_SIZE <= buf@.len() - orig@.len(),
            decreases block + 1 - buf.page_count(),
        {
            proof {
                lemma_mul_inequality(buf.page_count(), block as int, PAGE_SIZE as int);
            }
            let ghost before = *buf;
            let ghost pool_before = pool@;
            buf.add_page(pool);
            proof {
                crate::pool::lemma_subset_transitive(pool@, pool_before, old(pool)@);
                lemma_mul_inequality(
                    old(pool)@.len() - pool@.len(),
                    (old(pool)@.len() - pool_before.len()) + 1,
                    PAGE_SIZE as int,
                );
                assert(((old(pool)@.len() - pool_before.len()) + 1) * PAGE_SIZE == (old(
                    pool,
                )@.len() - pool_before.len()) * PAGE_SIZE + PAGE_SIZE);
            }
            proof {
                assert forall|j: int| 0 <= j < orig@.len() implies buf@[j] == orig@[j] by {
                    assert(buf@.subrange(0, before@.len() as int)[j] == buf@[j]);
                    assert(before@.subrange(0, orig@.len() as int)[j] == before@[j]);
                }
                assert(buf@.subrange(0, orig@.len() as int) =~= orig@);
            }
        }
        proof {
            lemma_mul_inequality(block as int + 1, buf.page_count(), PAGE_SIZE as int);
            assert((block + 1) * PAGE_SIZE == block * PAGE_SIZE + PAGE_SIZE);
        }
        self.cursor = self.cursor - offset + PAGE_SIZE;
        (block, offset)
    }
}

} // verus!
