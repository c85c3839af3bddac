//! The buffer: an ordered, growable sequence of pages exposing a logically
//! contiguous byte range. Page `i` holds logical bytes
//! `[i * PAGE_SIZE, (i + 1) * PAGE_SIZE)`, so every address computation is
//! plain division and remainder. Pages come from a `PagePool` and go back to
//! it when the buffer is recycled.

use vstd::arithmetic::div_mod::{
    lemma_fundamental_div_mod, lemma_fundamental_div_mod_converse, lemma_mod_bound,
};
use vstd::arithmetic::mul::lemma_mul_inequality;
use vstd::multiset::Multiset;
use vstd::prelude::*;
use vstd::slice::slice_subrange;

use crate::page::Page;
use crate::pool::PagePool;
use crate::PAGE_SIZE;

verus! {

broadcast use vstd::multiset::group_multiset_axioms;

/// The number of whole pages needed to cover `bytes` bytes.
pub open spec fn pages_for(bytes: int) -> int {
    if bytes % (PAGE_SIZE as int) == 0 {
        bytes / (PAGE_SIZE as int)
    } else {
        bytes / (PAGE_SIZE as int) + 1
    }
}

/// `pages_for` rounds up to the nearest whole page and no further.
pub proof fn lemma_pages_for(bytes: int)
    requires
        0 <= bytes,
    ensures
        0 <= pages_for(bytes),
        bytes <= pages_for(bytes) * PAGE_SIZE < bytes + PAGE_SIZE,
{
    let d = PAGE_SIZE as int;
    lemma_fundamental_div_mod(bytes, d);
    lemma_mod_bound(bytes, d);
    let q = bytes / d;
    let r = bytes % d;
    if q < 0 {
        lemma_mul_inequality(q, -1, d);
        assert(false);
    }
}

/// Covering more bytes never takes fewer pages.
pub proof fn lemma_pages_for_mono(a: int, b: int)
    requires
        0 <= a <= b,
    ensures
        pages_for(a) <= pages_for(b),
{
    lemma_pages_for(a);
    lemma_pages_for(b);
    if pages_for(a) > pages_for(b) {
        lemma_mul_inequality(pages_for(b) + 1, pages_for(a), PAGE_SIZE as int);
        assert(false);
    }
}

/// A byte count that ends inside page `k` — past `k` whole pages but within
/// `k + 1` — needs exactly `k + 1` pages.
pub proof fn lemma_pages_for_exact(k: int, m: int)
    requires
        0 <= k,
        k * PAGE_SIZE < m <= (k + 1) * PAGE_SIZE,
    ensures
        pages_for(m) == k + 1,
{
    let d = PAGE_SIZE as int;
    assert((k + 1) * d == k * d + d);
    if m == (k + 1) * d {
        lemma_fundamental_div_mod_converse(m, d, k + 1, 0);
    } else {
        lemma_fundamental_div_mod_converse(m, d, k, m - k * d);
    }
}

/// Decompose a logical byte offset `i` inside an `n`-page range into its page
/// index and in-page offset.
proof fn lemma_block_of(i: int, n: int)
    requires
        0 <= i,
        i < n * (PAGE_SIZE as int),
    ensures
        0 <= i / (PAGE_SIZE as int) < n,
        0 <= i % (PAGE_SIZE as int) < PAGE_SIZE,
        i == (i / (PAGE_SIZE as int)) * (PAGE_SIZE as int) + i % (PAGE_SIZE as int),
{
    let d = PAGE_SIZE as int;
    lemma_fundamental_div_mod(i, d);
    lemma_mod_bound(i, d);
    let q = i / d;
    if q < 0 {
        lemma_mul_inequality(q, -1, d);
        assert(false);
    }
    if q >= n {
        lemma_mul_inequality(n, q, d);
        assert(false);
    }
}

/// A page index and in-page offset address the logical byte they compose.
proof fn lemma_page_index(b: int, o: int)
    requires
        0 <= b,
        0 <= o < PAGE_SIZE,
    ensures
        (b * PAGE_SIZE + o) / (PAGE_SIZE as int) == b,
        (b * PAGE_SIZE + o) % (PAGE_SIZE as int) == o,
{
    lemma_fundamental_div_mod_converse(b * PAGE_SIZE + o, PAGE_SIZE as int, b, o);
}

/// The multiset of page contents in a sequence of pages.
pub open spec fn pages_multiset(ps: Seq<Seq<u8>>) -> Multiset<Seq<u8>>
    decreases ps.len(),
{
    if ps.len() == 0 {
        Multiset::empty()
    } else {
        pages_multiset(ps.drop_last()).insert(ps.last())
    }
}

/// An ordered, growable sequence of pages viewed as one contiguous byte
/// range. The view is the concatenation of the page contents; the capacity is
/// the view's length, always a whole number of pages.
pub struct Buffer {
    pages: Vec<Page>,
}

impl View for Buffer {
    type V = Seq<u8>;

    open spec fn view(&self) -> Seq<u8> {
        Seq::new(
            (self.page_count() * PAGE_SIZE) as nat,
            |i: int| self.pages_view()[i / (PAGE_SIZE as int)][i % (PAGE_SIZE as int)],
        )
    }
}

impl Buffer {
    /// The contents of each page, in page order.
    pub closed spec fn pages_view(&self) -> Seq<Seq<u8>> {
        self.pages@.map_values(|p: Page| p@)
    }

    /// The number of pages.
    pub open spec fn page_count(&self) -> int {
        self.pages_view().len() as int
    }

    /// Every page holds exactly `PAGE_SIZE` bytes and the total capacity fits
    /// in a `usize`.
    pub open spec fn wf(&self) -> bool {
        &&& forall|i: int|
            0 <= i < self.page_count() ==> (#[trigger] self.pages_view()[i]).len() == PAGE_SIZE
        &&& self.page_count() * PAGE_SIZE <= usize::MAX
    }

    /// An empty buffer with no pages.
    pub fn new() -> (b: Buffer)
        ensures
            b.wf(),
            b@.len() == 0,
            b.page_count() == 0,
    {
        Buffer { pages: Vec::new() }
    }

    /// The number of pages currently backing the buffer.
    pub fn pages(&self) -> (r: usize)
        ensures
            r == self.page_count(),
    {
        self.pages.len()
    }

    /// The total number of bytes the pages can hold.
    pub fn capacity(&self) -> (r: usize)
        requires
            self.wf(),
        ensures
            r == self@.len(),
    {
        self.pages.len() * PAGE_SIZE
    }

    /// Append one page taken from the pool. The bytes already in the buffer
    /// keep their place; the new page brings whatever contents it had in the
    /// pool, or zeros when it is fresh.
    pub fn add_page(&mut self, pool: &mut PagePool)
        requires
            old(self).wf(),
            old(pool).inv(),
            old(self)@.len() + PAGE_SIZE <= usize::MAX,
        ensures
            final(self).wf(),
            final(pool).inv(),
            final(self)@.len() == old(self)@.len() + PAGE_SIZE,
            final(self)@.subrange(0, old(self)@.len() as int) == old(self)@,
            final(pool)@.subset_of(old(pool)@),
            old(pool)@.len() == 0 ==> final(pool)@ == old(pool)@,
            old(pool)@.len() > 0 ==> final(pool)@.len() == old(pool)@.len() - 1,
            exists|s: Seq<u8>|
                {
                    &&& s.len() == PAGE_SIZE
                    &&& final(self).pages_view() == old(self).pages_view().push(s)
                    &&& if old(pool)@.len() == 0 {
                        final(pool)@ == old(pool)@
                    } else {
                        old(pool)@.contains(s) && final(pool)@ == old(pool)@.remove(s)
                    }
                },
    {
        let p = pool.acquire();
        let ghost c = p@;
        self.pages.push(p);
        proof {
            let n = old(self).page_count();
            assert(self.pages_view() =~= old(self).pages_view().push(c));
            assert((n + 1) * PAGE_SIZE == n * PAGE_SIZE + PAGE_SIZE);
            assert forall|i: int| 0 <= i < old(self)@.len() implies self@[i] == old(self)@[i] by {
                lemma_block_of(i, n);
            }
            assert(self@.subrange(0, old(self)@.len() as int) =~= old(self)@);
        }
    }

    /// A buffer of exactly `pages` pages, each taken from the pool.
    pub fn with_pages(pool: &mut PagePool, pages: usize) -> (b: Buffer)
        requires
            old(pool).inv(),
            pages * PAGE_SIZE <= usize::MAX,
        ensures
            b.wf(),
            final(pool).inv(),
            b@.len() == pages * PAGE_SIZE,
            b.page_count() == pages,
            final(pool)@.subset_of(old(pool)@),
            final(pool)@.len() == (if old(pool)@.len() <= pages {
                0int
            } else {
                old(pool)@.len() - pages
            }),
    {
        let mut b = Buffer::new();
        let mut i: usize = 0;
        while i < pages
            invariant
                b.wf(),
                pool.inv(),
                i <= pages,
                b.page_count() == i,
                b@.len() == i * PAGE_SIZE,
                pages * PAGE_SIZE <= usize::MAX,
                pool@.subset_of(old(pool)@),
                pool@.len() == (if old(pool)@.len() <= i {
                    0int
                } else {
                    old(pool)@.len() - i
                }),
            decreases pages - i,
        {
            let ghost pool_before = pool@;
            proof {
                lemma_mul_inequality(i + 1, pages as int, PAGE_SIZE as int);
                assert((i + 1) * PAGE_SIZE == i * PAGE_SIZE + PAGE_SIZE);
            }
            b.add_page(pool);
            proof {
                crate::pool::lemma_subset_transitive(pool@, pool_before, old(pool)@);
            }
            i = i + 1;
        }
        b
    }

    /// A buffer whose capacity is `bytes` rounded up to whole pages: the
    /// least capacity that is at least `bytes`, and less than one page more.
    pub fn with_capacity(pool: &mut PagePool, bytes: usize) -> (b: Buffer)
        requires
            old(pool).inv(),
            bytes + PAGE_SIZE <= usize::MAX,
        ensures
            b.wf(),
            final(pool).inv(),
            b@.len() == pages_for(bytes as int) * PAGE_SIZE,
            bytes <= b@.len() < bytes + PAGE_SIZE,
            final(pool)@.subset_of(old(pool)@),
            final(pool)@.len() == (if old(pool)@.len() <= pages_for(bytes as int) {
                0int
            } else {
                old(pool)@.len() - pages_for(bytes as int)
            }),
    {
        proof {
            lemma_pages_for(bytes as int);
        }
        let div = bytes / PAGE_SIZE;
        let rem = bytes % PAGE_SIZE;
        let pages = if rem == 0 {
            div
        } else {
            div + 1
        };
        Buffer::with_pages(pool, pages)
    }

    /// Grow, never shrink, until the capacity is at least `bytes`. Already
    /// sufficient capacity is left untouched; otherwise whole pages are
    /// appended to cover exactly the missing bytes.
    pub fn reserve(&mut self, pool: &mut PagePool, bytes: usize)
        requires
            old(self).wf(),
            old(pool).inv(),
            bytes + PAGE_SIZE <= usize::MAX,
        ensures
            final(self).wf(),
            final(pool).inv(),
            final(self)@.len() >= bytes,
            final(self)@.subrange(0, old(self)@.len() as int) == old(self)@,
            old(self)@.len() > bytes ==> final(self)@ == old(self)@,
            old(self)@.len() <= bytes ==> final(self)@.len() == old(self)@.len() + pages_for(
                bytes - old(self)@.len(),
            ) * PAGE_SIZE,
            final(pool)@.subset_of(old(pool)@),
            old(self)@.len() > bytes ==> final(pool)@ == old(pool)@,
            old(self)@.len() <= bytes ==> final(pool)@.len() == (if old(pool)@.len() <= pages_for(
                bytes - old(self)@.len(),
            ) {
                0int
            } else {
                old(pool)@.len() - pages_for(bytes - old(self)@.len())
            }),
    {
        let cap = self.capacity();
        if cap > bytes {
            proof {
                assert(self@.subrange(0, self@.len() as int) =~= self@);
            }
        } else {
            proof {
                lemma_pages_for(bytes - cap);
            }
            self.reserve_extra(pool, bytes - cap);
        }
    }

    /// Grow by at least `bytes` more bytes of capacity, in whole pages:
    /// exactly the number of pages that cover `bytes`.
    pub fn reserve_extra(&mut self, pool: &mut PagePool, bytes: usize)
        requires
            old(self).wf(),
            old(pool).inv(),
            old(self)@.len() + bytes + PAGE_SIZE <= usize::MAX,
        ensures
            final(self).wf(),
            final(pool).inv(),
            final(self)@.len() == old(self)@.len() + pages_for(bytes as int) * PAGE_SIZE,
            final(self)@.subrange(0, old(self)@.len() as int) == old(self)@,
            final(pool)@.subset_of(old(pool)@),
            final(pool)@.len() == (if old(pool)@.len() <= pages_for(bytes as int) {
                0int
            } else {
                old(pool)@.len() - pages_for(bytes as int)
            }),
    {
        proof {
            lemma_pages_for(bytes as int);
        }
        let div = bytes / PAGE_SIZE;
        let rem = bytes % PAGE_SIZE;
        let blocks = if rem == 0 {
            div
        } else {
            div + 1
        };
        let ghost orig = *self;
        let mut i: usize = 0;
        while i < blocks
            invariant
                self.wf(),
                pool.inv(),
                i <= blocks,
                blocks == pages_for(bytes as int),
                orig.wf(),
                orig@.len() + blocks * PAGE_SIZE <= usize::MAX,
                self@.len() == orig@.len() + i * PAGE_SIZE,
                self@.subrange(0, orig@.len() as int) == orig@,
                pool@.subset_of(old(pool)@),
                pool@.len() == (if old(pool)@.len() <= i {
                    0int
                } else {
                    old(pool)@.len() - i
                }),
            decreases blocks - i,
        {
            proof {
                lemma_mul_inequality(i + 1, blocks as int, PAGE_SIZE as int);
                assert((i + 1) * PAGE_SIZE == i * PAGE_SIZE + PAGE_SIZE);
            }
            let ghost before = *self;
            let ghost pool_before = pool@;
            self.add_page(pool);
            proof {
                crate::pool::lemma_subset_transitive(pool@, pool_before, old(pool)@);
            }
            proof {
                assert forall|j: int| 0 <= j < orig@.len() implies self@[j] == orig@[j] by {
                    assert(self@.subrange(0, before@.len() as int)[j] == self@[j]);
                    assert(before@.subrange(0, orig@.len() as int)[j] == before@[j]);
                }
                assert(self@.subrange(0, orig@.len() as int) =~= orig@);
            }
            i = i + 1;
        }
    }

    /// A bounded read-only view into the page containing logical offset
    /// `watermark`: the bytes from `watermark` to the end of its page, capped
    /// at `limit`. `None` when `watermark` lies beyond the last page.
    pub fn read_first(&self, watermark: usize, limit: usize) -> (r: Option<&[u8]>)
        requires
            self.wf(),
        ensures
            ({
                let off = watermark as int % (PAGE_SIZE as int);
                let l = if limit as int <= PAGE_SIZE - off {
                    limit as int
                } else {
                    PAGE_SIZE - off
                };
                match r {
                    None => watermark as int / (PAGE_SIZE as int) >= self.page_count(),
                    Some(s) => {
                        &&& watermark as int / (PAGE_SIZE as int) < self.page_count()
                        &&& s@.len() == l
                        &&& s@ == self@.subrange(watermark as int, watermark + l)
                    },
                }
            }),
    {
        let block = watermark / PAGE_SIZE;
        let offset = watermark % PAGE_SIZE;
        if block >= self.pages.len() {
            return None;
        }
        let s = self.pages[block].as_slice();
        let take = if limit <= PAGE_SIZE - offset {
            limit
        } else {
            PAGE_SIZE - offset
        };
        proof {
            assert(self.pages_view()[block as int] == s@);
            lemma_fundamental_div_mod(watermark as int, PAGE_SIZE as int);
            lemma_mul_inequality(block as int + 1, self.page_count(), PAGE_SIZE as int);
            assert((block + 1) * PAGE_SIZE == block * PAGE_SIZE + PAGE_SIZE);
        }
        let r = slice_subrange(s, offset, offset + take);
        proof {
            assert forall|k: int| 0 <= k < take implies r@[k] == self@.subrange(
                watermark as int,
                watermark + take,
            )[k] by {
                lemma_page_index(block as int, offset + k);
                assert(watermark + k == block * PAGE_SIZE + (offset + k));
            }
            assert(r@ =~= self@.subrange(watermark as int, watermark + take));
        }
        Some(r)
    }

    /// A bounded read-only view of page `block`: its first `limit` bytes,
    /// capped at the page size. `None` when there is no such page.
    pub fn read_block(&self, block: usize, limit: usize) -> (r: Option<&[u8]>)
        requires
            self.wf(),
        ensures
            ({
                let l = if limit as int <= PAGE_SIZE as int {
                    limit as int
                } else {
                    PAGE_SIZE as int
                };
                match r {
                    None => block >= self.page_count(),
                    Some(s) => {
                        &&& block < self.page_count()
                        &&& s@.len() == l
                        &&& s@ == self@.subrange(
                            block * PAGE_SIZE,
                            block * PAGE_SIZE + l,
                        )
                    },
                }
            }),
    {
        if block >= self.pages.len() {
            return None;
        }
        let s = self.pages[block].as_slice();
        let take = if limit <= PAGE_SIZE {
            limit
        } else {
            PAGE_SIZE
        };
        proof {
            assert(self.pages_view()[block as int] == s@);
            lemma_mul_inequality(block + 1, self.page_count(), PAGE_SIZE as int);
            assert((block + 1) * PAGE_SIZE == block * PAGE_SIZE + PAGE_SIZE);
        }
        let r = slice_subrange(s, 0, take);
        proof {
            assert forall|k: int| 0 <= k < take implies r@[k] == self@.subrange(
                block * PAGE_SIZE,
                block * PAGE_SIZE + take,
            )[k] by {
                lemma_page_index(block as int, k);
            }
            assert(r@ =~= self@.subrange(block * PAGE_SIZE, block * PAGE_SIZE + take));
        }
        Some(r)
    }

    /// Overwrite the byte at logical offset `offset`.
    pub fn write_byte(&mut self, offset: usize, b: u8)
        requires
            old(self).wf(),
            offset < old(self)@.len(),
        ensures
            final(self).wf(),
            final(self).page_count() == old(self).page_count(),
            final(self)@ == old(self)@.update(offset as int, b),
    {
        proof {
            lemma_block_of(offset as int, old(self).page_count());
        }
        let block = offset / PAGE_SIZE;
        let off = offset % PAGE_SIZE;
        proof {
            assert(old(self).pages_view()[block as int] == old(self).pages@[block as int]@);
        }
        self.pages[block].write(off, b);
        proof {
            assert(self.pages_view() =~= old(self).pages_view().update(
                block as int,
                old(self).pages_view()[block as int].update(off as int, b),
            ));
            assert forall|i: int| 0 <= i < self@.len() implies self@[i] == old(self)@.update(
                offset as int,
                b,
            )[i] by {
                lemma_block_of(i, self.page_count());
                if i != offset {
                    if i / (PAGE_SIZE as int) == block {
                        assert(i % (PAGE_SIZE as int) != off);
                    }
                }
            }
            assert(self@ =~= old(self)@.update(offset as int, b));
        }
    }

    /// Hand every page back to the pool, consuming the buffer. No page is
    /// destroyed: the pool gains exactly the buffer's page contents.
    pub fn recycle(self, pool: &mut PagePool)
        requires
            self.wf(),
            old(pool).inv(),
        ensures
            final(pool).inv(),
            final(pool)@ == old(pool)@.add(pages_multiset(self.pages_view())),
    {
        let ghost orig = self.pages_view();
        let mut pages = self.pages;
        proof {
            assert forall|i: int| 0 <= i < pages@.len() implies (#[trigger] pages@[i])@.len()
                == PAGE_SIZE by {
                assert(orig[i] == pages@[i]@);
            }
        }
        loop
            invariant
                pool.inv(),
                forall|i: int| 0 <= i < pages@.len() ==> (#[trigger] pages@[i])@.len() == PAGE_SIZE,
                old(pool)@.add(pages_multiset(orig)) == pool@.add(
                    pages_multiset(pages@.map_values(|p: Page| p@)),
                ),
            ensures
                pages@.len() == 0,
            decreases pages@.len(),
        {
            let ghost before = pages@.map_values(|p: Page| p@);
            match pages.pop() {
                Some(p) => {
                    proof {
                        assert(pages@.map_values(|p: Page| p@) =~= before.drop_last());
                        assert(before.last() == p@);
                        assert(pages_multiset(before) == pages_multiset(before.drop_last()).insert(
                            p@,
                        ));
                    }
                    pool.release(p);
                    proof {
                        let rest = pages_multiset(pages@.map_values(|p: Page| p@));
                        assert(pool@.add(rest) =~= old(pool)@.add(pages_multiset(orig)));
                    }
                },
                None => {
                    break;
                },
            }
        }
        proof {
            assert(pages_multiset(pages@.map_values(|p: Page| p@)) == Multiset::<Seq<u8>>::empty());
            assert(pool@ =~= pool@.add(Multiset::<Seq<u8>>::empty()));
        }
    }
}

} // verus!
