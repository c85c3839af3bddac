//! Watermark-tracked read and write buffers: the state machines that stage
//! bytes between callers and positional file I/O.
//!
//! Each owns one `Buffer` plus two cursors, `low` and `high`, with
//! `0 <= low <= high <= capacity`. The bytes in `[low, high)` are the live
//! region: unconsumed data on the read side, unflushed data on the write
//! side. The syscall itself is the caller's affair; these types do all the
//! bookkeeping, so the view of either buffer is exactly its live region.

use vstd::arithmetic::div_mod::{lemma_fundamental_div_mod, lemma_mod_bound};
use vstd::arithmetic::mul::lemma_mul_inequality;
use vstd::prelude::*;

use crate::buffer::{lemma_pages_for_exact, lemma_pages_for_mono, pages_for, Buffer};
use crate::pool::PagePool;
use crate::views::{Readable, Writeable};
use crate::PAGE_SIZE;

verus! {

/// Copy `data` into the buffer starting at logical offset `at`, growing the
/// buffer by exactly the pages needed as the copy crosses page boundaries:
/// afterwards the capacity is the larger of what it was and the whole-page
/// cover of `at + data.len()`. Bytes below `at` keep their place, and an
/// empty copy leaves the buffer untouched.
#[verifier::loop_isolation(false)]
fn append_at(buf: &mut Buffer, pool: &mut PagePool, at: usize, data: &[u8])
    requires
        old(buf).wf(),
        old(pool).inv(),
        at <= old(buf)@.len(),
        at + data@.len() + PAGE_SIZE <= usize::MAX,
    ensures
        final(buf).wf(),
        final(pool).inv(),
        final(buf)@.len() >= old(buf)@.len(),
        final(buf)@.len() >= at + data@.len(),
        data@.len() == 0 ==> *final(buf) == *old(buf),
        data@.len() > 0 ==> final(buf)@.len() == (if old(buf)@.len() >= pages_for(
            at + data@.len(),
        ) * PAGE_SIZE {
            old(buf)@.len() as int
        } else {
            pages_for(at + data@.len()) * PAGE_SIZE
        }),
        final(buf)@.subrange(0, at as int) == old(buf)@.subrange(0, at as int),
        final(buf)@.subrange(at as int, at + data@.len()) == data@,
        final(pool)@.subset_of(old(pool)@),
        (old(pool)@.len() - final(pool)@.len()) * PAGE_SIZE <= final(buf)@.len() - old(buf)@.len(),
{
    let mut wr = Writeable::new(at);
    let mut written: usize = 0;
    while written < data.len()
        invariant
            buf.wf(),
            pool.inv(),
            written <= data@.len(),
            buf@.len() >= old(buf)@.len(),
            buf@.len() >= at + written,
            written == 0 ==> *buf == *old(buf),
            written > 0 ==> buf@.len() == (if old(buf)@.len() >= pages_for(at + written)
                * PAGE_SIZE {
                old(buf)@.len() as int
            } else {
                pages_for(at + written) * PAGE_SIZE
            }),
            pool@.subset_of(old(pool)@),
            (old(pool)@.len() - pool@.len()) * PAGE_SIZE <= buf@.len() - old(buf)@.len(),
            written < data@.len() ==> wr.cursor() == at + written,
            buf@.subrange(0, at as int) == old(buf)@.subrange(0, at as int),
            buf@.subrange(at as int, at + written) == data@.take(written as int),
        decreases data@.len() - written,
    {
        let ghost snap = buf@;
        let ghost pool_before = pool@;
        let (block, off) = wr.next_span(buf, pool);
        proof {
            assert forall|i: int| 0 <= i < at + written implies buf@[i] == snap[i] by {
                assert(buf@.subrange(0, snap.len() as int)[i] == buf@[i]);
            }
            crate::pool::lemma_subset_transitive(pool@, pool_before, old(pool)@);
            lemma_mul_inequality(
                old(pool)@.len() - pool@.len(),
                (old(pool)@.len() - pool_before.len()) + (pool_before.len() - pool@.len()),
                PAGE_SIZE as int,
            );
            vstd::arithmetic::mul::lemma_mul_is_distributive_add(
                PAGE_SIZE as int,
                old(pool)@.len() - pool_before.len(),
                pool_before.len() - pool@.len(),
            );
        }
        let remaining = data.len() - written;
        let span = PAGE_SIZE - off;
        let l = if remaining <= span {
            remaining
        } else {
            span
        };
        let ghost grown = buf@;
        let mut j: usize = 0;
        while j < l
            invariant
                buf.wf(),
                j <= l,
                buf@.len() == grown.len(),
                at + written + l <= grown.len(),
                forall|i: int|
                    0 <= i < grown.len() && !(at + written <= i < at + written + j) ==> buf@[i]
                        == grown[i],
                forall|i: int|
                    0 <= i < j ==> #[trigger] buf@[at + written + i] == data@[written + i],
            decreases l - j,
        {
            buf.write_byte(at + written + j, data[written + j]);
            j = j + 1;
        }
        proof {
            assert(buf@.subrange(0, at as int) =~= old(buf)@.subrange(0, at as int)) by {
                assert forall|i: int| 0 <= i < at implies buf@[i] == snap[i] by {
                    assert(grown[i] == snap[i]);
                }
            }
            assert(buf@.subrange(at as int, at + (written + l)) =~= data@.take(written + l)) by {
                assert forall|k: int| 0 <= k < written + l implies buf@[at + k] == data@[k] by {
                    if k < written {
                        assert(grown[at + k] == snap[at + k]);
                        assert(snap.subrange(at as int, at + written)[k] == snap[at + k]);
                        assert(data@.take(written as int)[k] == data@[k]);
                    } else {
                        assert(buf@[at + written + (k - written)] == data@[written + (k
                            - written)]);
                    }
                }
            }
            let c = at + written;
            lemma_fundamental_div_mod(c as int, PAGE_SIZE as int);
            assert((block + 1) * PAGE_SIZE == block * PAGE_SIZE + PAGE_SIZE);
            lemma_pages_for_exact(block as int, c + l);
            if written > 0 {
                lemma_pages_for_mono(c as int, c + l);
                lemma_mul_inequality(pages_for(c as int), block as int + 1, PAGE_SIZE as int);
            }
        }
        written = written + l;
    }
    proof {
        assert(data@.take(written as int) =~= data@);
    }
}

/// The concatenation of a sequence of byte strings, in order.
pub open spec fn concat_all(chunks: Seq<Seq<u8>>) -> Seq<u8>
    decreases chunks.len(),
{
    if chunks.len() == 0 {
        Seq::empty()
    } else {
        concat_all(chunks.drop_last()) + chunks.last()
    }
}

/// The live region after a sequence of appends, each of which extends the
/// region by its bytes, as `buffer` and `fill_from` ensure for every call.
pub open spec fn after_appends(start: Seq<u8>, chunks: Seq<Seq<u8>>) -> Seq<u8>
    decreases chunks.len(),
{
    if chunks.len() == 0 {
        start
    } else {
        after_appends(start, chunks.drop_last()) + chunks.last()
    }
}

/// Law: a buffer that starts from any live region and receives any sequence
/// of appends holds that region followed by exactly the concatenation of the
/// appended byte strings, in call order, with no gaps and no overlaps. In
/// particular a buffer that starts empty holds exactly the concatenation, so
/// a full drain hands the file exactly the bytes that were buffered.
pub proof fn lemma_appends_concatenate(start: Seq<u8>, chunks: Seq<Seq<u8>>)
    ensures
        after_appends(start, chunks) == start + concat_all(chunks),
    decreases chunks.len(),
{
    if chunks.len() == 0 {
        assert(after_appends(start, chunks) =~= start + concat_all(chunks));
    } else {
        lemma_appends_concatenate(start, chunks.drop_last());
        assert(after_appends(start, chunks) =~= start + concat_all(chunks));
    }
}

/// A write buffer: callers append bytes with `buffer`, and a drain to a file
/// removes them from the front as the write completes.
///
/// The view is the unflushed region `[low, high)`. Appends extend it at
/// `high` in call order, so after any sequence of `buffer` calls the region
/// is exactly the concatenation of the appended byte strings, with no gaps
/// and no overlaps; a drain that writes the whole region to a file therefore
/// writes exactly that concatenation.
pub struct WriteBuffer {
    buffer: Buffer,
    high: usize,
    low: usize,
}

impl View for WriteBuffer {
    type V = Seq<u8>;

    open spec fn view(&self) -> Seq<u8> {
        self.storage()@.subrange(self.low(), self.high())
    }
}

impl WriteBuffer {
    /// The page store the watermarks index into.
    pub closed spec fn storage(&self) -> Buffer {
        self.buffer
    }

    /// Bytes below `low` have already been flushed.
    pub closed spec fn low(&self) -> int {
        self.low as int
    }

    /// Bytes below `high` have been buffered.
    pub closed spec fn high(&self) -> int {
        self.high as int
    }

    /// The watermarks sit inside the storage in order, and an empty live
    /// region always sits at the origin.
    pub open spec fn wf(&self) -> bool {
        &&& self.storage().wf()
        &&& 0 <= self.low() <= self.high() <= self.storage()@.len()
        &&& (self.low() == self.high() ==> self.low() == 0)
    }

    /// An empty write buffer with no pages.
    pub fn new() -> (w: WriteBuffer)
        ensures
            w.wf(),
            w@ == Seq::<u8>::empty(),
            w.low() == 0,
            w.high() == 0,
            w.storage()@.len() == 0,
    {
        WriteBuffer::from_buffer(Buffer::new())
    }

    /// An empty write buffer whose storage covers at least `bytes` bytes.
    pub fn with_capacity(pool: &mut PagePool, bytes: usize) -> (w: WriteBuffer)
        requires
            old(pool).inv(),
            bytes + PAGE_SIZE <= usize::MAX,
        ensures
            w.wf(),
            final(pool).inv(),
            w@ == Seq::<u8>::empty(),
            w.low() == 0,
            w.high() == 0,
            bytes <= w.storage()@.len() < bytes + PAGE_SIZE,
            final(pool)@.subset_of(old(pool)@),
            final(pool)@.len() == (if old(pool)@.len() <= pages_for(bytes as int) {
                0int
            } else {
                old(pool)@.len() - pages_for(bytes as int)
            }),
    {
        WriteBuffer::from_buffer(Buffer::with_capacity(pool, bytes))
    }

    /// Wrap an existing buffer; the live region starts empty.
    pub fn from_buffer(buffer: Buffer) -> (w: WriteBuffer)
        requires
            buffer.wf(),
        ensures
            w.wf(),
            w@ == Seq::<u8>::empty(),
            w.low() == 0,
            w.high() == 0,
            w.storage() == buffer,
    {
        let w = WriteBuffer { buffer, high: 0, low: 0 };
        proof {
            assert(w@ =~= Seq::<u8>::empty());
        }
        w
    }

    /// Give the storage back, dropping the watermarks.
    pub fn into_buffer(self) -> (b: Buffer)
        ensures
            b == self.storage(),
    {
        self.buffer
    }

    /// Forget the live region without touching the stored bytes.
    pub fn clear(&mut self)
        ensures
            final(self).wf() == old(self).storage().wf(),
            final(self)@ == Seq::<u8>::empty(),
            final(self).low() == 0,
            final(self).high() == 0,
            final(self).storage() == old(self).storage(),
    {
        self.high = 0;
        self.low = 0;
        proof {
            assert(self@ =~= Seq::<u8>::empty());
        }
    }

    /// How many buffered bytes await their flush.
    pub fn len(&self) -> (r: usize)
        requires
            self.wf(),
        ensures
            r == self@.len(),
            r == self.high() - self.low(),
    {
        self.high - self.low
    }

    /// The watermarks, low then high.
    pub fn marks(&self) -> (r: (usize, usize))
        ensures
            r.0 == self.low(),
            r.1 == self.high(),
    {
        (self.low, self.high)
    }

    /// Append the caller's bytes after the bytes already buffered: the live
    /// region becomes its old value followed by `data`, in order, and the
    /// count of accepted bytes, always all of `data`, is returned. The
    /// storage grows by whole pages from the pool as needed.
    pub fn buffer(&mut self, pool: &mut PagePool, data: &[u8]) -> (n: usize)
        requires
            old(self).wf(),
            old(pool).inv(),
            old(self).high() + data@.len() + PAGE_SIZE <= usize::MAX,
        ensures
            final(self).wf(),
            final(pool).inv(),
            n == data@.len(),
            final(self).low() == old(self).low(),
            final(self).high() == old(self).high() + n,
            final(self)@ == old(self)@ + data@,
            final(self).storage()@.len() >= old(self).storage()@.len(),
            data@.len() == 0 ==> final(self).storage() == old(self).storage(),
            data@.len() > 0 ==> final(self).storage()@.len() == (if old(self).storage()@.len()
                >= pages_for(old(self).high() + data@.len()) * PAGE_SIZE {
                old(self).storage()@.len() as int
            } else {
                pages_for(old(self).high() + data@.len()) * PAGE_SIZE
            }),
            final(pool)@.subset_of(old(pool)@),
            (old(pool)@.len() - final(pool)@.len()) * PAGE_SIZE <= final(self).storage()@.len()
                - old(self).storage()@.len(),
    {
        append_at(&mut self.buffer, pool, self.high, data);
        self.high = self.high + data.len();
        proof {
            assert forall|i: int| 0 <= i < self@.len() implies self@[i] == (old(self)@ + data@)[i]
                by {
                let at = old(self).high();
                if self.low() + i < at {
                    assert(self.storage()@.subrange(0, at)[self.low() + i] == self.storage()@[
                        self.low() + i
                    ]);
                    assert(old(self).storage()@.subrange(0, at)[self.low() + i] == old(
                        self,
                    ).storage()@[self.low() + i]);
                } else {
                    assert(self.storage()@.subrange(at, at + data@.len())[self.low() + i - at]
                        == self.storage()@[self.low() + i]);
                }
            }
            assert(self@ =~= old(self)@ + data@);
        }
        data.len()
    }

    /// A read view positioned over the live region, for gathering the
    /// unflushed bytes into I/O slices.
    pub fn readable(&self) -> (r: Readable)
        requires
            self.wf(),
        ensures
            r.cursor() == self.low(),
            r.remaining() == self.high() - self.low(),
    {
        Readable::new(self.low, self.high - self.low)
    }

    /// Borrow the storage, for reading the gathered slices out of it.
    pub fn storage_ref(&self) -> (r: &Buffer)
        ensures
            *r == self.storage(),
    {
        &self.buffer
    }

    /// A copy of the live region, in order.
    pub fn pending(&self) -> (out: Vec<u8>)
        requires
            self.wf(),
        ensures
            out@ == self@,
    {
        gather(&self.buffer, self.low, self.high - self.low)
    }

    /// Record that the first `n` live bytes reached the file: the live region
    /// loses its first `n` bytes, and a fully drained buffer resets both
    /// watermarks to the origin so its pages can be reused from the start.
    pub fn complete_write(&mut self, n: usize)
        requires
            old(self).wf(),
            n <= old(self)@.len(),
        ensures
            final(self).wf(),
            final(self)@ == old(self)@.skip(n as int),
            final(self).storage() == old(self).storage(),
            n == old(self)@.len() ==> final(self).low() == 0 && final(self).high() == 0,
            n < old(self)@.len() ==> final(self).low() == old(self).low() + n && final(self).high()
                == old(self).high(),
    {
        let len = self.high - self.low;
        if n == len {
            self.clear();
            proof {
                assert(self@ =~= old(self)@.skip(n as int));
            }
        } else {
            self.low = self.low + n;
            proof {
                assert(self@ =~= old(self)@.skip(n as int));
            }
        }
    }
}

/// A read buffer: a fill from a file appends bytes at `high`, and callers
/// take them from the front with `consume`.
///
/// The view is the unconsumed region `[low, high)`.
pub struct ReadBuffer {
    buffer: Buffer,
    high: usize,
    low: usize,
}

impl View for ReadBuffer {
    type V = Seq<u8>;

    open spec fn view(&self) -> Seq<u8> {
        self.storage()@.subrange(self.low(), self.high())
    }
}

impl ReadBuffer {
    /// The page store the watermarks index into.
    pub closed spec fn storage(&self) -> Buffer {
        self.buffer
    }

    /// Bytes below `low` have already been consumed.
    pub closed spec fn low(&self) -> int {
        self.low as int
    }

    /// Bytes below `high` have been filled from the file.
    pub closed spec fn high(&self) -> int {
        self.high as int
    }

    /// The watermarks sit inside the storage in order, and an empty live
    /// region always sits at the origin.
    pub open spec fn wf(&self) -> bool {
        &&& self.storage().wf()
        &&& 0 <= self.low() <= self.high() <= self.storage()@.len()
        &&& (self.low() == self.high() ==> self.low() == 0)
    }

    /// An empty read buffer with no pages.
    pub fn new() -> (r: ReadBuffer)
        ensures
            r.wf(),
            r@ == Seq::<u8>::empty(),
            r.low() == 0,
            r.high() == 0,
            r.storage()@.len() == 0,
    {
        ReadBuffer::from_buffer(Buffer::new())
    }

    /// An empty read buffer whose storage covers at least `bytes` bytes.
    pub fn with_capacity(pool: &mut PagePool, bytes: usize) -> (r: ReadBuffer)
        requires
            old(pool).inv(),
            bytes + PAGE_SIZE <= usize::MAX,
        ensures
            r.wf(),
            final(pool).inv(),
            r@ == Seq::<u8>::empty(),
            r.low() == 0,
            r.high() == 0,
            bytes <= r.storage()@.len() < bytes + PAGE_SIZE,
            final(pool)@.subset_of(old(pool)@),
            final(pool)@.len() == (if old(pool)@.len() <= pages_for(bytes as int) {
                0int
            } else {
                old(pool)@.len() - pages_for(bytes as int)
            }),
    {
        ReadBuffer::from_buffer(Buffer::with_capacity(pool, bytes))
    }

    /// Wrap an existing buffer; the live region starts empty.
    pub fn from_buffer(buffer: Buffer) -> (r: ReadBuffer)
        requires
            buffer.wf(),
        ensures
            r.wf(),
            r@ == Seq::<u8>::empty(),
            r.low() == 0,
            r.high() == 0,
            r.storage() == buffer,
    {
        let r = ReadBuffer { buffer, high: 0, low: 0 };
        proof {
            assert(r@ =~= Seq::<u8>::empty());
        }
        r
    }

    /// Give the storage back, dropping the watermarks.
    pub fn into_buffer(self) -> (b: Buffer)
        ensures
            b == self.storage(),
    {
        self.buffer
    }

    /// Forget the live region without touching the stored bytes.
    pub fn clear(&mut self)
        ensures
            final(self).wf() == old(self).storage().wf(),
            final(self)@ == Seq::<u8>::empty(),
            final(self).low() == 0,
            final(self).high() == 0,
            final(self).storage() == old(self).storage(),
    {
        self.high = 0;
        self.low = 0;
        proof {
            assert(self@ =~= Seq::<u8>::empty());
        }
    }

    /// How many filled bytes await consumption.
    pub fn len(&self) -> (r: usize)
        requires
            self.wf(),
        ensures
            r == self@.len(),
            r == self.high() - self.low(),
    {
        self.high - self.low
    }

    /// The watermarks, low then high.
    pub fn marks(&self) -> (r: (usize, usize))
        ensures
            r.0 == self.low(),
            r.1 == self.high(),
    {
        (self.low, self.high)
    }

    /// Advance `low` by `bytes`, capped at `high`: the live region loses its
    /// first `min(bytes, high - low)` bytes. Consuming zero bytes changes
    /// nothing; consuming the whole live region always resets both watermarks
    /// to the origin.
    pub fn consume(&mut self, bytes: usize)
        requires
            old(self).wf(),
        ensures
            final(self).wf(),
            final(self).storage() == old(self).storage(),
            ({
                let k = if bytes as int <= old(self)@.len() {
                    bytes as int
                } else {
                    old(self)@.len() as int
                };
                final(self)@ == old(self)@.skip(k)
            }),
            bytes == 0 ==> final(self).low() == old(self).low() && final(self).high()
                == old(self).high(),
            bytes >= old(self)@.len() ==> final(self).low() == 0 && final(self).high() == 0,
            bytes < old(self)@.len() ==> final(self).low() == old(self).low() + bytes
                && final(self).high() == old(self).high(),
    {
        let len = self.high - self.low;
        if bytes >= len {
            self.clear();
            proof {
                assert(self@ =~= old(self)@.skip(old(self)@.len() as int));
            }
        } else {
            self.low = self.low + bytes;
            proof {
                assert(self@ =~= old(self)@.skip(bytes as int));
            }
        }
    }

    /// Append bytes read from a file after the bytes already filled: the live
    /// region becomes its old value followed by `data`, `high` advances by
    /// `data.len()`, and the storage grows by whole pages from the pool as
    /// needed. This is the bookkeeping half of a fill: the caller performs
    /// the positional read and hands the bytes it obtained here.
    pub fn fill_from(&mut self, pool: &mut PagePool, data: &[u8]) -> (n: usize)
        requires
            old(self).wf(),
            old(pool).inv(),
            old(self).high() + data@.len() + PAGE_SIZE <= usize::MAX,
        ensures
            final(self).wf(),
            final(pool).inv(),
            n == data@.len(),
            final(self).low() == old(self).low(),
            final(self).high() == old(self).high() + n,
            final(self)@ == old(self)@ + data@,
            final(self).storage()@.len() >= old(self).storage()@.len(),
            data@.len() == 0 ==> final(self).storage() == old(self).storage(),
            data@.len() > 0 ==> final(self).storage()@.len() == (if old(self).storage()@.len()
                >= pages_for(old(self).high() + data@.len()) * PAGE_SIZE {
                old(self).storage()@.len() as int
            } else {
                pages_for(old(self).high() + data@.len()) * PAGE_SIZE
            }),
            final(pool)@.subset_of(old(pool)@),
            (old(pool)@.len() - final(pool)@.len()) * PAGE_SIZE <= final(self).storage()@.len()
                - old(self).storage()@.len(),
    {
        append_at(&mut self.buffer, pool, self.high, data);
        self.high = self.high + data.len();
        proof {
            assert forall|i: int| 0 <= i < self@.len() implies self@[i] == (old(self)@ + data@)[i]
                by {
                let at = old(self).high();
                if self.low() + i < at {
                    assert(self.storage()@.subrange(0, at)[self.low() + i] == self.storage()@[
                        self.low() + i
                    ]);
                    assert(old(self).storage()@.subrange(0, at)[self.low() + i] == old(
                        self,
                    ).storage()@[self.low() + i]);
                } else {
                    assert(self.storage()@.subrange(at, at + data@.len())[self.low() + i - at]
                        == self.storage()@[self.low() + i]);
                }
            }
            assert(self@ =~= old(self)@ + data@);
        }
        data.len()
    }

    /// A copy of the live region, in order.
    pub fn unconsumed(&self) -> (out: Vec<u8>)
        requires
            self.wf(),
        ensures
            out@ == self@,
    {
        gather(&self.buffer, self.low, self.high - self.low)
    }
}

/// Materialize `len` bytes of the buffer starting at `from` into one vector,
/// page span by page span: the concatenation of the slices a read view
/// yields over that range reproduces the range exactly.
pub fn gather(buf: &Buffer, from: usize, len: usize) -> (out: Vec<u8>)
    requires
        buf.wf(),
        from + len <= buf@.len(),
    ensures
        out@ == buf@.subrange(from as int, from + len),
{
    let mut rd = Readable::new(from, len);
    let mut out: Vec<u8> = Vec::new();
    loop
        invariant
            buf.wf(),
            from + len <= buf@.len(),
            out@.len() <= len,
            out@ == buf@.subrange(from as int, from + out@.len()),
            rd.remaining() == len - out@.len(),
            rd.remaining() > 0 ==> rd.cursor() == from + out@.len(),
        ensures
            out@.len() == len,
        decreases rd.remaining(),
    {
        let ghost out0 = out@;
        match rd.next(buf) {
            None => {
                proof {
                    if out@.len() < len {
                        let c = from + out@.len();
                        lemma_fundamental_div_mod(c, PAGE_SIZE as int);
                        lemma_mod_bound(c, PAGE_SIZE as int);
                        lemma_mul_inequality(
                            buf.page_count(),
                            c / (PAGE_SIZE as int),
                            PAGE_SIZE as int,
                        );
                        assert(false);
                    }
                }
                break;
            },
            Some(s) => {
                let mut j: usize = 0;
                let l = s.len();
                while j < l
                    invariant
                        j <= l,
                        l == s@.len(),
                        out@ == out0 + s@.take(j as int),
                    decreases l - j,
                {
                    out.push(s[j]);
                    proof {
                        assert(out@ =~= out0 + s@.take(j + 1));
                    }
                    j = j + 1;
                }
                proof {
                    assert(s@.take(l as int) =~= s@);
                    assert(out@ =~= buf@.subrange(from as int, from + out@.len())) by {
                        assert forall|i: int| 0 <= i < out@.len() implies out@[i] == buf@[from + i]
                            by {
                            if i < out0.len() {
                                assert(out0[i] == buf@.subrange(from as int, from + out0.len())[i]);
                            } else {
                                assert(s@[i - out0.len()] == buf@.subrange(
                                    from + out0.len(),
                                    from + out0.len() + s@.len(),
                                )[i - out0.len()]);
                            }
                        }
                    }
                }
            },
        }
    }
    proof {
        assert(out@ =~= buf@.subrange(from as int, from + len));
    }
    out
}

} // verus!
