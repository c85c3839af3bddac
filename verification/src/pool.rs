//! The page pool: a process-wide recycling store of page-sized byte blocks.
//!
//! Releasing a buffer returns its pages here instead of freeing them;
//! acquiring a page reuses a released one when any is available and creates a
//! fresh zero-filled page otherwise. The store itself is a lock-free
//! multi-producer multi-consumer queue from the `concurrent_queue` crate,
//! reached only through the trusted wrappers below.

use vstd::multiset::Multiset;
use vstd::prelude::*;

use crate::page::{zero_page, Page};
use crate::PAGE_SIZE;

verus! {

broadcast use vstd::multiset::group_multiset_axioms;

#[verifier::external_type_specification]
#[verifier::external_body]
#[verifier::reject_recursive_types(T)]
pub struct ExConcurrentQueue<T>(concurrent_queue::ConcurrentQueue<T>);

/// The multiset of byte contents of the blocks a pool queue holds.
pub uninterp spec fn queue_contents(q: concurrent_queue::ConcurrentQueue<Vec<u8>>) -> Multiset<
    Seq<u8>,
>;

/// Whether the queue has never been closed, so that pushes are accepted.
pub uninterp spec fn queue_open(q: concurrent_queue::ConcurrentQueue<Vec<u8>>) -> bool;

/// Relies on concurrent_queue::ConcurrentQueue::unbounded: a freshly created
/// unbounded queue is not closed and holds nothing.
#[verifier::external_body]
fn queue_new() -> (q: concurrent_queue::ConcurrentQueue<Vec<u8>>)
    ensures
        queue_open(q),
        queue_contents(q) == Multiset::<Seq<u8>>::empty(),
{
    concurrent_queue::ConcurrentQueue::unbounded()
}

/// Relies on concurrent_queue::ConcurrentQueue::push: on an unbounded queue
/// that has not been closed, push always succeeds and enqueues the item.
#[verifier::external_body]
fn queue_push(q: &mut concurrent_queue::ConcurrentQueue<Vec<u8>>, item: Vec<u8>)
    requires
        queue_open(*old(q)),
    ensures
        queue_open(*final(q)),
        queue_contents(*final(q)) == queue_contents(*old(q)).insert(item@),
{
    let _ = q.push(item);
}

/// Relies on concurrent_queue::ConcurrentQueue::pop: pop returns an item
/// while the queue holds one and reports Empty only when it holds none.
#[verifier::external_body]
fn queue_pop(q: &mut concurrent_queue::ConcurrentQueue<Vec<u8>>) -> (r: Option<Vec<u8>>)
    requires
        queue_open(*old(q)),
    ensures
        queue_open(*final(q)),
        match r {
            Some(v) => queue_contents(*old(q)).contains(v@) && queue_contents(*final(q))
                == queue_contents(*old(q)).remove(v@),
            None => queue_contents(*old(q)) == Multiset::<Seq<u8>>::empty() && queue_contents(
                *final(q),
            ) == queue_contents(*old(q)),
        },
{
    q.pop().ok()
}

/// A sub-multiset of a sub-multiset is a sub-multiset.
pub proof fn lemma_subset_transitive<V>(a: Multiset<V>, b: Multiset<V>, c: Multiset<V>)
    requires
        a.subset_of(b),
        b.subset_of(c),
    ensures
        a.subset_of(c),
{
    assert forall|v: V| #[trigger] a.count(v) <= c.count(v) by {
        assert(a.count(v) <= b.count(v));
    }
}

/// A recycling pool of page-sized byte blocks.
///
/// Its view is the multiset of the byte contents of the pooled blocks: the
/// pool neither loses a released page nor hands the same pooled page out
/// twice, but it promises nothing about the order of reuse.
pub struct PagePool {
    queue: concurrent_queue::ConcurrentQueue<Vec<u8>>,
}

impl View for PagePool {
    type V = Multiset<Seq<u8>>;

    closed spec fn view(&self) -> Multiset<Seq<u8>> {
        queue_contents(self.queue)
    }
}

impl PagePool {
    /// Every pooled block is exactly one page long, and the underlying queue
    /// accepts further pushes.
    pub closed spec fn inv(&self) -> bool {
        &&& queue_open(self.queue)
        &&& forall|s: Seq<u8>| #[trigger] self@.contains(s) ==> s.len() == PAGE_SIZE
    }

    /// A new, empty pool.
    pub fn new() -> (pool: PagePool)
        ensures
            pool.inv(),
            pool@ == Multiset::<Seq<u8>>::empty(),
    {
        let queue = queue_new();
        PagePool { queue }
    }

    /// Take a page out of the pool, or create a fresh zero-filled page when
    /// the pool is empty. A reused page keeps its previous contents.
    pub fn acquire(&mut self) -> (p: Page)
        requires
            old(self).inv(),
        ensures
            final(self).inv(),
            p.wf(),
            old(self)@.len() == 0 ==> final(self)@ == old(self)@ && p@ == zero_page(),
            old(self)@.len() > 0 ==> old(self)@.contains(p@) && final(self)@ == old(self)@.remove(
                p@,
            ),
            old(self)@.len() > 0 ==> final(self)@.len() == old(self)@.len() - 1,
    {
        match queue_pop(&mut self.queue) {
            Some(v) => {
                proof {
                    assert(old(self)@.contains(v@));
                    assert(old(self)@ =~= self@.insert(v@));
                    vstd::multiset::lemma_insert_len(self@, v@);
                    assert forall|s: Seq<u8>| #[trigger] self@.contains(s) implies s.len()
                        == PAGE_SIZE by {
                        assert(self@.count(s) > 0);
                        assert(old(self)@.count(s) > 0);
                        assert(old(self)@.contains(s));
                    }
                }
                Page::from_vec(v)
            },
            None => Page::zeroed(),
        }
    }

    /// Return a page to the pool for later reuse. The page is kept alive, not
    /// destroyed, and its contents are preserved as they are.
    pub fn release(&mut self, p: Page)
        requires
            old(self).inv(),
            p.wf(),
        ensures
            final(self).inv(),
            final(self)@ == old(self)@.insert(p@),
    {
        let ghost c = p@;
        queue_push(&mut self.queue, p.into_vec());
        proof {
            assert forall|s: Seq<u8>| #[trigger] self@.contains(s) implies s.len() == PAGE_SIZE by {
                assert(self@.count(s) > 0);
                if s != c {
                    assert(old(self)@.count(s) > 0);
                    assert(old(self)@.contains(s));
                }
            }
        }
    }
}

} // verus!
