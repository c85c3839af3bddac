use pagebuf::{Buffer, PagePool, WriteBuffer, PAGE_SIZE};

#[test]
fn empty_pool_creates_zeroed_pages() {
    let mut pool = PagePool::new();
    let p = pool.acquire();
    let s = p.as_slice();
    assert_eq!(s.len(), PAGE_SIZE);
    assert!(s.iter().all(|&b| b == 0));
}

#[test]
fn released_page_is_acquired_again_with_its_contents() {
    let mut pool = PagePool::new();
    let mut w = WriteBuffer::with_capacity(&mut pool, 1);
    w.buffer(&mut pool, b"xyz");
    let buf = w.into_buffer();
    buf.recycle(&mut pool);

    // The pool held exactly one page, so the next acquire must hand that
    // page back, stale contents and all.
    let p = pool.acquire();
    let s = p.as_slice();
    assert_eq!(&s[..3], b"xyz");
    assert!(s[3..].iter().all(|&b| b == 0));

    // The page left the pool: acquiring again creates a fresh zeroed page.
    let q = pool.acquire();
    assert!(q.as_slice().iter().all(|&b| b == 0));
}

#[test]
fn recycled_pages_are_reused_not_leaked() {
    let mut pool = PagePool::new();
    let b = Buffer::with_pages(&mut pool, 3);
    b.recycle(&mut pool);
    // All three pages are acquirable again.
    for _ in 0..3 {
        let p = pool.acquire();
        assert_eq!(p.as_slice().len(), PAGE_SIZE);
        // Dropped, not released: the pool loses the page for good.
    }
    let mut w = WriteBuffer::with_capacity(&mut pool, 1);
    w.buffer(&mut pool, b"q");
    w.into_buffer().recycle(&mut pool);
    let p = pool.acquire();
    assert_eq!(p.as_slice()[0], b'q');
}

#[test]
fn with_pages_reuses_pooled_pages_first() {
    let mut pool = PagePool::new();
    let mut w = WriteBuffer::new();
    let mut data = vec![b'A'; 4097];
    data[4096] = b'B';
    w.buffer(&mut pool, &data);
    w.into_buffer().recycle(&mut pool);

    // Two marked pages sit in the pool; a three-page buffer must take both
    // and create exactly one fresh page.
    let b = Buffer::with_pages(&mut pool, 3);
    let mut firsts = vec![
        b.read_block(0, 1).unwrap()[0],
        b.read_block(1, 1).unwrap()[0],
        b.read_block(2, 1).unwrap()[0],
    ];
    firsts.sort();
    assert_eq!(firsts, vec![0, b'A', b'B']);

    // The pool was drained, so the next acquire creates a fresh page.
    assert!(pool.acquire().as_slice().iter().all(|&x| x == 0));
}

#[test]
fn release_then_acquire_round_trips_a_page() {
    let mut pool = PagePool::new();
    let p = pool.acquire();
    pool.release(p);
    let p = pool.acquire();
    assert_eq!(p.as_slice().len(), PAGE_SIZE);
}
