use pagebuf::{Buffer, PagePool, WriteBuffer, PAGE_SIZE};

#[test]
fn capacity_covers_request_within_one_page() {
    let mut pool = PagePool::new();
    for n in [0usize, 1, 5, 4095, 4096, 4097, 8192, 10000] {
        let b = Buffer::with_capacity(&mut pool, n);
        let cap = b.capacity();
        assert!(cap >= n, "capacity {} under request {}", cap, n);
        assert!(cap < n + PAGE_SIZE, "capacity {} a page over request {}", cap, n);
        assert_eq!(cap % PAGE_SIZE, 0);
    }
}

#[test]
fn two_pages_for_one_byte_past_a_page() {
    let mut pool = PagePool::new();
    let b = Buffer::with_capacity(&mut pool, 4097);
    assert_eq!(b.pages(), 2);
    assert_eq!(b.capacity(), 8192);
}

#[test]
fn with_pages_gives_exact_pages() {
    let mut pool = PagePool::new();
    let b = Buffer::with_pages(&mut pool, 3);
    assert_eq!(b.pages(), 3);
    assert_eq!(b.capacity(), 3 * PAGE_SIZE);
    let e = Buffer::new();
    assert_eq!(e.pages(), 0);
    assert_eq!(e.capacity(), 0);
}

#[test]
fn reserve_grows_only_when_needed() {
    let mut pool = PagePool::new();
    let mut b = Buffer::with_pages(&mut pool, 1);
    b.reserve(&mut pool, 100);
    assert_eq!(b.capacity(), PAGE_SIZE);
    b.reserve(&mut pool, 4096);
    assert_eq!(b.capacity(), PAGE_SIZE);
    b.reserve(&mut pool, 4097);
    assert_eq!(b.capacity(), 2 * PAGE_SIZE);
    b.reserve(&mut pool, 100);
    assert_eq!(b.capacity(), 2 * PAGE_SIZE);
}

#[test]
fn reserve_extra_adds_whole_pages() {
    let mut pool = PagePool::new();
    let mut b = Buffer::new();
    b.reserve_extra(&mut pool, 1);
    assert_eq!(b.capacity(), PAGE_SIZE);
    b.reserve_extra(&mut pool, 8192);
    assert_eq!(b.capacity(), 3 * PAGE_SIZE);
    b.reserve_extra(&mut pool, 0);
    assert_eq!(b.capacity(), 3 * PAGE_SIZE);
    b.add_page(&mut pool);
    assert_eq!(b.capacity(), 4 * PAGE_SIZE);
}

fn buffer_with_bytes(pool: &mut PagePool, data: &[u8]) -> Buffer {
    let mut w = WriteBuffer::new();
    w.buffer(pool, data);
    w.into_buffer()
}

#[test]
fn read_first_is_bounded_by_the_page() {
    let mut pool = PagePool::new();
    let mut data = vec![0u8; 4100];
    for (i, b) in data.iter_mut().enumerate() {
        *b = (i % 251) as u8;
    }
    let buf = buffer_with_bytes(&mut pool, &data);

    let s = buf.read_first(10, 100).unwrap();
    assert_eq!(s, &data[10..110]);

    let s = buf.read_first(4090, 100).unwrap();
    assert_eq!(s.len(), 6);
    assert_eq!(s, &data[4090..4096]);

    let s = buf.read_first(4096, 2).unwrap();
    assert_eq!(s, &data[4096..4098]);

    assert!(buf.read_first(2 * PAGE_SIZE, 1).is_none());
}

#[test]
fn read_block_is_capped_at_the_page_size() {
    let mut pool = PagePool::new();
    let mut data = vec![0u8; 8192];
    for (i, b) in data.iter_mut().enumerate() {
        *b = (i % 249) as u8;
    }
    let buf = buffer_with_bytes(&mut pool, &data);

    let s = buf.read_block(0, 16).unwrap();
    assert_eq!(s, &data[..16]);

    let s = buf.read_block(1, 10000).unwrap();
    assert_eq!(s.len(), PAGE_SIZE);
    assert_eq!(s, &data[4096..8192]);

    assert!(buf.read_block(2, 1).is_none());
}
