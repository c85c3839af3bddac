use pagebuf::{Buffer, PagePool, ReadBuffer, WriteBuffer, PAGE_SIZE};

#[test]
fn buffered_writes_concatenate_in_order() {
    let mut pool = PagePool::new();
    let mut w = WriteBuffer::new();
    assert_eq!(w.buffer(&mut pool, b"hello"), 5);
    assert_eq!(w.buffer(&mut pool, b"world"), 5);
    assert_eq!(w.len(), 10);
    assert_eq!(w.pending(), b"helloworld");
}

#[test]
fn write_spanning_a_page_boundary_grows_and_round_trips() {
    let mut pool = PagePool::new();
    let mut w = WriteBuffer::from_buffer(Buffer::with_pages(&mut pool, 1));
    let head = vec![7u8; 10];
    let mut tail = vec![0u8; 4090];
    for (i, b) in tail.iter_mut().enumerate() {
        *b = (i % 253) as u8;
    }
    assert_eq!(w.buffer(&mut pool, &head), 10);
    assert_eq!(w.buffer(&mut pool, &tail), 4090);
    assert_eq!(w.len(), 4100);

    let mut expected = head.clone();
    expected.extend_from_slice(&tail);
    assert_eq!(w.pending(), expected);

    let buf = w.into_buffer();
    assert_eq!(buf.pages(), 2, "the second buffer call must have grown a page");
}

#[test]
fn fill_allocates_pages_on_demand() {
    let mut pool = PagePool::new();
    let mut r = ReadBuffer::new();
    let mut data = vec![0u8; 5000];
    for (i, b) in data.iter_mut().enumerate() {
        *b = (i % 241) as u8;
    }
    assert_eq!(r.fill_from(&mut pool, &data), 5000);
    let (low, high) = r.marks();
    assert_eq!(low, 0);
    assert_eq!(high, 5000);
    assert_eq!(r.len(), 5000);
    assert_eq!(r.unconsumed(), data);
    let buf = r.into_buffer();
    assert_eq!(buf.pages(), 2);
    assert_eq!(buf.capacity(), 2 * PAGE_SIZE);
}

#[test]
fn consume_zero_changes_nothing_and_consume_all_resets() {
    let mut pool = PagePool::new();
    let mut r = ReadBuffer::new();
    r.fill_from(&mut pool, b"abcdef");
    r.consume(0);
    assert_eq!(r.marks(), (0, 6));

    r.consume(2);
    assert_eq!(r.marks(), (2, 6));
    assert_eq!(r.unconsumed(), b"cdef");
    r.consume(0);
    assert_eq!(r.marks(), (2, 6));

    r.consume(4);
    assert_eq!(r.marks(), (0, 0));
    assert_eq!(r.len(), 0);

    r.consume(0);
    assert_eq!(r.marks(), (0, 0));
}

#[test]
fn consume_is_capped_at_the_live_region() {
    let mut pool = PagePool::new();
    let mut r = ReadBuffer::new();
    r.fill_from(&mut pool, b"abc");
    r.consume(100);
    assert_eq!(r.marks(), (0, 0));
}

#[test]
fn round_trip_through_a_fresh_read_buffer() {
    let mut pool = PagePool::new();
    let mut w = WriteBuffer::new();
    let mut data = vec![0u8; 6000];
    for (i, b) in data.iter_mut().enumerate() {
        *b = (i % 239) as u8;
    }
    w.buffer(&mut pool, &data[..2500]);
    w.buffer(&mut pool, &data[2500..]);

    // What a full drain hands the file is the pending region; filling a
    // fresh read buffer with those bytes reproduces the original data.
    let written = w.pending();
    w.complete_write(written.len());
    assert_eq!(w.marks(), (0, 0));

    let mut r = ReadBuffer::new();
    r.fill_from(&mut pool, &written);
    assert_eq!(r.unconsumed(), data);
}

#[test]
fn short_write_leaves_the_rest_pending() {
    let mut pool = PagePool::new();
    let mut w = WriteBuffer::new();
    w.buffer(&mut pool, b"0123456789");
    w.complete_write(4);
    assert_eq!(w.marks(), (4, 10));
    assert_eq!(w.len(), 6);
    assert_eq!(w.pending(), b"456789");
    w.complete_write(6);
    assert_eq!(w.marks(), (0, 0));
    assert_eq!(w.len(), 0);
}

#[test]
fn clear_forgets_the_live_region() {
    let mut pool = PagePool::new();
    let mut w = WriteBuffer::with_capacity(&mut pool, 100);
    w.buffer(&mut pool, b"data");
    w.clear();
    assert_eq!(w.len(), 0);
    assert_eq!(w.marks(), (0, 0));

    let mut r = ReadBuffer::with_capacity(&mut pool, 100);
    r.fill_from(&mut pool, b"data");
    r.clear();
    assert_eq!(r.len(), 0);
    assert_eq!(r.marks(), (0, 0));
}

#[test]
fn appends_grow_by_exactly_the_pages_needed() {
    let mut pool = PagePool::new();
    let mut r = ReadBuffer::new();
    r.fill_from(&mut pool, &vec![1u8; 4096]);
    assert_eq!(r.into_buffer().pages(), 1);

    let mut r = ReadBuffer::new();
    r.fill_from(&mut pool, &vec![1u8; 4097]);
    assert_eq!(r.into_buffer().pages(), 2);

    let mut w = WriteBuffer::from_buffer(Buffer::with_pages(&mut pool, 1));
    assert_eq!(w.buffer(&mut pool, b""), 0);
    let b = w.into_buffer();
    assert_eq!(b.pages(), 1, "buffering nothing must not grow the storage");
    let mut w = WriteBuffer::from_buffer(b);
    w.buffer(&mut pool, &vec![2u8; 4000]);
    assert_eq!(w.into_buffer().pages(), 1, "a write inside the page must not grow");
}

#[test]
fn readable_slices_reconstruct_the_pending_region() {
    let mut pool = PagePool::new();
    let mut w = WriteBuffer::new();
    let mut data = vec![0u8; 9000];
    for (i, b) in data.iter_mut().enumerate() {
        *b = (i % 251) as u8;
    }
    w.buffer(&mut pool, &data);
    w.complete_write(100);

    let mut rd = w.readable();
    let mut gathered: Vec<u8> = Vec::new();
    let mut slices: usize = 0;
    while let Some(s) = rd.next(w.storage_ref()) {
        gathered.extend_from_slice(s);
        slices += 1;
    }
    assert_eq!(slices, 3, "8900 live bytes from offset 100 span three pages");
    assert_eq!(gathered, &data[100..]);
}
