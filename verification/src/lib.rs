//! Page-oriented I/O buffer engine: a pool of recyclable fixed-size pages,
//! a growable multi-page buffer built from them, and watermark-tracked
//! read/write buffers that stage data for positional vectored file I/O.

use vstd::prelude::*;

pub mod buffer;
pub mod iovec;
pub mod page;
pub mod pool;
pub mod rw;
pub mod views;

pub use buffer::Buffer;
pub use page::Page;
pub use pool::PagePool;
pub use rw::{ReadBuffer, WriteBuffer};

verus! {

/// Size in bytes of one page, the unit of buffer growth and pool recycling.
pub const PAGE_SIZE: usize = 4096;

} // verus!
