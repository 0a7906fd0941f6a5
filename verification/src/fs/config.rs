//! Settings of the simulated filesystem.
//!
//! The probabilities of faults and of early durability, and the shape of the latency
//! distribution, are not kept here: who draws from them hands the outcomes in.
use crate::time::Duration;
use vstd::prelude::*;

verus! {

/// The latency of input and output operations.
///
/// Only operations that can wait in simulated time incur it.
#[derive(Clone, Copy, Debug)]
pub struct IoLatency {
    /// The least latency of an operation.
    pub min_latency: Duration,
    /// The largest latency of an operation.
    pub max_latency: Duration,
}

impl Default for IoLatency {
    /// From 50 microseconds to 5 milliseconds.
    fn default() -> (r: IoLatency)
        ensures
            r.min_latency.nanos == 50_000,
            r.max_latency.nanos == 5_000_000,
    {
        IoLatency { min_latency: Duration::from_micros(50), max_latency: Duration::from_millis(5) }
    }
}

impl IoLatency {
    /// Sets the least latency.
    pub fn min_latency(&mut self, value: Duration) -> (r: &mut Self)
        ensures
            *r == (IoLatency { min_latency: value, ..*old(self) }),
            *final(self) == *final(r),
    {
        self.min_latency = value;
        self
    }

    /// Sets the largest latency.
    pub fn max_latency(&mut self, value: Duration) -> (r: &mut Self)
        ensures
            *r == (IoLatency { max_latency: value, ..*old(self) }),
            *final(self) == *final(r),
    {
        self.max_latency = value;
        self
    }
}

/// The page cache.
///
/// A cached page is read at the speed of memory, another one with the full latency.
/// Unbuffered input and output bypass the cache.
#[derive(Clone, Copy, Debug)]
pub struct PageCacheConfig {
    /// The bytes of a page.
    pub page_size: u64,
    /// The number of pages that the cache holds.
    pub max_pages: usize,
}

impl Default for PageCacheConfig {
    /// 256 pages of 4096 bytes.
    fn default() -> (r: PageCacheConfig)
        ensures
            r.page_size == 4096,
            r.max_pages == 256,
    {
        PageCacheConfig { page_size: 4096, max_pages: 256 }
    }
}

impl PageCacheConfig {
    /// Whether a cache with these settings can hold a page.
    pub open spec fn wf(self) -> bool {
        self.page_size > 0 && self.max_pages > 0
    }

    /// Sets the bytes of a page.
    pub fn page_size(&mut self, size: u64) -> (r: &mut Self)
        requires
            size > 0,
        ensures
            *r == (PageCacheConfig { page_size: size, ..*old(self) }),
            *final(self) == *final(r),
    {
        self.page_size = size;
        self
    }

    /// Sets the number of pages that the cache holds.
    pub fn max_pages(&mut self, count: usize) -> (r: &mut Self)
        ensures
            *r == (PageCacheConfig { max_pages: count, ..*old(self) }),
            *final(self) == *final(r),
    {
        self.max_pages = count;
        self
    }
}

/// The settings of the simulated filesystem.
#[derive(Clone, Copy, Debug)]
pub struct FsConfig {
    /// The bytes that the disk can hold (no limit by default).
    pub capacity: Option<u64>,
    /// Whether reads leave the access time alone (the only way there is).
    pub noatime: bool,
    /// The bytes that a crash leaves whole or not at all (writes do not tear by default).
    pub block_size: Option<u64>,
    /// What the buffers, offsets and lengths of unbuffered input and output are multiples
    /// of.
    pub direct_io_alignment: usize,
    /// The latency of operations (none by default).
    pub io_latency: Option<IoLatency>,
    /// The page cache (none by default).
    pub page_cache: Option<PageCacheConfig>,
}

impl Default for FsConfig {
    fn default() -> (r: FsConfig)
        ensures
            r.capacity is None,
            r.noatime,
            r.block_size is None,
            r.direct_io_alignment == 512,
            r.io_latency is None,
            r.page_cache is None,
            r.wf(),
    {
        FsConfig {
            capacity: None,
            noatime: true,
            block_size: None,
            direct_io_alignment: 512,
            io_latency: None,
            page_cache: None,
        }
    }
}

impl FsConfig {
    /// Whether a filesystem can be made with these settings.
    pub open spec fn wf(self) -> bool {
        &&& self.block_size matches Some(b) ==> b > 0
        &&& self.direct_io_alignment > 0
        &&& self.page_cache matches Some(c) ==> c.wf()
    }

    /// Sets the bytes that the disk can hold. Writes that go beyond it fail.
    pub fn capacity(&mut self, bytes: u64) -> (r: &mut Self)
        ensures
            *r == (FsConfig { capacity: Some(bytes), ..*old(self) }),
            *final(self) == *final(r),
    {
        self.capacity = Some(bytes);
        self
    }

    /// Sets whether reads leave the access time alone. Access times are not tracked, so
    /// nothing else can be asked for.
    pub fn noatime(&mut self, value: bool) -> (r: &mut Self)
        requires
            value,
        ensures
            *r == (FsConfig { noatime: value, ..*old(self) }),
            *final(self) == *final(r),
    {
        self.noatime = value;
        self
    }

    /// Sets the bytes that a crash leaves whole or not at all.
    ///
    /// On a crash every pending write is cut into blocks of that size, counted from its
    /// start, and some number of its first blocks gets through.
    pub fn block_size(&mut self, bytes: u64) -> (r: &mut Self)
        requires
            bytes > 0,
        ensures
            *r == (FsConfig { block_size: Some(bytes), ..*old(self) }),
            *final(self) == *final(r),
    {
        self.block_size = Some(bytes);
        self
    }

    /// Sets what the buffers, offsets and lengths of unbuffered input and output are
    /// multiples of.
    pub fn direct_io_alignment(&mut self, bytes: usize) -> (r: &mut Self)
        requires
            bytes > 0,
        ensures
            *r == (FsConfig { direct_io_alignment: bytes, ..*old(self) }),
            *final(self) == *final(r),
    {
        self.direct_io_alignment = bytes;
        self
    }

    /// Turns the latency on, with the default settings unless it is on already, and hands
    /// its settings out to be changed.
    pub fn io_latency(&mut self) -> (r: &mut IoLatency)
        ensures
            match old(self).io_latency {
                Some(l) => *r == l,
                None => r.min_latency.nanos == 50_000 && r.max_latency.nanos == 5_000_000,
            },
            *final(self) == (FsConfig { io_latency: Some(*final(r)), ..*old(self) }),
    {
        if self.io_latency.is_none() {
            self.io_latency = Some(IoLatency::default());
        }
        self.io_latency.as_mut().unwrap()
    }

    /// Turns the page cache on, with the default settings unless it is on already, and
    /// hands its settings out to be changed.
    pub fn page_cache(&mut self) -> (r: &mut PageCacheConfig)
        ensures
            match old(self).page_cache {
                Some(c) => *r == c,
                None => r.page_size == 4096 && r.max_pages == 256,
            },
            *final(self) == (FsConfig { page_cache: Some(*final(r)), ..*old(self) }),
    {
        if self.page_cache.is_none() {
            self.page_cache = Some(PageCacheConfig::default());
        }
        self.page_cache.as_mut().unwrap()
    }
}

} // verus!
