//! Counters of buffer-pool activity.
use vstd::prelude::*;

verus! {

/// Counters of buffer-pool activity. Every counter wraps around at the top of its range.
#[derive(Debug, Clone, Copy, Default)]
pub struct BufferPoolMetrics {
    pub hits: u64,
    pub misses: u64,
    pub evictions: u64,
    pub dirty_flushes: u64,
    pub bytes_read: u64,
    pub bytes_written: u64,
    /// The largest number of resident bytes reported so far.
    pub peak_bytes: u64,
}

/// `x + y`, wrapped to 64 bits.
pub open spec fn wrap_add(x: u64, y: u64) -> u64 {
    vstd::wrapping::u64_specs::wrapping_add(x, y)
}

impl BufferPoolMetrics {
    /// All counters at zero.
    pub fn new() -> (m: Self)
        ensures
            m.hits == 0 && m.misses == 0 && m.evictions == 0 && m.dirty_flushes == 0,
            m.bytes_read == 0 && m.bytes_written == 0 && m.peak_bytes == 0,
    {
        BufferPoolMetrics {
            hits: 0,
            misses: 0,
            evictions: 0,
            dirty_flushes: 0,
            bytes_read: 0,
            bytes_written: 0,
            peak_bytes: 0,
        }
    }

    /// Counts a lookup that found its page resident.
    pub fn record_hit(&mut self)
        ensures
            *final(self) == (BufferPoolMetrics { hits: wrap_add(old(self).hits, 1), ..*old(self) }),
    {
        self.hits = self.hits.wrapping_add(1);
    }

    /// Counts a lookup that had to read its page.
    pub fn record_miss(&mut self)
        ensures
            *final(self) == (BufferPoolMetrics { misses: wrap_add(old(self).misses, 1), ..*old(self) }),
    {
        self.misses = self.misses.wrapping_add(1);
    }

    /// Counts an eviction.
    pub fn record_eviction(&mut self)
        ensures
            *final(self) == (BufferPoolMetrics { evictions: wrap_add(old(self).evictions, 1), ..*old(self) }),
    {
        self.evictions = self.evictions.wrapping_add(1);
    }

    /// Counts a write-back of a dirty page.
    pub fn record_dirty_flush(&mut self)
        ensures
            *final(self) == (BufferPoolMetrics { dirty_flushes: wrap_add(old(self).dirty_flushes, 1), ..*old(self) }),
    {
        self.dirty_flushes = self.dirty_flushes.wrapping_add(1);
    }

    /// Adds `n` bytes read from the store.
    pub fn record_bytes_read(&mut self, n: u64)
        ensures
            *final(self) == (BufferPoolMetrics { bytes_read: wrap_add(old(self).bytes_read, n), ..*old(self) }),
    {
        self.bytes_read = self.bytes_read.wrapping_add(n);
    }

    /// Adds `n` bytes written to the store.
    pub fn record_bytes_written(&mut self, n: u64)
        ensures
            *final(self) == (BufferPoolMetrics { bytes_written: wrap_add(old(self).bytes_written, n), ..*old(self) }),
    {
        self.bytes_written = self.bytes_written.wrapping_add(n);
    }

    /// Raises the peak to `n` if `n` is larger.
    pub fn update_peak(&mut self, n: u64)
        ensures
            *final(self) == (BufferPoolMetrics {
                peak_bytes: if n > old(self).peak_bytes { n } else { old(self).peak_bytes },
                ..*old(self)
            }),
    {
        if n > self.peak_bytes {
            self.peak_bytes = n;
        }
    }
}

/// The peak only grows, and after reporting `n` it is at least `n`.
pub proof fn law_peak_is_running_max(peak: u64, n: u64)
    ensures
        (if n > peak { n } else { peak }) >= peak,
        (if n > peak { n } else { peak }) >= n,
{
}

} // verus!
