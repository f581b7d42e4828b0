//! On-disk page header: 24 bytes in front of every stored payload.
use vstd::prelude::*;
use vstd::bytes::*;
use crate::types::PageId;
use super::le_bytes::{spec_u32_le, spec_u64_le, push_u32_le, push_u64_le, lemma_le_lengths};
use super::chunk_store::StoreError;

verus! {

/// Magic number at the start of every page file.
pub const PAGE_MAGIC: u32 = 0xA188_114Du32;

/// Size of the page header in bytes.
pub const PAGE_HEADER_SIZE: usize = 24;

/// Flags of a stored page: bit 0 compressed, bit 1 utility-list body, bit 2 transaction chunk.
#[derive(Clone, Copy, Debug, PartialEq, Eq, Structural)]
pub struct PageFlags {
    pub bits: u8,
}

impl PageFlags {
    /// The raw bits (spec).
    pub open spec fn spec_bits(self) -> u8 {
        self.bits
    }

    /// Only the three defined flags may be set.
    pub open spec fn valid(self) -> bool {
        self.bits < 8
    }

    /// Whether every flag of `other` is set in `self` (spec).
    pub open spec fn spec_contains(self, other: PageFlags) -> bool {
        self.bits & other.bits == other.bits
    }

    /// The union of two flag sets (spec).
    pub open spec fn spec_union(self, other: PageFlags) -> PageFlags {
        PageFlags { bits: self.bits | other.bits }
    }

    /// No flag set.
    pub fn empty() -> (r: PageFlags)
        ensures
            r.spec_bits() == 0,
            r.valid(),
    {
        PageFlags { bits: 0 }
    }

    /// The payload is LZ4-compressed.
    pub fn compressed() -> (r: PageFlags)
        ensures
            r.spec_bits() == 1,
            r.valid(),
    {
        PageFlags { bits: 1 }
    }

    /// The page holds a utility-list body.
    pub fn ul_body() -> (r: PageFlags)
        ensures
            r.spec_bits() == 2,
            r.valid(),
    {
        PageFlags { bits: 2 }
    }

    /// The page holds a chunk of transactions.
    pub fn tx_chunk() -> (r: PageFlags)
        ensures
            r.spec_bits() == 4,
            r.valid(),
    {
        PageFlags { bits: 4 }
    }

    /// The raw bits.
    pub fn bits(&self) -> (r: u8)
        ensures
            r == self.bits,
    {
        self.bits
    }

    /// Flags from raw bits; `None` if an undefined bit is set.
    pub fn from_bits(bits: u8) -> (r: Option<PageFlags>)
        ensures
            bits < 8 ==> r == Some(PageFlags { bits }),
            bits >= 8 ==> r is None,
    {
        if bits < 8 {
            Some(PageFlags { bits })
        } else {
            None
        }
    }

    /// Whether every flag of `other` is set in `self`.
    pub fn contains(&self, other: PageFlags) -> (r: bool)
        ensures
            r == self.spec_contains(other),
    {
        self.bits & other.bits == other.bits
    }

    /// The union of two flag sets.
    pub fn union(&self, other: PageFlags) -> (r: PageFlags)
        requires
            self.valid(),
            other.valid(),
        ensures
            r == self.spec_union(other),
            r.valid(),
    {
        let b = self.bits | other.bits;
        proof {
            let x = self.bits;
            let y = other.bits;
            assert(x < 8 && y < 8 ==> x | y < 8) by (bit_vector);
        }
        PageFlags { bits: b }
    }
}

/// The fixed header of a page file.
#[derive(Debug, Clone, PartialEq, Eq, Structural)]
pub struct PageHeader {
    pub magic: u32,
    pub page_id: PageId,
    pub payload_len: u32,
    pub payload_crc32: u32,
    pub flags: PageFlags,
}

/// The 24 header bytes of `h`: magic, page id, payload length, payload CRC (all
/// little-endian), the flag bits, and three zero bytes.
pub open spec fn spec_header_bytes(h: PageHeader) -> Seq<u8> {
    spec_u32_le(h.magic) + spec_u64_le(h.page_id) + spec_u32_le(h.payload_len)
        + spec_u32_le(h.payload_crc32) + seq![h.flags.spec_bits(), 0u8, 0u8, 0u8]
}

/// The header that 24 bytes hold, or `None` if the flag byte is not valid.
pub open spec fn spec_parse_header(b: Seq<u8>) -> Option<PageHeader> {
    if b[20] < 8 {
        Some(PageHeader {
            magic: spec_u32_from_le_bytes(b.subrange(0, 4)),
            page_id: spec_u64_from_le_bytes(b.subrange(4, 12)),
            payload_len: spec_u32_from_le_bytes(b.subrange(12, 16)),
            payload_crc32: spec_u32_from_le_bytes(b.subrange(16, 20)),
            flags: PageFlags { bits: b[20] },
        })
    } else {
        None
    }
}

impl PageHeader {
    /// Encodes the header into 24 bytes.
    pub fn to_bytes(&self) -> (r: Vec<u8>)
        ensures
            r@ == spec_header_bytes(*self),
            r@.len() == PAGE_HEADER_SIZE,
    {
        let mut buf: Vec<u8> = Vec::new();
        push_u32_le(&mut buf, self.magic);
        push_u64_le(&mut buf, self.page_id);
        push_u32_le(&mut buf, self.payload_len);
        push_u32_le(&mut buf, self.payload_crc32);
        buf.push(self.flags.bits());
        buf.push(0u8);
        buf.push(0u8);
        buf.push(0u8);
        proof {
            lemma_le_lengths();
            assert(buf@ =~= spec_header_bytes(*self));
        }
        buf
    }

    /// Decodes 24 header bytes; an undefined flag bit is an error.
    pub fn from_bytes(buf: &[u8]) -> (r: Result<PageHeader, StoreError>)
        requires
            buf@.len() == PAGE_HEADER_SIZE,
        ensures
            r == (match spec_parse_header(buf@) {
                Some(h) => Ok::<PageHeader, StoreError>(h),
                None => Err(StoreError::InvalidFlags),
            }),
    {
        let magic = u32_from_le_bytes(&buf[0..4]);
        let page_id = u64_from_le_bytes(&buf[4..12]);
        let payload_len = u32_from_le_bytes(&buf[12..16]);
        let payload_crc32 = u32_from_le_bytes(&buf[16..20]);
        match PageFlags::from_bits(buf[20]) {
            Some(flags) => Ok(PageHeader { magic, page_id, payload_len, payload_crc32, flags }),
            None => Err(StoreError::InvalidFlags),
        }
    }
}

/// Decoding the encoding of a header with valid flags gives the header back.
pub proof fn lemma_header_roundtrip(h: PageHeader)
    requires
        h.flags.valid(),
    ensures
        spec_header_bytes(h).len() == PAGE_HEADER_SIZE,
        spec_parse_header(spec_header_bytes(h)) == Some(h),
{
    lemma_auto_spec_u32_to_from_le_bytes();
    lemma_auto_spec_u64_to_from_le_bytes();
    let b = spec_header_bytes(h);
    assert(b.subrange(0, 4) =~= spec_u32_to_le_bytes(h.magic));
    assert(b.subrange(4, 12) =~= spec_u64_to_le_bytes(h.page_id));
    assert(b.subrange(12, 16) =~= spec_u32_to_le_bytes(h.payload_len));
    assert(b.subrange(16, 20) =~= spec_u32_to_le_bytes(h.payload_crc32));
    assert(b[20] == h.flags.spec_bits());
}

} // verus!
