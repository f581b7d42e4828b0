//! Page storage: the store interface and the page file format.
use vstd::prelude::*;
use crate::types::PageId;
use super::le_bytes::push_all;
use super::page_layout::{PageFlags, PageHeader, PAGE_MAGIC, PAGE_HEADER_SIZE, spec_header_bytes, spec_parse_header, lemma_header_roundtrip};
use super::compression::{compress, decompress, spec_lz4_compress, spec_lz4_decompress};

verus! {

/// Errors of page storage and of the structures built on it.
#[derive(Debug, Clone, Copy, PartialEq, Eq, Structural)]
pub enum StoreError {
    /// The underlying file system reported an error.
    Io,
    /// The page file ended before the header or payload was complete.
    Truncated,
    /// The flag byte of the header holds an undefined bit.
    InvalidFlags,
    /// The header does not start with the page magic.
    BadMagic,
    /// The header names another page.
    PageIdMismatch,
    /// The payload checksum does not match the header.
    CrcMismatch,
    /// The compressed payload could not be decompressed.
    Decompress,
    /// Every resident page is pinned and no room can be made.
    PoolFull,
    /// A memory budget was exceeded.
    OutOfMemory,
}

/// Storage of pages by id. Every page write and read goes through an implementation.
pub trait ChunkStore {
    /// Writes `data` as page `id` with `flags`.
    fn write_page(&self, id: PageId, data: &[u8], flags: PageFlags) -> Result<(), StoreError>;
    /// Reads page `id` into `buf` and returns its flags.
    fn read_page(&self, id: PageId, buf: &mut Vec<u8>) -> Result<PageFlags, StoreError>;
    /// Removes page `id` if it exists.
    fn delete_page(&self, id: PageId) -> Result<(), StoreError>;
    /// Whether page `id` exists.
    fn page_exists(&self, id: PageId) -> bool;
    /// Size in bytes of the stored page `id`, if it exists.
    fn page_byte_size(&self, id: PageId) -> Option<u64>;
    /// A fresh page id.
    fn next_page_id(&self) -> PageId;
}

/// One shift of a reflected CRC-32 register: the low bit falls out, and when it was set
/// the polynomial 0xEDB88320 is xored in.
pub open spec fn crc32_shift(c: u32) -> u32 {
    if c & 1 == 1 { (c >> 1) ^ 0xEDB8_8320u32 } else { c >> 1 }
}

/// `n` shifts of the register.
pub open spec fn crc32_shifts(c: u32, n: nat) -> u32
    decreases n,
{
    if n == 0 { c } else { crc32_shifts(crc32_shift(c), (n - 1) as nat) }
}

/// The register after the bytes: it starts with every bit set, and each byte is xored
/// into its low bits and then shifted through eight times.
pub open spec fn crc32_register(data: Seq<u8>) -> u32
    decreases data.len(),
{
    if data.len() == 0 {
        0xFFFF_FFFFu32
    } else {
        crc32_shifts(crc32_register(data.drop_last()) ^ (data.last() as u32), 8)
    }
}

/// The CRC-32 (ISO-HDLC, the IEEE polynomial reflected) of the bytes: the final register
/// with every bit flipped.
pub open spec fn spec_crc32(data: Seq<u8>) -> u32 {
    crc32_register(data) ^ 0xFFFF_FFFFu32
}

/// `crc32fast::hash`: the CRC-32 checksum of the bytes, as `spec_crc32` defines it.
#[verifier::external_body]
fn crc32_hash(data: &[u8]) -> (r: u32)
    ensures
        r == spec_crc32(data@),
{
    crc32fast::hash(data)
}

/// The checksum a page header records for its stored payload.
pub fn crc32(data: &[u8]) -> (r: u32)
    ensures
        r == spec_crc32(data@),
{
    crc32_hash(data)
}

/// Whether a payload of `len` bytes is stored compressed: only when compression was
/// asked for and saves at least 15 percent.
pub open spec fn spec_use_compressed(payload: Seq<u8>, compress_on: bool) -> bool {
    compress_on && spec_lz4_compress(payload).len() < (payload.len() * 85) / 100
}

/// The bytes stored as payload.
pub open spec fn spec_stored_payload(payload: Seq<u8>, compress_on: bool) -> Seq<u8> {
    if spec_use_compressed(payload, compress_on) {
        spec_lz4_compress(payload)
    } else {
        payload
    }
}

/// The flags stored in the header.
pub open spec fn spec_stored_flags(payload: Seq<u8>, flags: PageFlags, compress_on: bool) -> PageFlags {
    if spec_use_compressed(payload, compress_on) {
        flags.spec_union(PageFlags { bits: 1 })
    } else {
        flags
    }
}

/// The header written in front of the payload.
pub open spec fn spec_page_header(id: PageId, payload: Seq<u8>, flags: PageFlags, compress_on: bool) -> PageHeader {
    let stored = spec_stored_payload(payload, compress_on);
    PageHeader {
        magic: PAGE_MAGIC,
        page_id: id,
        payload_len: stored.len() as u32,
        payload_crc32: spec_crc32(stored),
        flags: spec_stored_flags(payload, flags, compress_on),
    }
}

/// The complete file contents of a page.
pub open spec fn spec_encode_page(id: PageId, payload: Seq<u8>, flags: PageFlags, compress_on: bool) -> Seq<u8> {
    spec_header_bytes(spec_page_header(id, payload, flags, compress_on)) + spec_stored_payload(payload, compress_on)
}

/// The payload and flags that a page file holds for page `id`, or the error met first.
pub open spec fn spec_decode_page(id: PageId, file: Seq<u8>) -> Result<(Seq<u8>, PageFlags), StoreError> {
    if file.len() < PAGE_HEADER_SIZE {
        Err(StoreError::Truncated)
    } else {
        match spec_parse_header(file.subrange(0, 24)) {
            None => Err(StoreError::InvalidFlags),
            Some(h) => {
                if h.magic != PAGE_MAGIC {
                    Err(StoreError::BadMagic)
                } else if h.page_id != id {
                    Err(StoreError::PageIdMismatch)
                } else if file.len() - 24 < h.payload_len {
                    Err(StoreError::Truncated)
                } else {
                    let p = file.subrange(24, 24 + h.payload_len);
                    if spec_crc32(p) != h.payload_crc32 {
                        Err(StoreError::CrcMismatch)
                    } else if h.flags.spec_contains(PageFlags { bits: 1 }) {
                        match spec_lz4_decompress(p) {
                            Some(v) => Ok((v, h.flags)),
                            None => Err(StoreError::Decompress),
                        }
                    } else {
                        Ok((p, h.flags))
                    }
                }
            },
        }
    }
}

/// Encodes page `id` for storage: the payload, compressed when asked for and worth
/// it, behind a header with its length and CRC-32.
pub fn encode_page(id: PageId, payload: &[u8], flags: PageFlags, compress_on: bool) -> (r: Vec<u8>)
    requires
        flags.valid(),
        payload@.len() * 85 <= usize::MAX,
    ensures
        r@ == spec_encode_page(id, payload@, flags, compress_on),
{
    let mut stored: Vec<u8>;
    let stored_flags: PageFlags;
    if compress_on {
        let c = compress(payload);
        if c.len() < payload.len() * 85 / 100 {
            stored = c;
            stored_flags = flags.union(PageFlags::compressed());
        } else {
            stored = Vec::new();
            push_all(&mut stored, payload);
            stored_flags = flags;
        }
    } else {
        stored = Vec::new();
        push_all(&mut stored, payload);
        stored_flags = flags;
    }
    proof {
        assert(stored@ =~= spec_stored_payload(payload@, compress_on));
    }
    let crc = crc32(stored.as_slice());
    let header = PageHeader {
        magic: PAGE_MAGIC,
        page_id: id,
        payload_len: stored.len() as u32,
        payload_crc32: crc,
        flags: stored_flags,
    };
    let mut out = header.to_bytes();
    push_all(&mut out, stored.as_slice());
    out
}

/// Decodes a page file read for page `id`: checks the header, the id, the length and
/// the CRC, and decompresses when the header says so. Whatever `encode_page` produced
/// for `id` decodes to the original payload.
pub fn decode_page(id: PageId, file: &[u8]) -> (r: Result<(Vec<u8>, PageFlags), StoreError>)
    ensures
        match r {
            Ok((v, f)) => spec_decode_page(id, file@) == Ok::<(Seq<u8>, PageFlags), StoreError>((v@, f)),
            Err(e) => spec_decode_page(id, file@) == Err::<(Seq<u8>, PageFlags), StoreError>(e),
        },
        forall|payload: Seq<u8>, flags: PageFlags, compress_on: bool|
            #![trigger spec_encode_page(id, payload, flags, compress_on)]
            file@ == spec_encode_page(id, payload, flags, compress_on) && flags.valid()
                && !flags.spec_contains(PageFlags { bits: 1 }) && payload.len() <= u32::MAX
                ==> (r matches Ok((v, f)) && v@ == payload && f == spec_stored_flags(payload, flags, compress_on)),
{
    if file.len() < PAGE_HEADER_SIZE {
        proof { lemma_encode_shape(id, file@); }
        return Err(StoreError::Truncated);
    }
    let header = match PageHeader::from_bytes(&file[0..24]) {
        Ok(h) => h,
        Err(e) => {
            proof { lemma_encode_shape(id, file@); }
            return Err(e);
        },
    };
    if header.magic != PAGE_MAGIC {
        proof { lemma_encode_shape(id, file@); }
        return Err(StoreError::BadMagic);
    }
    if header.page_id != id {
        proof { lemma_encode_shape(id, file@); }
        return Err(StoreError::PageIdMismatch);
    }
    let len = header.payload_len as usize;
    if file.len() - 24 < len {
        proof { lemma_encode_shape(id, file@); }
        return Err(StoreError::Truncated);
    }
    let payload = &file[24..24 + len];
    let actual = crc32(payload);
    if actual != header.payload_crc32 {
        proof { lemma_encode_shape(id, file@); }
        return Err(StoreError::CrcMismatch);
    }
    proof { lemma_encode_shape(id, file@); }
    if header.flags.contains(PageFlags::compressed()) {
        match decompress(payload) {
            Ok(v) => Ok((v, header.flags)),
            Err(e) => Err(e),
        }
    } else {
        let mut v: Vec<u8> = Vec::new();
        push_all(&mut v, payload);
        Ok((v, header.flags))
    }
}

/// The shape of an encoded page: its header parses back, and its payload follows.
proof fn lemma_encode_shape(id: PageId, file: Seq<u8>)
    ensures
        forall|payload: Seq<u8>, flags: PageFlags, compress_on: bool|
            #![trigger spec_encode_page(id, payload, flags, compress_on)]
            file == spec_encode_page(id, payload, flags, compress_on) && flags.valid()
                && !flags.spec_contains(PageFlags { bits: 1 }) && payload.len() <= u32::MAX
                ==> {
                    let h = spec_page_header(id, payload, flags, compress_on);
                    let stored = spec_stored_payload(payload, compress_on);
                    &&& file.len() >= 24
                    &&& file.subrange(0, 24) == spec_header_bytes(h)
                    &&& spec_parse_header(file.subrange(0, 24)) == Some(h)
                    &&& h.payload_len == stored.len()
                    &&& file.subrange(24, 24 + stored.len() as int) == stored
                    &&& file.len() - 24 == stored.len()
                    &&& (h.flags.spec_contains(PageFlags { bits: 1 }) <==> spec_use_compressed(payload, compress_on))
                },
{
    assert forall|payload: Seq<u8>, flags: PageFlags, compress_on: bool|
        #![trigger spec_encode_page(id, payload, flags, compress_on)]
        file == spec_encode_page(id, payload, flags, compress_on) && flags.valid()
            && !flags.spec_contains(PageFlags { bits: 1 }) && payload.len() <= u32::MAX
            implies {
                let h = spec_page_header(id, payload, flags, compress_on);
                let stored = spec_stored_payload(payload, compress_on);
                &&& file.len() >= 24
                &&& file.subrange(0, 24) == spec_header_bytes(h)
                &&& spec_parse_header(file.subrange(0, 24)) == Some(h)
                &&& h.payload_len == stored.len()
                &&& file.subrange(24, 24 + stored.len() as int) == stored
                &&& file.len() - 24 == stored.len()
                &&& (h.flags.spec_contains(PageFlags { bits: 1 }) <==> spec_use_compressed(payload, compress_on))
            } by {
        let h = spec_page_header(id, payload, flags, compress_on);
        let stored = spec_stored_payload(payload, compress_on);
        if spec_use_compressed(payload, compress_on) {
            assert(stored.len() <= payload.len());
        }
        let fb = flags.bits;
        assert(fb < 8 && fb & 1 != 1 ==> (fb | 1) < 8 && (fb | 1) & 1 == 1 && fb & 1 == 0) by (bit_vector);
        assert(h.flags.valid());
        lemma_header_roundtrip(h);
        assert(file.subrange(0, 24) =~= spec_header_bytes(h));
        assert(file.subrange(24, 24 + stored.len() as int) =~= stored);
    }
}

} // verus!
