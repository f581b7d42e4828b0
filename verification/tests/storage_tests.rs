use pocket_huim::storage::{PageFlags, PageHeader, PAGE_MAGIC, PAGE_HEADER_SIZE, StoreError};
use pocket_huim::storage::compression::{compress, decompress};
use pocket_huim::storage::chunk_store::{crc32, encode_page, decode_page};

#[test]
fn page_header_roundtrip() {
    let h = PageHeader {
        magic: PAGE_MAGIC,
        page_id: 77,
        payload_len: 5,
        payload_crc32: 0xDEAD_BEEF,
        flags: PageFlags::ul_body(),
    };
    let bytes = h.to_bytes();
    assert_eq!(bytes.len(), PAGE_HEADER_SIZE);
    let back = PageHeader::from_bytes(&bytes).unwrap();
    assert_eq!(back, h);
}

#[test]
fn page_header_rejects_undefined_flags_only() {
    let h = PageHeader { magic: PAGE_MAGIC, page_id: 1, payload_len: 0, payload_crc32: 0, flags: PageFlags::empty() };
    let mut bytes = h.to_bytes();
    bytes[0] ^= 1;
    assert_eq!(PageHeader::from_bytes(&bytes).unwrap().magic, PAGE_MAGIC ^ 1);
    let mut bytes2 = h.to_bytes();
    bytes2[20] = 0x80;
    assert_eq!(PageHeader::from_bytes(&bytes2), Err(StoreError::InvalidFlags));
}

#[test]
fn page_flags_union_and_contains() {
    let f = PageFlags::compressed().union(PageFlags::tx_chunk());
    assert_eq!(f.bits(), 0b101);
    assert!(f.contains(PageFlags::compressed()));
    assert!(f.contains(PageFlags::tx_chunk()));
    assert!(!f.contains(PageFlags::ul_body()));
    assert_eq!(PageFlags::from_bits(8), None);
    assert_eq!(PageFlags::from_bits(2), Some(PageFlags::ul_body()));
}

#[test]
fn compress_decompress_roundtrip() {
    let data: Vec<u8> = (0..2000u32).map(|i| (i % 7) as u8).collect();
    let c = compress(&data);
    assert_ne!(c, data);
    assert!(c.len() < data.len());
    assert_eq!(decompress(&c).unwrap(), data);
}

#[test]
fn decompress_rejects_garbage() {
    assert_eq!(decompress(&[1, 2]), Err(StoreError::Decompress));
    assert_eq!(decompress(&[10, 0, 0, 0, 0xf0]), Err(StoreError::Decompress));
}

#[test]
fn crc32_known_value() {
    assert_eq!(crc32(b"123456789"), 0xCBF4_3926);
}

#[test]
fn encode_decode_page_roundtrip() {
    let payload: Vec<u8> = (0..300u32).map(|i| (i % 3) as u8).collect();
    for compress_on in [false, true] {
        let file = encode_page(9, &payload, PageFlags::ul_body(), compress_on);
        let (back, flags) = decode_page(9, &file).unwrap();
        assert_eq!(back, payload);
        assert!(flags.contains(PageFlags::ul_body()));
        assert_eq!(flags.contains(PageFlags::compressed()), compress_on);
    }
}

#[test]
fn decode_page_errors() {
    let payload = vec![1u8, 2, 3];
    let file = encode_page(4, &payload, PageFlags::empty(), false);
    assert_eq!(decode_page(5, &file).map(|_| ()), Err(StoreError::PageIdMismatch));
    assert_eq!(decode_page(4, &file[..10]).map(|_| ()), Err(StoreError::Truncated));
    let mut bad = file.clone();
    let last = bad.len() - 1;
    bad[last] ^= 0xff;
    assert_eq!(decode_page(4, &bad).map(|_| ()), Err(StoreError::CrcMismatch));
}
