use acorn::meta::{ByteOrder, InitError, LoadError, StorageMeta};

fn native_byte() -> u8 {
    if u16::from_ne_bytes([1, 0]) == 1 {
        0
    } else {
        1
    }
}

fn meta_file(exponent: u8) -> Vec<u8> {
    let mut data = vec![0u8; 12];
    data[0..4].copy_from_slice(b"ACNM");
    data[4] = 1;
    data[5] = native_byte();
    data[6] = exponent;
    data[7] = 0;
    data[8..12].copy_from_slice(&420_u32.to_ne_bytes());
    data
}

#[test]
fn load() {
    let data = meta_file(14);
    let meta = StorageMeta::load(&data).unwrap();
    assert_eq!(meta.format_version, 1);
    assert_eq!(meta.byte_order, native_byte());
    assert_eq!(meta.page_size_exponent, 14);
    assert_eq!(meta.page_size(), 16 * 1024);
    assert_eq!(meta.segment_num_limit, 420);
}

#[test]
fn load_with_too_large_page_size_exponent() {
    let data = meta_file(69);
    let meta = StorageMeta::load(&data).unwrap();
    assert_eq!(meta.page_size(), 32 * 1024);
}

#[test]
fn write_and_flush() {
    let data = meta_file(14);
    let mut meta = StorageMeta::load(&data).unwrap();
    meta.segment_num_limit = 69;

    assert_eq!(data[8..12], 420_u32.to_ne_bytes());

    let flushed = meta.to_bytes();

    assert_eq!(flushed[8..12], 69_u32.to_ne_bytes());
    assert_eq!(flushed[0..8], data[0..8]);
}

#[test]
fn load_errors() {
    assert_eq!(StorageMeta::load(&[0u8; 4]), Err(LoadError::NotAMetaFile));
    let mut bad_magic = meta_file(14);
    bad_magic[3] = b'X';
    assert_eq!(StorageMeta::load(&bad_magic), Err(LoadError::NotAMetaFile));
    let mut bad_version = meta_file(14);
    bad_version[4] = 2;
    assert_eq!(StorageMeta::load(&bad_version), Err(LoadError::UnsupportedVersion(2)));
    let mut bad_order = meta_file(14);
    bad_order[5] = 7;
    assert_eq!(StorageMeta::load(&bad_order), Err(LoadError::Corrupted));
    assert_eq!(StorageMeta::load(&meta_file(8)), Err(LoadError::PageSizeBounds(256)));
}

#[test]
fn load_on_other_byte_order() {
    let mut data = meta_file(12);
    data[5] = 1;
    data[8..12].copy_from_slice(&420_u32.to_be_bytes());
    assert_eq!(StorageMeta::load_for(&data, ByteOrder::Little), Err(LoadError::ByteOrderMismatch(ByteOrder::Big)));
    let meta = StorageMeta::load_for(&data, ByteOrder::Big).unwrap();
    assert_eq!(meta.segment_num_limit, 420);
    assert_eq!(meta.page_size(), 4096);
    assert_eq!(meta.to_bytes_for(ByteOrder::Big), data);
}

#[test]
fn page_size_exponents() {
    let mut meta = StorageMeta::init(512).unwrap();
    assert_eq!(meta.page_size_exponent, 9);
    meta.page_size_exponent = 0;
    assert_eq!(meta.page_size(), 1);
    meta.page_size_exponent = 15;
    assert_eq!(meta.page_size(), 32768);
    meta.page_size_exponent = 16;
    assert_eq!(meta.page_size(), 32768);
}

#[test]
fn init_round_trips() {
    let meta = StorageMeta::init(8192).unwrap();
    assert_eq!(meta.page_size(), 8192);
    assert_eq!(meta.segment_num_limit, 0);
    let bytes = meta.to_bytes();
    assert_eq!(&bytes[0..4], b"ACNM");
    assert_eq!(StorageMeta::load(&bytes).unwrap(), meta);
    assert_eq!(StorageMeta::init(1000), Err(InitError::PageSizeBounds(1000)));
    assert_eq!(StorageMeta::init(256), Err(InitError::PageSizeBounds(256)));
}

#[test]
fn load_error_precedence() {
    let mut data = meta_file(8);
    data[4] = 3;
    data[5] = 9;
    assert_eq!(StorageMeta::load(&data), Err(LoadError::UnsupportedVersion(3)));
    data[4] = 1;
    assert_eq!(StorageMeta::load(&data), Err(LoadError::Corrupted));
}

#[test]
fn init_sets_reserved_byte_and_limit() {
    let meta = StorageMeta::init_for(4096, ByteOrder::Big).unwrap();
    assert_eq!(meta.reserved, 0);
    assert_eq!(meta.byte_order, 1);
    assert_eq!(&meta.magic, b"ACNM");
    assert_eq!(meta.to_bytes_for(ByteOrder::Big)[8..12], [0, 0, 0, 0]);
}
