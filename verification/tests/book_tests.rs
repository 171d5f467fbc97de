use bbf::builder::BBFBuilder;
use bbf::format::{BBFMediaType, NO_PARENT};
use bbf::reader::{BBFError, BBFReader};

fn sample_book() -> Vec<u8> {
    let mut b = BBFBuilder::new();
    assert_eq!(b.add_page(b"first image", BBFMediaType::Png, 0), 0);
    assert_eq!(b.add_page(b"second", BBFMediaType::Jpg, 7), 1);
    assert_eq!(b.add_page(b"first image", BBFMediaType::Png, 0), 0);
    b.add_section("Chapter 1", 0, None);
    b.add_section("Chapter 2", 2, Some(0));
    b.add_metadata("Title", "My Book");
    b.add_metadata("Author", "Someone");
    b.finalize()
}

#[test]
fn new_builder_writes_only_the_header() {
    let b = BBFBuilder::new();
    assert_eq!(b.final_size(), 64 + 256);
    let bytes = b.finalize();
    assert_eq!(bytes.len(), 64 + 256);
    assert_eq!(&bytes[0..4], b"BBF3");
    assert_eq!(&bytes[4..6], &3u16.to_le_bytes());
    assert_eq!(&bytes[6..8], &64u16.to_le_bytes());
    assert_eq!(bytes[12], 12);
    assert_eq!(bytes[13], 16);
    assert_eq!(&bytes[16..24], &64u64.to_le_bytes());
    let r = BBFReader::new(&bytes).unwrap();
    assert_eq!(r.footer.page_count, 0);
    assert_eq!(r.footer.asset_offset, 64);
    assert_eq!(r.footer.string_pool_offset, 64);
    assert_eq!(r.footer.string_pool_size, 0);
    assert_eq!(r.footer.footer_len, 256);
    assert_eq!(r.footer.footer_hash, xxhash_rust::xxh3::xxh3_64(&[]));
}

#[test]
fn finished_book_layout() {
    let bytes = sample_book();
    // Header, two aligned images, 321 bytes of tables and pool, footer.
    assert_eq!(bytes.len(), 8198 + 321 + 256);
    let r = BBFReader::new(&bytes).unwrap();
    assert_eq!(r.header.footer_offset, 8519);
    assert_eq!(r.header.version, 3);
    let f = &r.footer;
    assert_eq!(f.asset_offset, 8198);
    assert_eq!(f.page_offset, 8198 + 96);
    assert_eq!(f.section_offset, 8198 + 96 + 48);
    assert_eq!(f.meta_offset, 8198 + 96 + 48 + 64);
    assert_eq!(f.string_pool_offset, 8198 + 96 + 48 + 64 + 64);
    assert_eq!(f.string_pool_size, 49);
    assert_eq!((f.asset_count, f.page_count, f.section_count, f.meta_count), (2, 3, 2, 2));
    assert_eq!((f.expansion_offset, f.expansion_count, f.flags), (0, 0, 0));
    assert_eq!(f.footer_hash, xxhash_rust::xxh3::xxh3_64(&bytes[8198..8519]));
    assert!(bytes[64..4096].iter().all(|&x| x == 0));
    assert_eq!(&bytes[4096..4107], b"first image");
    assert_eq!(&bytes[8192..8198], b"second");
}

#[test]
fn finished_book_reads_back() {
    let bytes = sample_book();
    let r = BBFReader::new(&bytes).unwrap();
    assert_eq!(r.get_asset(0).unwrap(), b"first image");
    assert_eq!(r.get_asset(1).unwrap(), b"second");
    assert_eq!(r.get_asset(2), Err(BBFError::OutOfBounds));
    let pages = r.pages();
    assert_eq!(pages.len(), 3);
    assert_eq!(pages.iter().map(|p| p.asset_index).collect::<Vec<_>>(), vec![0, 1, 0]);
    assert_eq!(pages.iter().map(|p| p.flags).collect::<Vec<_>>(), vec![0, 7, 0]);
    let assets = r.assets();
    assert_eq!(assets.len(), 2);
    assert_eq!(assets[0].file_offset, 4096);
    assert_eq!(assets[0].file_size, 11);
    assert_eq!(assets[0].type_, 2);
    assert_eq!(assets[1].file_offset, 8192);
    assert_eq!(assets[1].type_, 9);
    let h = xxhash_rust::xxh3::xxh3_128(b"first image");
    assert_eq!(assets[0].asset_hash, [h as u64, (h >> 64) as u64]);
}

#[test]
fn finished_book_strings_read_back() {
    let bytes = sample_book();
    let r = BBFReader::new(&bytes).unwrap();
    let pool = r.footer.string_pool_offset;
    let s = r.sections();
    assert_eq!(s.len(), 2);
    assert_eq!(r.get_string(s[0].section_title_offset), Some("Chapter 1"));
    assert_eq!(r.get_string(s[1].section_title_offset), Some("Chapter 2"));
    assert_eq!(s[0].section_start_index, 0);
    assert_eq!(s[1].section_start_index, 2);
    assert_eq!(s[0].section_parent_offset, NO_PARENT);
    // A parent's position is stored moved by the pool's place, as the
    // string offsets are.
    assert_eq!(s[1].section_parent_offset, pool);
    let m = r.metadata();
    assert_eq!(m.len(), 2);
    assert_eq!(r.get_string(m[0].key_offset), Some("Title"));
    assert_eq!(r.get_string(m[0].value_offset), Some("My Book"));
    assert_eq!(r.get_string(m[1].key_offset), Some("Author"));
    assert_eq!(r.get_string(m[1].value_offset), Some("Someone"));
    assert_eq!(m[0].parent_offset, NO_PARENT);
    assert_eq!(r.get_string(pool + 3), Some("pter 1"));
    assert_eq!(r.get_string(pool + 9), Some(""));
    assert_eq!(r.get_string(pool - 1), None);
    assert_eq!(r.get_string(pool + 49), None);
}

#[test]
fn repeated_strings_are_stored_once() {
    let mut b = BBFBuilder::new();
    b.add_section("Intro", 0, None);
    b.add_metadata("Intro", "Intro");
    b.add_section("Intro", 0, None);
    let bytes = b.finalize();
    let r = BBFReader::new(&bytes).unwrap();
    assert_eq!(r.footer.string_pool_size, 6);
    let s = r.sections();
    let m = r.metadata();
    assert_eq!(s[0].section_title_offset, s[1].section_title_offset);
    assert_eq!(m[0].key_offset, s[0].section_title_offset);
    assert_eq!(m[0].value_offset, s[0].section_title_offset);
}

#[test]
fn empty_image_is_an_asset() {
    let mut b = BBFBuilder::new();
    assert_eq!(b.add_page(&[], BBFMediaType::Unknown, 0), 0);
    assert_eq!(b.add_page(&[], BBFMediaType::Unknown, 1), 0);
    let bytes = b.finalize();
    let r = BBFReader::new(&bytes).unwrap();
    assert_eq!(r.footer.asset_count, 1);
    assert_eq!(r.footer.page_count, 2);
    assert_eq!(r.get_asset(0).unwrap(), b"");
    assert_eq!(r.assets()[0].file_offset, 4096);
}

#[test]
fn final_size_predicts_the_file() {
    let mut b = BBFBuilder::new();
    b.add_page(b"abc", BBFMediaType::Gif, 0);
    b.add_metadata("k", "v");
    let n = b.final_size();
    assert_eq!(b.finalize().len() as u64, n);
}

fn craft(footer_offset: u64, total: usize, footer_fields: &[(usize, u64)]) -> Vec<u8> {
    let mut d = vec![0u8; total];
    d[0..4].copy_from_slice(b"BBF3");
    d[16..24].copy_from_slice(&footer_offset.to_le_bytes());
    for &(at, v) in footer_fields {
        let p = footer_offset as usize + at;
        d[p..p + 8].copy_from_slice(&v.to_le_bytes());
    }
    d
}

#[test]
fn reader_rejects_short_input() {
    assert_eq!(BBFReader::new(&[0u8; 319]).err(), Some(BBFError::FileTooShort));
    assert_eq!(BBFReader::new(&[]).err(), Some(BBFError::FileTooShort));
}

#[test]
fn reader_rejects_bad_magic() {
    let mut d = craft(64, 320, &[]);
    d[3] = b'2';
    assert_eq!(BBFReader::new(&d).err(), Some(BBFError::InvalidMagic));
}

#[test]
fn reader_rejects_footer_past_end() {
    let d = craft(65, 320, &[]);
    assert_eq!(BBFReader::new(&d).err(), Some(BBFError::FileTooShort));
    let d = craft(u64::MAX, 320, &[]);
    assert!(BBFReader::new(&d).is_err());
}

#[test]
fn reader_accepts_minimal_file() {
    let d = craft(64, 320, &[]);
    let r = BBFReader::new(&d).unwrap();
    assert_eq!(r.pages().len(), 0);
    assert_eq!(r.get_asset(0), Err(BBFError::OutOfBounds));
}

#[test]
fn reader_table_errors() {
    // asset count whose table size overflows
    let d = craft(64, 320, &[(56, u64::MAX)]);
    assert_eq!(BBFReader::new(&d).err(), Some(BBFError::TableError));
    // page table whose end overflows
    let d = craft(64, 320, &[(8, u64::MAX), (64, 1)]);
    assert_eq!(BBFReader::new(&d).err(), Some(BBFError::TableError));
    // section table past the end
    let d = craft(64, 320, &[(16, 300), (72, 1)]);
    assert_eq!(BBFReader::new(&d).err(), Some(BBFError::FileTooShort));
    // metadata table past the end
    let d = craft(64, 320, &[(24, 320), (80, 1)]);
    assert_eq!(BBFReader::new(&d).err(), Some(BBFError::FileTooShort));
    // string pool overflowing
    let d = craft(64, 320, &[(40, u64::MAX), (48, 1)]);
    assert_eq!(BBFReader::new(&d).err(), Some(BBFError::TableError));
    // string pool past the end
    let d = craft(64, 320, &[(40, 300), (48, 21)]);
    assert_eq!(BBFReader::new(&d).err(), Some(BBFError::FileTooShort));
    let d = craft(64, 320, &[(40, 300), (48, 20)]);
    assert!(BBFReader::new(&d).is_ok());
}

#[test]
fn get_asset_outside_the_file() {
    // One asset entry at 320, pointing past the end.
    let mut d = craft(64, 368, &[(0, 320), (56, 1)]);
    d[320..328].copy_from_slice(&300u64.to_le_bytes());
    d[344..352].copy_from_slice(&100u64.to_le_bytes());
    let r = BBFReader::new(&d).unwrap();
    assert_eq!(r.get_asset(0), Err(BBFError::FileTooShort));
    // Offset plus size overflowing.
    let mut d = craft(64, 368, &[(0, 320), (56, 1)]);
    d[320..328].copy_from_slice(&u64::MAX.to_le_bytes());
    d[344..352].copy_from_slice(&1u64.to_le_bytes());
    let r = BBFReader::new(&d).unwrap();
    assert_eq!(r.get_asset(0), Err(BBFError::OutOfBounds));
}

#[test]
fn get_string_rejects_invalid_utf8() {
    let mut d = craft(64, 330, &[(40, 320), (48, 10)]);
    d[320] = 0xFF;
    d[321] = b'a';
    let r = BBFReader::new(&d).unwrap();
    assert_eq!(r.get_string(320), None);
    assert_eq!(r.get_string(321), Some("a"));
    // No terminating zero: the string runs to the end of the pool.
    d[322..330].copy_from_slice(b"bcdefghi");
    let r = BBFReader::new(&d).unwrap();
    assert_eq!(r.get_string(321), Some("abcdefghi"));
}

#[test]
fn error_messages() {
    assert_eq!(BBFError::InvalidMagic.message(), "Invalid BBF Magic");
    assert_eq!(BBFError::FileTooShort.message(), "File too short or corrupted header");
    assert_eq!(BBFError::TableError.message(), "Table error or invalid offsets");
    assert_eq!(BBFError::OutOfBounds.message(), "Index out of bounds");
}
