use bbf::builder::BBFBuilder;
use bbf::format::BBFMediaType;
use bbf::petrify::petrify;
use bbf::reader::{BBFError, BBFReader};
use bbf::streamer::{StreamError, WasmBBFStreamer};

fn sample_book() -> Vec<u8> {
    let mut b = BBFBuilder::new();
    b.add_page(b"first image", BBFMediaType::Png, 0);
    b.add_page(b"second", BBFMediaType::Jpg, 7);
    b.add_page(b"first image", BBFMediaType::Png, 0);
    b.add_section("Chapter 1", 0, None);
    b.add_section("Chapter 2", 2, Some(0));
    b.add_metadata("Title", "My Book");
    b.add_metadata("Author", "Someone");
    b.finalize()
}

fn petrified_book() -> Vec<u8> {
    let mut f = sample_book();
    assert_eq!(petrify(&mut f), Ok(()));
    f
}

#[test]
fn petrify_moves_the_index_to_the_front() {
    let old = sample_book();
    let f = petrified_book();
    assert_eq!(f.len(), 8198 + 2 * 321 + 256);
    let r = BBFReader::new(&f).unwrap();
    assert_eq!(r.header.footer_offset, 64);
    let ft = &r.footer;
    assert_eq!(ft.asset_offset, 320);
    assert_eq!(ft.page_offset, 320 + 96);
    assert_eq!(ft.section_offset, 320 + 96 + 48);
    assert_eq!(ft.meta_offset, 320 + 96 + 48 + 64);
    assert_eq!(ft.string_pool_offset, 320 + 96 + 48 + 64 + 64);
    assert_eq!(ft.string_pool_size, 49);
    assert_eq!(ft.footer_hash, xxhash_rust::xxh3::xxh3_64(&f[320..641]));
    // The images and what lay between header and old footer follow the tables.
    assert_eq!(&f[641..641 + 8455], &old[64..8519]);
    // The string pool is carried over unchanged.
    assert_eq!(&f[592..641], &old[8470..8519]);
}

#[test]
fn petrified_book_reads_back_the_same() {
    let f = petrified_book();
    let r = BBFReader::new(&f).unwrap();
    assert_eq!(r.get_asset(0).unwrap(), b"first image");
    assert_eq!(r.get_asset(1).unwrap(), b"second");
    assert_eq!(r.assets()[0].file_offset, 4096 + 577);
    let pages = r.pages();
    assert_eq!(pages.iter().map(|p| p.asset_index).collect::<Vec<_>>(), vec![0, 1, 0]);
    let s = r.sections();
    assert_eq!(r.get_string(s[0].section_title_offset), Some("Chapter 1"));
    assert_eq!(r.get_string(s[1].section_title_offset), Some("Chapter 2"));
    assert_eq!(s[1].section_parent_offset, r.footer.string_pool_offset);
    let m = r.metadata();
    assert_eq!(r.get_string(m[1].key_offset), Some("Author"));
    assert_eq!(r.get_string(m[1].value_offset), Some("Someone"));
}

#[test]
fn petrified_prefix_holds_the_index() {
    let f = petrified_book();
    // Header, footer and tables: 320 + 321 bytes.
    assert!(BBFReader::new(&f[..641]).is_ok());
    assert!(BBFReader::new(&f[..640]).is_err());
    let r = BBFReader::new(&f[..641]).unwrap();
    assert_eq!(r.pages().len(), 3);
    assert_eq!(r.get_asset(0), Err(BBFError::FileTooShort));
    // An unpetrified book needs its end.
    let old = sample_book();
    assert!(BBFReader::new(&old[..8000]).is_err());
}

#[test]
fn petrify_errors_leave_the_file_alone() {
    let mut short = vec![1u8; 63];
    assert_eq!(petrify(&mut short), Err(BBFError::FileTooShort));
    assert_eq!(short, vec![1u8; 63]);
    let mut d = vec![0u8; 320];
    d[16..24].copy_from_slice(&100u64.to_le_bytes());
    let before = d.clone();
    assert_eq!(petrify(&mut d), Err(BBFError::FileTooShort));
    assert_eq!(d, before);
    // Tables beyond the end of the file.
    let mut d = vec![0u8; 320];
    d[16..24].copy_from_slice(&64u64.to_le_bytes());
    d[64..72].copy_from_slice(&300u64.to_le_bytes());
    d[64 + 56..64 + 64].copy_from_slice(&1u64.to_le_bytes());
    assert_eq!(petrify(&mut d), Err(BBFError::FileTooShort));
    // Tables whose size overflows.
    let mut d = vec![0u8; 320];
    d[16..24].copy_from_slice(&64u64.to_le_bytes());
    d[64 + 48..64 + 56].copy_from_slice(&u64::MAX.to_le_bytes());
    assert_eq!(petrify(&mut d), Err(BBFError::TableError));
}

#[test]
fn petrify_empty_book() {
    let mut f = BBFBuilder::new().finalize();
    assert_eq!(petrify(&mut f), Ok(()));
    assert_eq!(f.len(), 320);
    let r = BBFReader::new(&f).unwrap();
    assert_eq!(r.header.footer_offset, 64);
    assert_eq!(r.footer.string_pool_offset, 320);
}

#[test]
fn streamer_before_anything_arrives() {
    let s = WasmBBFStreamer::new();
    assert!(!s.is_ready());
    assert_eq!(s.page_count(), Err(StreamError::IndexNotReady));
    assert_eq!(s.is_page_ready(0), Err(StreamError::IndexNotReady));
    assert_eq!(s.get_page(0).err(), Some(StreamError::IndexNotReady));
    assert_eq!(s.get_page_mime(0), Err(StreamError::IndexNotReady));
}

#[test]
fn streamer_reads_a_petrified_book_as_it_arrives() {
    let f = petrified_book();
    let mut s = WasmBBFStreamer::new();
    s.append_chunk(&f[..300]);
    assert!(!s.is_ready());
    s.append_chunk(&f[300..641]);
    assert!(s.is_ready());
    assert_eq!(s.page_count(), Ok(3));
    assert_eq!(s.is_page_ready(0), Ok(false));
    assert_eq!(s.get_page(0).err(), Some(StreamError::PageNotDownloaded));
    assert_eq!(s.get_page_mime(1), Ok("image/jpeg"));
    assert_eq!(s.is_page_ready(3), Err(StreamError::PageOutOfBounds));
    assert_eq!(s.get_page(3).err(), Some(StreamError::PageOutOfBounds));
    assert_eq!(s.get_page_mime(3), Err(StreamError::PageOutOfBounds));
    // The first image lies at 4673..4684.
    s.append_chunk(&f[641..4684]);
    assert_eq!(s.is_page_ready(0), Ok(true));
    assert_eq!(s.is_page_ready(2), Ok(true));
    assert_eq!(s.is_page_ready(1), Ok(false));
    assert_eq!(s.get_page(2).unwrap(), b"first image");
    s.append_chunk(&f[4684..]);
    assert_eq!(s.get_page(1).unwrap(), b"second");
    assert_eq!(s.get_page_mime(0), Ok("image/png"));
}

#[test]
fn streamer_mime_types() {
    let mut b = BBFBuilder::new();
    b.add_page(b"a", BBFMediaType::Avif, 0);
    b.add_page(b"b", BBFMediaType::Webp, 0);
    b.add_page(b"c", BBFMediaType::Gif, 0);
    b.add_page(b"d", BBFMediaType::Unknown, 0);
    let f = b.finalize();
    let mut s = WasmBBFStreamer::new();
    s.append_chunk(&f);
    assert_eq!(s.get_page_mime(0), Ok("image/avif"));
    assert_eq!(s.get_page_mime(1), Ok("image/webp"));
    assert_eq!(s.get_page_mime(2), Ok("application/octet-stream"));
    assert_eq!(s.get_page_mime(3), Ok("application/octet-stream"));
}

#[test]
fn stream_error_messages() {
    assert_eq!(StreamError::IndexNotReady.message(), "Index not ready yet");
    assert_eq!(StreamError::PageOutOfBounds.message(), "Page index out of bounds");
    assert_eq!(
        StreamError::PageNotDownloaded.message(),
        "Page data has not fully downloaded yet"
    );
}

#[test]
fn streamer_page_names_asset() {
    let s = WasmBBFStreamer::new();
    assert!(s.page_names_asset(0));
    let f = petrified_book();
    let mut s = WasmBBFStreamer::new();
    s.append_chunk(&f);
    assert!(s.page_names_asset(0));
    assert!(s.page_names_asset(2));
    assert!(s.page_names_asset(3));
    // The first page entry (at 416) made to name asset 9 of 2.
    let mut g = f.clone();
    g[416..424].copy_from_slice(&9u64.to_le_bytes());
    let mut s = WasmBBFStreamer::new();
    s.append_chunk(&g);
    assert!(!s.page_names_asset(0));
    assert!(s.page_names_asset(1));
}

#[test]
fn unpetrified_book_is_ready_only_when_complete() {
    let f = sample_book();
    let mut s = WasmBBFStreamer::new();
    s.append_chunk(&f[..f.len() - 1]);
    assert!(!s.is_ready());
    assert_eq!(s.page_count(), Err(StreamError::IndexNotReady));
    s.append_chunk(&f[f.len() - 1..]);
    assert!(s.is_ready());
    assert_eq!(s.page_count(), Ok(3));
}

#[test]
fn petrified_book_is_ready_exactly_when_its_pool_arrives() {
    let f = petrified_book();
    for k in [0usize, 100, 319, 320, 500, 640] {
        let mut s = WasmBBFStreamer::new();
        s.append_chunk(&f[..k]);
        assert!(!s.is_ready(), "prefix of {k} bytes");
    }
    for k in [641usize, 642, 4000, f.len()] {
        let mut s = WasmBBFStreamer::new();
        s.append_chunk(&f[..k]);
        assert!(s.is_ready(), "prefix of {k} bytes");
    }
}
