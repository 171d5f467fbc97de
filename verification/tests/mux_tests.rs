use bbf::builder::BBFBuilder;
use bbf::format::{BBFMediaType, NO_PARENT};
use bbf::mux::{
    add_input_file, add_metadata_pairs, add_sections, asset_check_plan, create_plan, verify_outcome, asset_status, book_info, directory_ok,
    find_section, lookup_latest, page_extraction, resolve_section_target, AssetCheck,
    AssetStatus, SectionConfig,
};
use bbf::petrify::petrify;
use bbf::reader::BBFReader;

fn files(list: &[(&str, u32)]) -> Vec<(String, u32)> {
    list.iter().map(|(n, p)| (n.to_string(), *p)).collect()
}

fn section(name: &str, target: &str, parent: Option<&str>) -> SectionConfig {
    SectionConfig {
        name: name.to_string(),
        target: target.to_string(),
        parent: parent.map(|p| p.to_string()),
    }
}

#[test]
fn lookup_latest_takes_the_last_match() {
    let f = files(&[("a.png", 0), ("b.png", 1), ("a.png", 2)]);
    assert_eq!(lookup_latest(&f, "a.png"), Some(2));
    assert_eq!(lookup_latest(&f, "b.png"), Some(1));
    assert_eq!(lookup_latest(&f, "c.png"), None);
    assert_eq!(lookup_latest(&Vec::new(), "a.png"), None);
}

#[test]
fn section_targets_resolve() {
    let f = files(&[("cover.png", 0), ("12", 4)]);
    assert_eq!(resolve_section_target("cover.png", &f), (0, true));
    // A file name wins over a page number.
    assert_eq!(resolve_section_target("12", &f), (4, true));
    assert_eq!(resolve_section_target("3", &f), (2, true));
    assert_eq!(resolve_section_target("+3", &f), (2, true));
    assert_eq!(resolve_section_target("1", &f), (0, true));
    assert_eq!(resolve_section_target("0", &f), (0, true));
    assert_eq!(resolve_section_target("4294967295", &f), (4294967294, true));
    assert_eq!(resolve_section_target("4294967296", &f), (0, false));
    assert_eq!(resolve_section_target("-1", &f), (0, false));
    assert_eq!(resolve_section_target(" 3", &f), (0, false));
    assert_eq!(resolve_section_target("missing.png", &f), (0, false));
    assert_eq!(resolve_section_target("", &f), (0, false));
}

#[test]
fn input_files_become_pages() {
    let mut b = BBFBuilder::new();
    let mut fp: Vec<(String, u32)> = Vec::new();
    let mut idx: u32 = 0;
    add_input_file(&mut b, "one.PNG", "PNG", b"img1", &mut fp, &mut idx);
    add_input_file(&mut b, "two.jpeg", "jpeg", b"img2", &mut fp, &mut idx);
    add_input_file(&mut b, "three", "", b"img1", &mut fp, &mut idx);
    assert_eq!(idx, 3);
    assert_eq!(fp, files(&[("one.PNG", 0), ("two.jpeg", 1), ("three", 2)]));
    let bytes = b.finalize();
    let r = BBFReader::new(&bytes).unwrap();
    let assets = r.assets();
    assert_eq!(assets.len(), 2);
    assert_eq!(assets[0].type_, BBFMediaType::Png.code());
    assert_eq!(assets[1].type_, BBFMediaType::Jpg.code());
    assert_eq!(r.pages().iter().map(|p| p.asset_index).collect::<Vec<_>>(), vec![0, 1, 0]);
}

#[test]
fn manifest_sections_are_added_in_order() {
    let mut b = BBFBuilder::new();
    b.add_page(b"x", BBFMediaType::Png, 0);
    let fp = files(&[("cover.png", 0), ("p2.png", 1), ("p3.png", 2)]);
    let secs = vec![
        section("Part 1", "cover.png", None),
        section("Chapter 1", "2", Some("Part 1")),
        section("Chapter 2", "nowhere", Some("Missing")),
        section("Part 1", "p3.png", None),
        section("Chapter 3", "p3.png", Some("Part 1")),
    ];
    let found = add_sections(&mut b, &secs, &fp);
    assert_eq!(found, vec![true, true, false, true, true]);
    let bytes = b.finalize();
    let r = BBFReader::new(&bytes).unwrap();
    let pool = r.footer.string_pool_offset;
    let s = r.sections();
    assert_eq!(s.len(), 5);
    let starts: Vec<u64> = s.iter().map(|x| x.section_start_index).collect();
    assert_eq!(starts, vec![0, 1, 0, 2, 2]);
    let parents: Vec<u64> = s.iter().map(|x| x.section_parent_offset).collect();
    // Parents are positions (moved by the pool's place); the later "Part 1"
    // (position 3) is the parent of "Chapter 3".
    assert_eq!(parents, vec![NO_PARENT, pool, NO_PARENT, NO_PARENT, pool + 3]);
    let titles: Vec<Option<&str>> =
        s.iter().map(|x| r.get_string(x.section_title_offset)).collect();
    assert_eq!(
        titles,
        vec![Some("Part 1"), Some("Chapter 1"), Some("Chapter 2"), Some("Part 1"), Some("Chapter 3")]
    );
}

fn sample_book() -> Vec<u8> {
    let mut b = BBFBuilder::new();
    b.add_page(b"first image", BBFMediaType::Png, 0);
    b.add_page(b"second", BBFMediaType::Jpg, 7);
    b.add_page(b"first image", BBFMediaType::Png, 0);
    b.add_section("Chapter 1", 0, None);
    b.add_section("Chapter 2", 2, Some(0));
    b.add_metadata("Title", "My Book");
    b.add_metadata("Author", "Someone");
    b.finalize()
}

#[test]
fn info_reports_the_book() {
    let bytes = sample_book();
    let r = BBFReader::new(&bytes).unwrap();
    let info = book_info(&r);
    assert_eq!(info.version, 3);
    assert_eq!(info.pages, 3);
    assert_eq!(info.assets, 2);
    assert!(!info.petrified);
    assert_eq!(info.sections.len(), 2);
    assert_eq!(info.sections[0].title, "Chapter 1");
    assert_eq!(info.sections[0].start_page, 1);
    assert_eq!(info.sections[1].title, "Chapter 2");
    assert_eq!(info.sections[1].start_page, 3);
    assert_eq!(
        info.metadata,
        vec![
            ("Title".to_string(), "My Book".to_string()),
            ("Author".to_string(), "Someone".to_string())
        ]
    );
    let mut f = bytes.clone();
    petrify(&mut f).unwrap();
    let r = BBFReader::new(&f).unwrap();
    assert!(book_info(&r).petrified);
}

#[test]
fn info_marks_unreadable_strings() {
    // A section and a metadata pair whose offsets lie outside the pool.
    let mut d = vec![0u8; 384];
    d[0..4].copy_from_slice(b"BBF3");
    d[16..24].copy_from_slice(&64u64.to_le_bytes());
    d[64 + 16..64 + 24].copy_from_slice(&320u64.to_le_bytes());
    d[64 + 72..64 + 80].copy_from_slice(&1u64.to_le_bytes());
    d[64 + 24..64 + 32].copy_from_slice(&352u64.to_le_bytes());
    d[64 + 80..64 + 88].copy_from_slice(&1u64.to_le_bytes());
    d[328..336].copy_from_slice(&u64::MAX.to_le_bytes());
    let r = BBFReader::new(&d).unwrap();
    let info = book_info(&r);
    assert_eq!(info.sections[0].title, "???");
    assert_eq!(info.sections[0].start_page, 0);
    assert_eq!(info.metadata, vec![("?".to_string(), "?".to_string())]);
}

#[test]
fn verify_checks_asset_hashes() {
    let bytes = sample_book();
    let r = BBFReader::new(&bytes).unwrap();
    assert_eq!(asset_status(&r, 0), AssetStatus::Intact);
    assert_eq!(asset_status(&r, 1), AssetStatus::Intact);
    let mut bad = bytes.clone();
    bad[4096] ^= 1;
    let r = BBFReader::new(&bad).unwrap();
    assert_eq!(asset_status(&r, 0), AssetStatus::Corrupt);
    assert_eq!(asset_status(&r, 1), AssetStatus::Intact);
    // The second asset's size made to run past the end of the file.
    let mut bad = bytes.clone();
    bad[8198 + 48 + 24..8198 + 48 + 32].copy_from_slice(&1000u64.to_le_bytes());
    let r = BBFReader::new(&bad).unwrap();
    assert_eq!(asset_status(&r, 1), AssetStatus::OutOfBounds);
    let mut bad = bytes.clone();
    bad[8198..8206].copy_from_slice(&u64::MAX.to_le_bytes());
    let r = BBFReader::new(&bad).unwrap();
    assert_eq!(asset_status(&r, 0), AssetStatus::OutOfBounds);
}

#[test]
fn verify_directory_hash_passes_on_intact_books() {
    // The footer holds the hash of the tables and the string pool,
    // bytes 8198..8519 of the sample book.
    let bytes = sample_book();
    let r = BBFReader::new(&bytes).unwrap();
    assert_eq!(r.footer.footer_hash, xxhash_rust::xxh3::xxh3_64(&bytes[8198..8519]));
    assert_eq!(directory_ok(&r), Some(true));
    let mut f = bytes.clone();
    petrify(&mut f).unwrap();
    let r = BBFReader::new(&f).unwrap();
    assert_eq!(directory_ok(&r), Some(true));
    let empty = BBFBuilder::new().finalize();
    let r = BBFReader::new(&empty).unwrap();
    assert_eq!(directory_ok(&r), Some(true));
}

#[test]
fn verify_directory_hash_catches_changes() {
    let bytes = sample_book();
    // A byte of the page table.
    let mut bad = bytes.clone();
    bad[8300] ^= 1;
    let r = BBFReader::new(&bad).unwrap();
    assert_eq!(directory_ok(&r), Some(false));
    // A byte of the string pool.
    let mut bad = bytes.clone();
    bad[8500] ^= 1;
    let r = BBFReader::new(&bad).unwrap();
    assert_eq!(directory_ok(&r), Some(false));
    // Image bytes are not part of the index.
    let mut other = bytes.clone();
    other[4096] ^= 1;
    let r = BBFReader::new(&other).unwrap();
    assert_eq!(directory_ok(&r), Some(true));
}

#[test]
fn verify_directory_without_region() {
    // Asset table said to start after the end of the string pool.
    let mut d = vec![0u8; 320];
    d[0..4].copy_from_slice(b"BBF3");
    d[16..24].copy_from_slice(&64u64.to_le_bytes());
    d[64..72].copy_from_slice(&300u64.to_le_bytes());
    d[64 + 40..64 + 48].copy_from_slice(&100u64.to_le_bytes());
    d[64 + 48..64 + 56].copy_from_slice(&10u64.to_le_bytes());
    let r = BBFReader::new(&d).unwrap();
    assert_eq!(directory_ok(&r), None);
}

#[test]
fn verify_plans() {
    assert_eq!(asset_check_plan(None), AssetCheck::All);
    assert_eq!(asset_check_plan(Some(0)), AssetCheck::One(0));
    assert_eq!(asset_check_plan(Some(5)), AssetCheck::One(5));
    assert_eq!(asset_check_plan(Some(-1)), AssetCheck::Skip);
    assert_eq!(asset_check_plan(Some(-2)), AssetCheck::All);
    assert_eq!(asset_check_plan(Some(i32::MIN)), AssetCheck::All);
}

#[test]
fn extract_finds_sections() {
    let bytes = sample_book();
    let r = BBFReader::new(&bytes).unwrap();
    assert_eq!(find_section(&r, "Chapter 1"), Some((0, 2)));
    assert_eq!(find_section(&r, "Chapter 2"), Some((2, 3)));
    assert_eq!(find_section(&r, "Chapter 3"), None);
    assert_eq!(find_section(&r, ""), None);
}

#[test]
fn extract_pages() {
    let bytes = sample_book();
    let r = BBFReader::new(&bytes).unwrap();
    let (m0, d0) = page_extraction(&r, 0);
    assert_eq!(m0, BBFMediaType::Png);
    assert_eq!(d0.unwrap(), b"first image");
    let (m1, d1) = page_extraction(&r, 1);
    assert_eq!(m1, BBFMediaType::Jpg);
    assert_eq!(m1.as_extension(), ".jpg");
    assert_eq!(d1.unwrap(), b"second");
    let (_, d2) = page_extraction(&r, 2);
    assert_eq!(d2.unwrap(), b"first image");
    // An image that lies past the end of the file is skipped.
    let cut = &bytes[..];
    let mut short = cut.to_vec();
    short[8198..8206].copy_from_slice(&9000u64.to_le_bytes());
    let r = BBFReader::new(&short).unwrap();
    assert_eq!(page_extraction(&r, 0).1, None);
}

#[test]
fn manifest_metadata_pairs_are_added_in_order() {
    let mut b = BBFBuilder::new();
    let pairs = vec![
        ("Title".to_string(), "Book".to_string()),
        ("Author".to_string(), "Title".to_string()),
        ("Title".to_string(), "Again".to_string()),
    ];
    add_metadata_pairs(&mut b, &pairs);
    let bytes = b.finalize();
    let r = BBFReader::new(&bytes).unwrap();
    let m = r.metadata();
    assert_eq!(m.len(), 3);
    let read: Vec<(Option<&str>, Option<&str>)> =
        m.iter().map(|e| (r.get_string(e.key_offset), r.get_string(e.value_offset))).collect();
    assert_eq!(
        read,
        vec![
            (Some("Title"), Some("Book")),
            (Some("Author"), Some("Title")),
            (Some("Title"), Some("Again"))
        ]
    );
    // "Title", "Book", "Author", "Again" are each stored once.
    assert_eq!(r.footer.string_pool_size, 6 + 5 + 7 + 6);
    assert_eq!(m[0].key_offset, m[1].value_offset);
    assert_eq!(m[0].key_offset, m[2].key_offset);
    assert!(m.iter().all(|e| e.parent_offset == NO_PARENT));
}

#[test]
fn verify_outcome_combines_the_checks() {
    assert_eq!(verify_outcome(true, &vec![]), (true, true));
    assert_eq!(verify_outcome(false, &vec![]), (true, false));
    assert_eq!(verify_outcome(true, &vec![AssetStatus::Intact, AssetStatus::Intact]), (true, true));
    assert_eq!(verify_outcome(true, &vec![AssetStatus::Intact, AssetStatus::Corrupt]), (false, false));
    assert_eq!(verify_outcome(true, &vec![AssetStatus::OutOfBounds]), (false, false));
    assert_eq!(verify_outcome(false, &vec![AssetStatus::Intact]), (true, false));
}

#[test]
fn create_plan_decides_petrification() {
    assert_eq!(create_plan(false, None, 0), None);
    assert_eq!(create_plan(true, Some(true), 0), None);
    assert_eq!(create_plan(false, None, 3), Some(false));
    assert_eq!(create_plan(true, None, 1), Some(true));
    assert_eq!(create_plan(false, Some(true), 1), Some(true));
    assert_eq!(create_plan(false, Some(false), 1), Some(false));
}

#[test]
fn book_counts_after_a_build() {
    let mut b = BBFBuilder::new();
    for data in [&b"a"[..], b"b", b"a", b"c", b"b"] {
        b.add_page(data, BBFMediaType::Png, 0);
    }
    b.add_section("One", 0, None);
    b.add_section("Two", 3, Some(0));
    b.add_metadata("k", "v");
    let bytes = b.finalize();
    let r = BBFReader::new(&bytes).unwrap();
    assert_eq!(r.pages().len(), 5);
    assert_eq!(r.assets().len(), 3);
    assert_eq!(r.sections().len(), 2);
    assert_eq!(r.metadata().len(), 1);
    let mut f = bytes.clone();
    petrify(&mut f).unwrap();
    let r = BBFReader::new(&f).unwrap();
    assert_eq!((r.pages().len(), r.assets().len(), r.sections().len(), r.metadata().len()), (5, 3, 2, 1));
}
