use bbf::text::parse_u32;
use bbf::format::{
    BBFAssetEntry, BBFFooter, BBFHeader, BBFMediaType, BBFMetadata, BBFPageEntry, BBFSection,
    FOOTER_SIZE, HEADER_SIZE, NO_PARENT,
};

const ALL_TYPES: [BBFMediaType; 9] = [
    BBFMediaType::Unknown,
    BBFMediaType::Avif,
    BBFMediaType::Png,
    BBFMediaType::Webp,
    BBFMediaType::Jxl,
    BBFMediaType::Bmp,
    BBFMediaType::Gif,
    BBFMediaType::Tiff,
    BBFMediaType::Jpg,
];

#[test]
fn media_type_codes_are_the_stored_bytes() {
    let codes: Vec<u8> = ALL_TYPES.iter().map(|m| m.code()).collect();
    assert_eq!(codes, vec![0, 1, 2, 3, 4, 5, 7, 8, 9]);
}

#[test]
fn media_type_from_byte_reads_each_assigned_code() {
    for m in ALL_TYPES {
        assert_eq!(BBFMediaType::from(m.code()), m);
    }
    assert_eq!(BBFMediaType::from(6u8), BBFMediaType::Unknown);
    assert_eq!(BBFMediaType::from(0x0Au8), BBFMediaType::Unknown);
    assert_eq!(BBFMediaType::from(0xFFu8), BBFMediaType::Unknown);
}

#[test]
fn media_type_default_is_unknown() {
    assert_eq!(BBFMediaType::default(), BBFMediaType::Unknown);
}

#[test]
fn media_type_from_extension_ignores_case() {
    assert_eq!(BBFMediaType::from_extension(".png"), BBFMediaType::Png);
    assert_eq!(BBFMediaType::from_extension(".PNG"), BBFMediaType::Png);
    assert_eq!(BBFMediaType::from_extension(".JpEg"), BBFMediaType::Jpg);
    assert_eq!(BBFMediaType::from_extension(".jpg"), BBFMediaType::Jpg);
    assert_eq!(BBFMediaType::from_extension(".AVIF"), BBFMediaType::Avif);
    assert_eq!(BBFMediaType::from_extension(".webp"), BBFMediaType::Webp);
    assert_eq!(BBFMediaType::from_extension(".jxl"), BBFMediaType::Jxl);
    assert_eq!(BBFMediaType::from_extension(".bmp"), BBFMediaType::Bmp);
    assert_eq!(BBFMediaType::from_extension(".Gif"), BBFMediaType::Gif);
    assert_eq!(BBFMediaType::from_extension(".tiff"), BBFMediaType::Tiff);
}

#[test]
fn media_type_from_extension_unknown_cases() {
    assert_eq!(BBFMediaType::from_extension("png"), BBFMediaType::Unknown);
    assert_eq!(BBFMediaType::from_extension(""), BBFMediaType::Unknown);
    assert_eq!(BBFMediaType::from_extension(".tif"), BBFMediaType::Unknown);
    assert_eq!(BBFMediaType::from_extension(".bin"), BBFMediaType::Unknown);
    assert_eq!(BBFMediaType::from_extension(".png "), BBFMediaType::Unknown);
}

#[test]
fn media_type_lowercase_extension_is_case_sensitive() {
    assert_eq!(BBFMediaType::from_lowercase_extension(".gif"), BBFMediaType::Gif);
    assert_eq!(BBFMediaType::from_lowercase_extension(".GIF"), BBFMediaType::Unknown);
}

#[test]
fn media_type_extensions() {
    let exts: Vec<&str> = ALL_TYPES.iter().map(|m| m.as_extension()).collect();
    assert_eq!(exts, vec![".bin", ".avif", ".png", ".webp", ".jxl", ".bmp", ".gif", ".tiff", ".jpg"]);
}

#[test]
fn media_type_extension_round_trip() {
    for m in ALL_TYPES {
        assert_eq!(BBFMediaType::from_extension(m.as_extension()), m);
    }
}

fn sample_header() -> BBFHeader {
    BBFHeader {
        magic: *b"BBF3",
        version: 3,
        header_len: 64,
        flags: 0x0102_0304,
        alignment: 12,
        ream_size: 16,
        reserved_extra: 0xBEEF,
        footer_offset: 0x1122_3344_5566_7788,
        reserved: [7u8; 40],
    }
}

#[test]
fn header_bytes_layout() {
    let h = sample_header();
    let b = h.to_bytes();
    assert_eq!(b.len(), HEADER_SIZE);
    assert_eq!(&b[0..4], b"BBF3");
    assert_eq!(&b[4..6], &[3, 0]);
    assert_eq!(&b[6..8], &[64, 0]);
    assert_eq!(&b[8..12], &[4, 3, 2, 1]);
    assert_eq!(b[12], 12);
    assert_eq!(b[13], 16);
    assert_eq!(&b[14..16], &[0xEF, 0xBE]);
    assert_eq!(&b[16..24], &0x1122_3344_5566_7788u64.to_le_bytes());
    assert!(b[24..64].iter().all(|&x| x == 7));
}

#[test]
fn header_round_trip() {
    let h = sample_header();
    let b = h.to_bytes();
    let r = BBFHeader::from_bytes(&b);
    assert_eq!(r.to_bytes(), b);
    assert_eq!(r.footer_offset, h.footer_offset);
    assert_eq!(r.flags, h.flags);
    assert_eq!(r.magic, h.magic);
}

#[test]
fn asset_entry_layout_and_round_trip() {
    let e = BBFAssetEntry {
        file_offset: 4096,
        asset_hash: [0x0102_0304_0506_0708, 0x1112_1314_1516_1718],
        file_size: 99,
        flags: 5,
        reserved_value: 6,
        type_: 9,
        reserved: [1u8; 9],
    };
    let b = e.to_bytes();
    assert_eq!(b.len(), 48);
    assert_eq!(&b[0..8], &4096u64.to_le_bytes());
    assert_eq!(&b[8..16], &0x0102_0304_0506_0708u64.to_le_bytes());
    assert_eq!(&b[16..24], &0x1112_1314_1516_1718u64.to_le_bytes());
    assert_eq!(&b[24..32], &99u64.to_le_bytes());
    assert_eq!(&b[32..36], &5u32.to_le_bytes());
    assert_eq!(&b[36..38], &6u16.to_le_bytes());
    assert_eq!(b[38], 9);
    let r = BBFAssetEntry::from_bytes(&b);
    assert_eq!(r.file_offset, 4096);
    assert_eq!(r.asset_hash, e.asset_hash);
    assert_eq!(r.file_size, 99);
    assert_eq!(r.type_, 9);
    assert_eq!(r.to_bytes(), b);
}

#[test]
fn page_entry_layout_and_round_trip() {
    let e = BBFPageEntry { asset_index: 3, flags: 0xAABB, reserved: [0u8; 4] };
    let b = e.to_bytes();
    assert_eq!(b, vec![3, 0, 0, 0, 0, 0, 0, 0, 0xBB, 0xAA, 0, 0, 0, 0, 0, 0]);
    let r = BBFPageEntry::from_bytes(&b);
    assert_eq!(r.asset_index, 3);
    assert_eq!(r.flags, 0xAABB);
}

#[test]
fn section_and_metadata_layout() {
    let s = BBFSection {
        section_title_offset: 10,
        section_start_index: 2,
        section_parent_offset: NO_PARENT,
        reserved: [0u8; 8],
    };
    let b = s.to_bytes();
    assert_eq!(b.len(), 32);
    assert_eq!(&b[16..24], &[0xFF; 8]);
    let r = BBFSection::from_bytes(&b);
    assert_eq!(r.section_title_offset, 10);
    assert_eq!(r.section_start_index, 2);
    assert_eq!(r.section_parent_offset, NO_PARENT);
    let m = BBFMetadata { key_offset: 1, value_offset: 2, parent_offset: 3, reserved: [0u8; 8] };
    let mb = m.to_bytes();
    assert_eq!(mb.len(), 32);
    let mr = BBFMetadata::from_bytes(&mb);
    assert_eq!((mr.key_offset, mr.value_offset, mr.parent_offset), (1, 2, 3));
}

#[test]
fn footer_layout_and_round_trip() {
    let f = BBFFooter {
        asset_offset: 1,
        page_offset: 2,
        section_offset: 3,
        meta_offset: 4,
        expansion_offset: 5,
        string_pool_offset: 6,
        string_pool_size: 7,
        asset_count: 8,
        page_count: 9,
        section_count: 10,
        meta_count: 11,
        expansion_count: 12,
        flags: 13,
        footer_len: 256,
        padding: [0u8; 2],
        footer_hash: 0xDEAD_BEEF,
        reserved: [0u8; 144],
    };
    let b = f.to_bytes();
    assert_eq!(b.len(), FOOTER_SIZE);
    for k in 0..12u64 {
        let at = (k * 8) as usize;
        assert_eq!(&b[at..at + 8], &(k + 1).to_le_bytes());
    }
    assert_eq!(&b[96..100], &13u32.to_le_bytes());
    assert_eq!(&b[100..102], &256u16.to_le_bytes());
    assert_eq!(&b[104..112], &0xDEAD_BEEFu64.to_le_bytes());
    let r = BBFFooter::from_bytes(&b);
    assert_eq!(r.page_count, 9);
    assert_eq!(r.footer_hash, 0xDEAD_BEEF);
    assert_eq!(r.to_bytes(), b);
}

#[test]
fn parse_u32_reads_decimal_numbers() {
    assert_eq!(parse_u32("0"), Some(0));
    assert_eq!(parse_u32("+17"), Some(17));
    assert_eq!(parse_u32("007"), Some(7));
    assert_eq!(parse_u32("4294967295"), Some(u32::MAX));
    assert_eq!(parse_u32("4294967296"), None);
    assert_eq!(parse_u32("99999999999999999999"), None);
    assert_eq!(parse_u32(""), None);
    assert_eq!(parse_u32("+"), None);
    assert_eq!(parse_u32("-1"), None);
    assert_eq!(parse_u32("1a"), None);
    assert_eq!(parse_u32(" 1"), None);
    assert_eq!(parse_u32("١"), None);
    for s in ["0", "12", "+5", "4294967295", "4294967296", "x", ""] {
        assert_eq!(parse_u32(s), s.parse::<u32>().ok());
    }
}
