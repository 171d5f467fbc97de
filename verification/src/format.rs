//! On-disk layout of a BBF file: media types and the fixed-size records.

use vstd::prelude::*;
use vstd::string::*;
use vstd::bytes::*;
use crate::codec::{lemma_le_roundtrips, push_bytes, push_u16, push_u32, push_u64, read_array, read_u16, read_u32, read_u64, u16_at, u32_at, u64_at};
use crate::text::{lowercase_of, str_eq, to_lowercase};

verus! {

broadcast use vstd::array::group_array_axioms;

/// Size in bytes of the file header.
pub const HEADER_SIZE: usize = 64;
/// Size in bytes of one entry of the asset table.
pub const ASSET_ENTRY_SIZE: usize = 48;
/// Size in bytes of one entry of the page table.
pub const PAGE_ENTRY_SIZE: usize = 16;
/// Size in bytes of one entry of the section table.
pub const SECTION_SIZE: usize = 32;
/// Size in bytes of one entry of the metadata table.
pub const METADATA_SIZE: usize = 32;
/// Size in bytes of one expansion entry.
pub const EXPANSION_ENTRY_SIZE: usize = 128;
/// Size in bytes of the footer.
pub const FOOTER_SIZE: usize = 256;
/// The parent offset that stands for "no parent".
pub const NO_PARENT: u64 = 0xFFFF_FFFF_FFFF_FFFF;

/// The kind of image an asset holds.
#[derive(Debug, Clone, Copy, PartialEq, Eq, Structural)]
pub enum BBFMediaType {
    Unknown,
    Avif,
    Png,
    Webp,
    Jxl,
    Bmp,
    Gif,
    Tiff,
    Jpg,
}

impl BBFMediaType {
    /// The byte that stands for a media type in an asset entry.
    pub open spec fn spec_code(self) -> u8 {
        match self {
            BBFMediaType::Unknown => 0x00,
            BBFMediaType::Avif => 0x01,
            BBFMediaType::Png => 0x02,
            BBFMediaType::Webp => 0x03,
            BBFMediaType::Jxl => 0x04,
            BBFMediaType::Bmp => 0x05,
            BBFMediaType::Gif => 0x07,
            BBFMediaType::Tiff => 0x08,
            BBFMediaType::Jpg => 0x09,
        }
    }

    /// The media type a stored byte stands for; unassigned bytes are `Unknown`.
    pub open spec fn spec_from_code(v: u8) -> BBFMediaType {
        if v == 0x01 {
            BBFMediaType::Avif
        } else if v == 0x02 {
            BBFMediaType::Png
        } else if v == 0x03 {
            BBFMediaType::Webp
        } else if v == 0x04 {
            BBFMediaType::Jxl
        } else if v == 0x05 {
            BBFMediaType::Bmp
        } else if v == 0x07 {
            BBFMediaType::Gif
        } else if v == 0x08 {
            BBFMediaType::Tiff
        } else if v == 0x09 {
            BBFMediaType::Jpg
        } else {
            BBFMediaType::Unknown
        }
    }

    /// The byte stored for this media type.
    pub fn code(&self) -> (r: u8)
        ensures
            r == self.spec_code(),
    {
        match self {
            BBFMediaType::Unknown => 0x00,
            BBFMediaType::Avif => 0x01,
            BBFMediaType::Png => 0x02,
            BBFMediaType::Webp => 0x03,
            BBFMediaType::Jxl => 0x04,
            BBFMediaType::Bmp => 0x05,
            BBFMediaType::Gif => 0x07,
            BBFMediaType::Tiff => 0x08,
            BBFMediaType::Jpg => 0x09,
        }
    }

    /// The file extension, dot included, that a media type is saved under.
    pub open spec fn spec_extension(self) -> Seq<char> {
        match self {
            BBFMediaType::Png => ".png"@,
            BBFMediaType::Jpg => ".jpg"@,
            BBFMediaType::Avif => ".avif"@,
            BBFMediaType::Webp => ".webp"@,
            BBFMediaType::Jxl => ".jxl"@,
            BBFMediaType::Bmp => ".bmp"@,
            BBFMediaType::Gif => ".gif"@,
            BBFMediaType::Tiff => ".tiff"@,
            BBFMediaType::Unknown => ".bin"@,
        }
    }

    /// The media type named by an extension that is already in lower case.
    pub open spec fn spec_from_lowercase_extension(ext: Seq<char>) -> BBFMediaType {
        if ext == ".png"@ {
            BBFMediaType::Png
        } else if ext == ".jpg"@ || ext == ".jpeg"@ {
            BBFMediaType::Jpg
        } else if ext == ".avif"@ {
            BBFMediaType::Avif
        } else if ext == ".webp"@ {
            BBFMediaType::Webp
        } else if ext == ".jxl"@ {
            BBFMediaType::Jxl
        } else if ext == ".bmp"@ {
            BBFMediaType::Bmp
        } else if ext == ".gif"@ {
            BBFMediaType::Gif
        } else if ext == ".tiff"@ {
            BBFMediaType::Tiff
        } else {
            BBFMediaType::Unknown
        }
    }

    /// Picks the media type of a file from its extension (with its dot),
    /// ignoring case: the extension is lowered with `str::to_lowercase`.
    pub fn from_extension(ext: &str) -> (r: Self)
        ensures
            r == Self::spec_from_lowercase_extension(lowercase_of(ext@)),
    {
        let lower = to_lowercase(ext);
        Self::from_lowercase_extension(lower.as_str())
    }

    /// Picks the media type named by an extension already in lower case.
    pub fn from_lowercase_extension(ext: &str) -> (r: Self)
        ensures
            r == Self::spec_from_lowercase_extension(ext@),
    {
        if str_eq(ext, ".png") {
            BBFMediaType::Png
        } else if str_eq(ext, ".jpg") || str_eq(ext, ".jpeg") {
            BBFMediaType::Jpg
        } else if str_eq(ext, ".avif") {
            BBFMediaType::Avif
        } else if str_eq(ext, ".webp") {
            BBFMediaType::Webp
        } else if str_eq(ext, ".jxl") {
            BBFMediaType::Jxl
        } else if str_eq(ext, ".bmp") {
            BBFMediaType::Bmp
        } else if str_eq(ext, ".gif") {
            BBFMediaType::Gif
        } else if str_eq(ext, ".tiff") {
            BBFMediaType::Tiff
        } else {
            BBFMediaType::Unknown
        }
    }

    /// The extension, dot included, under which this media type is saved.
    pub fn as_extension(&self) -> (r: &'static str)
        ensures
            r@ == self.spec_extension(),
    {
        match self {
            BBFMediaType::Png => ".png",
            BBFMediaType::Jpg => ".jpg",
            BBFMediaType::Avif => ".avif",
            BBFMediaType::Webp => ".webp",
            BBFMediaType::Jxl => ".jxl",
            BBFMediaType::Bmp => ".bmp",
            BBFMediaType::Gif => ".gif",
            BBFMediaType::Tiff => ".tiff",
            BBFMediaType::Unknown => ".bin",
        }
    }
}

/// Reading back the byte stored for a media type gives the media type.
pub proof fn lemma_media_code_roundtrip(m: BBFMediaType)
    ensures
        BBFMediaType::spec_from_code(m.spec_code()) == m,
{
}

/// A byte is the stored form of the media type it is read as exactly when
/// it is one of the assigned codes 0 to 5, 7, 8 and 9.
pub proof fn lemma_media_code_assigned(v: u8)
    ensures
        BBFMediaType::spec_from_code(v).spec_code() == v <==> (v <= 5 || v == 7 || v == 8 || v
            == 9),
{
}

/// Picking a media type by the extension it is saved under gives it back
/// (`Unknown` is saved as `.bin`, which names no media type).
pub proof fn lemma_media_extension_roundtrip(m: BBFMediaType)
    ensures
        BBFMediaType::spec_from_lowercase_extension(m.spec_extension()) == m,
{
    reveal_strlit(".png");
    assert(".png"@.len() == 4 && ".png"@[1] == 'p' && ".png"@[2] == 'n');
    reveal_strlit(".jpg");
    assert(".jpg"@.len() == 4 && ".jpg"@[1] == 'j' && ".jpg"@[2] == 'p');
    reveal_strlit(".jpeg");
    assert(".jpeg"@.len() == 5 && ".jpeg"@[1] == 'j' && ".jpeg"@[2] == 'p');
    reveal_strlit(".avif");
    assert(".avif"@.len() == 5 && ".avif"@[1] == 'a' && ".avif"@[2] == 'v');
    reveal_strlit(".webp");
    assert(".webp"@.len() == 5 && ".webp"@[1] == 'w' && ".webp"@[2] == 'e');
    reveal_strlit(".jxl");
    assert(".jxl"@.len() == 4 && ".jxl"@[1] == 'j' && ".jxl"@[2] == 'x');
    reveal_strlit(".bmp");
    assert(".bmp"@.len() == 4 && ".bmp"@[1] == 'b' && ".bmp"@[2] == 'm');
    reveal_strlit(".gif");
    assert(".gif"@.len() == 4 && ".gif"@[1] == 'g' && ".gif"@[2] == 'i');
    reveal_strlit(".tiff");
    assert(".tiff"@.len() == 5 && ".tiff"@[1] == 't' && ".tiff"@[2] == 'i');
    reveal_strlit(".bin");
    assert(".bin"@.len() == 4 && ".bin"@[1] == 'b' && ".bin"@[2] == 'i');
}

impl From<u8> for BBFMediaType {
    fn from(v: u8) -> (r: Self) {
        if v == 0x01 {
            BBFMediaType::Avif
        } else if v == 0x02 {
            BBFMediaType::Png
        } else if v == 0x03 {
            BBFMediaType::Webp
        } else if v == 0x04 {
            BBFMediaType::Jxl
        } else if v == 0x05 {
            BBFMediaType::Bmp
        } else if v == 0x07 {
            BBFMediaType::Gif
        } else if v == 0x08 {
            BBFMediaType::Tiff
        } else if v == 0x09 {
            BBFMediaType::Jpg
        } else {
            BBFMediaType::Unknown
        }
    }
}

impl vstd::std_specs::convert::FromSpecImpl<u8> for BBFMediaType {
    open spec fn obeys_from_spec() -> bool {
        true
    }

    open spec fn from_spec(v: u8) -> Self {
        BBFMediaType::spec_from_code(v)
    }
}

impl Default for BBFMediaType {
    fn default() -> (r: Self)
        ensures
            r == BBFMediaType::Unknown,
    {
        BBFMediaType::Unknown
    }
}

/// The file header: magic `BBF3`, format version and where the footer is.
#[derive(Debug, Clone, Copy)]
pub struct BBFHeader {
    pub magic: [u8; 4],
    pub version: u16,
    pub header_len: u16,
    pub flags: u32,
    pub alignment: u8,
    pub ream_size: u8,
    pub reserved_extra: u16,
    pub footer_offset: u64,
    pub reserved: [u8; 40],
}

impl BBFHeader {
    /// The header's bytes in the file: each field in order, integers little-endian.
    pub open spec fn encoded(self) -> Seq<u8> {
        self.magic@ + spec_u16_to_le_bytes(self.version) + spec_u16_to_le_bytes(self.header_len)
            + spec_u32_to_le_bytes(self.flags) + seq![self.alignment, self.ream_size]
            + spec_u16_to_le_bytes(self.reserved_extra) + spec_u64_to_le_bytes(self.footer_offset)
            + self.reserved@
    }

    /// Where each field lies in the header's bytes.
    pub proof fn lemma_layout(self)
        ensures
            self.encoded().len() == HEADER_SIZE,
            self.encoded().subrange(0, 4) == self.magic@,
            u16_at(self.encoded(), 4) == self.version,
            u16_at(self.encoded(), 6) == self.header_len,
            u32_at(self.encoded(), 8) == self.flags,
            self.encoded()[12] == self.alignment,
            self.encoded()[13] == self.ream_size,
            u16_at(self.encoded(), 14) == self.reserved_extra,
            u64_at(self.encoded(), 16) == self.footer_offset,
            self.encoded().subrange(24, 64) == self.reserved@,
    {
        lemma_le_roundtrips();
        let e = self.encoded();
        assert(e.subrange(0, 4) =~= self.magic@);
        assert(e.subrange(4, 6) =~= spec_u16_to_le_bytes(self.version));
        assert(e.subrange(6, 8) =~= spec_u16_to_le_bytes(self.header_len));
        assert(e.subrange(8, 12) =~= spec_u32_to_le_bytes(self.flags));
        assert(e.subrange(14, 16) =~= spec_u16_to_le_bytes(self.reserved_extra));
        assert(e.subrange(16, 24) =~= spec_u64_to_le_bytes(self.footer_offset));
        assert(e.subrange(24, 64) =~= self.reserved@);
    }

    /// Two headers with the same bytes are the same header.
    pub proof fn lemma_encoding_injective(self, other: Self)
        requires
            self.encoded() == other.encoded(),
        ensures
            self == other,
    {
        self.lemma_layout();
        other.lemma_layout();
        assert(self.magic =~= other.magic);
        assert(self.reserved =~= other.reserved);
    }

    /// Writes the header's bytes.
    pub fn to_bytes(&self) -> (r: Vec<u8>)
        ensures
            r@ == self.encoded(),
    {
        let mut v: Vec<u8> = Vec::new();
        push_bytes(&mut v, self.magic.as_slice());
        push_u16(&mut v, self.version);
        push_u16(&mut v, self.header_len);
        push_u32(&mut v, self.flags);
        v.push(self.alignment);
        v.push(self.ream_size);
        push_u16(&mut v, self.reserved_extra);
        push_u64(&mut v, self.footer_offset);
        push_bytes(&mut v, self.reserved.as_slice());
        assert(v@ =~= self.encoded());
        v
    }

    /// Reads a header from exactly its size in bytes.
    pub fn from_bytes(b: &[u8]) -> (r: Self)
        requires
            b@.len() == HEADER_SIZE,
        ensures
            r.encoded() == b@,
    {
        let r = BBFHeader {
            magic: read_array::<4>(b, 0),
            version: read_u16(b, 4),
            header_len: read_u16(b, 6),
            flags: read_u32(b, 8),
            alignment: b[12],
            ream_size: b[13],
            reserved_extra: read_u16(b, 14),
            footer_offset: read_u64(b, 16),
            reserved: read_array::<40>(b, 24),
        };
        proof {
            lemma_le_roundtrips();
            assert(b@.subrange(4, 6).len() == 2);
            assert(b@.subrange(6, 8).len() == 2);
            assert(b@.subrange(8, 12).len() == 4);
            assert(b@.subrange(14, 16).len() == 2);
            assert(b@.subrange(16, 24).len() == 8);
            assert(r.encoded() =~= b@.subrange(0, 4) + b@.subrange(4, 6) + b@.subrange(6, 8)
                + b@.subrange(8, 12) + seq![b@[12], b@[13]] + b@.subrange(14, 16)
                + b@.subrange(16, 24) + b@.subrange(24, 64));
            assert(r.encoded() =~= b@);
        }
        r
    }
}


/// One asset: where its bytes lie in the file, their XXH3-128 hash (low
/// half first) and media type.
#[derive(Debug, Clone, Copy)]
pub struct BBFAssetEntry {
    pub file_offset: u64,
    pub asset_hash: [u64; 2],
    pub file_size: u64,
    pub flags: u32,
    pub reserved_value: u16,
    pub type_: u8,
    pub reserved: [u8; 9],
}

impl BBFAssetEntry {
    /// The entry's bytes in the asset table.
    pub open spec fn encoded(self) -> Seq<u8> {
        spec_u64_to_le_bytes(self.file_offset) + spec_u64_to_le_bytes(self.asset_hash[0])
            + spec_u64_to_le_bytes(self.asset_hash[1]) + spec_u64_to_le_bytes(self.file_size)
            + spec_u32_to_le_bytes(self.flags) + spec_u16_to_le_bytes(self.reserved_value)
            + seq![self.type_] + self.reserved@
    }

    /// Where each field lies in the entry's bytes.
    pub proof fn lemma_layout(self)
        ensures
            self.encoded().len() == ASSET_ENTRY_SIZE,
            u64_at(self.encoded(), 0) == self.file_offset,
            u64_at(self.encoded(), 8) == self.asset_hash[0],
            u64_at(self.encoded(), 16) == self.asset_hash[1],
            u64_at(self.encoded(), 24) == self.file_size,
            u32_at(self.encoded(), 32) == self.flags,
            u16_at(self.encoded(), 36) == self.reserved_value,
            self.encoded()[38] == self.type_,
            self.encoded().subrange(39, 48) == self.reserved@,
    {
        lemma_le_roundtrips();
        let e = self.encoded();
        assert(e.subrange(0, 8) =~= spec_u64_to_le_bytes(self.file_offset));
        assert(e.subrange(8, 16) =~= spec_u64_to_le_bytes(self.asset_hash[0]));
        assert(e.subrange(16, 24) =~= spec_u64_to_le_bytes(self.asset_hash[1]));
        assert(e.subrange(24, 32) =~= spec_u64_to_le_bytes(self.file_size));
        assert(e.subrange(32, 36) =~= spec_u32_to_le_bytes(self.flags));
        assert(e.subrange(36, 38) =~= spec_u16_to_le_bytes(self.reserved_value));
        assert(e.subrange(39, 48) =~= self.reserved@);
    }

    /// Two entries with the same bytes are the same entry.
    pub proof fn lemma_encoding_injective(self, other: Self)
        requires
            self.encoded() == other.encoded(),
        ensures
            self == other,
    {
        self.lemma_layout();
        other.lemma_layout();
        assert(self.asset_hash =~= other.asset_hash);
        assert(self.reserved =~= other.reserved);
    }

    /// Writes the entry's bytes.
    pub fn to_bytes(&self) -> (r: Vec<u8>)
        ensures
            r@ == self.encoded(),
    {
        let mut v: Vec<u8> = Vec::new();
        push_u64(&mut v, self.file_offset);
        push_u64(&mut v, self.asset_hash[0]);
        push_u64(&mut v, self.asset_hash[1]);
        push_u64(&mut v, self.file_size);
        push_u32(&mut v, self.flags);
        push_u16(&mut v, self.reserved_value);
        v.push(self.type_);
        push_bytes(&mut v, self.reserved.as_slice());
        assert(v@ =~= self.encoded());
        v
    }

    /// Reads an entry from exactly its size in bytes.
    pub fn from_bytes(b: &[u8]) -> (r: Self)
        requires
            b@.len() == ASSET_ENTRY_SIZE,
        ensures
            r.encoded() == b@,
    {
        let r = BBFAssetEntry {
            file_offset: read_u64(b, 0),
            asset_hash: [read_u64(b, 8), read_u64(b, 16)],
            file_size: read_u64(b, 24),
            flags: read_u32(b, 32),
            reserved_value: read_u16(b, 36),
            type_: b[38],
            reserved: read_array::<9>(b, 39),
        };
        proof {
            lemma_le_roundtrips();
            assert(b@.subrange(0, 8).len() == 8);
            assert(b@.subrange(8, 16).len() == 8);
            assert(b@.subrange(16, 24).len() == 8);
            assert(b@.subrange(24, 32).len() == 8);
            assert(b@.subrange(32, 36).len() == 4);
            assert(b@.subrange(36, 38).len() == 2);
            assert(r.encoded() =~= b@.subrange(0, 8) + b@.subrange(8, 16) + b@.subrange(16, 24)
                + b@.subrange(24, 32) + b@.subrange(32, 36) + b@.subrange(36, 38) + seq![b@[38]]
                + b@.subrange(39, 48));
            assert(r.encoded() =~= b@);
        }
        r
    }
}

/// One page: which asset holds its image, and the page's flags.
#[derive(Debug, Clone, Copy)]
pub struct BBFPageEntry {
    pub asset_index: u64,
    pub flags: u32,
    pub reserved: [u8; 4],
}

impl BBFPageEntry {
    /// The entry's bytes in the page table.
    pub open spec fn encoded(self) -> Seq<u8> {
        spec_u64_to_le_bytes(self.asset_index) + spec_u32_to_le_bytes(self.flags) + self.reserved@
    }

    /// Where each field lies in the entry's bytes.
    pub proof fn lemma_layout(self)
        ensures
            self.encoded().len() == PAGE_ENTRY_SIZE,
            u64_at(self.encoded(), 0) == self.asset_index,
            u32_at(self.encoded(), 8) == self.flags,
            self.encoded().subrange(12, 16) == self.reserved@,
    {
        lemma_le_roundtrips();
        let e = self.encoded();
        assert(e.subrange(0, 8) =~= spec_u64_to_le_bytes(self.asset_index));
        assert(e.subrange(8, 12) =~= spec_u32_to_le_bytes(self.flags));
        assert(e.subrange(12, 16) =~= self.reserved@);
    }

    /// Two entries with the same bytes are the same entry.
    pub proof fn lemma_encoding_injective(self, other: Self)
        requires
            self.encoded() == other.encoded(),
        ensures
            self == other,
    {
        self.lemma_layout();
        other.lemma_layout();
        assert(self.reserved =~= other.reserved);
    }

    /// Writes the entry's bytes.
    pub fn to_bytes(&self) -> (r: Vec<u8>)
        ensures
            r@ == self.encoded(),
    {
        let mut v: Vec<u8> = Vec::new();
        push_u64(&mut v, self.asset_index);
        push_u32(&mut v, self.flags);
        push_bytes(&mut v, self.reserved.as_slice());
        assert(v@ =~= self.encoded());
        v
    }

    /// Reads an entry from exactly its size in bytes.
    pub fn from_bytes(b: &[u8]) -> (r: Self)
        requires
            b@.len() == PAGE_ENTRY_SIZE,
        ensures
            r.encoded() == b@,
    {
        let r = BBFPageEntry {
            asset_index: read_u64(b, 0),
            flags: read_u32(b, 8),
            reserved: read_array::<4>(b, 12),
        };
        proof {
            lemma_le_roundtrips();
            assert(b@.subrange(0, 8).len() == 8);
            assert(b@.subrange(8, 12).len() == 4);
            assert(r.encoded() =~= b@.subrange(0, 8) + b@.subrange(8, 12) + b@.subrange(12, 16));
            assert(r.encoded() =~= b@);
        }
        r
    }
}

/// One section (chapter): where its title lies in the string pool, the
/// page it starts at, and its parent.
#[derive(Debug, Clone, Copy)]
pub struct BBFSection {
    pub section_title_offset: u64,
    pub section_start_index: u64,
    pub section_parent_offset: u64,
    pub reserved: [u8; 8],
}

impl BBFSection {
    /// The entry's bytes in the section table.
    pub open spec fn encoded(self) -> Seq<u8> {
        spec_u64_to_le_bytes(self.section_title_offset) + spec_u64_to_le_bytes(self.section_start_index)
            + spec_u64_to_le_bytes(self.section_parent_offset) + self.reserved@
    }

    /// Where each field lies in the entry's bytes.
    pub proof fn lemma_layout(self)
        ensures
            self.encoded().len() == SECTION_SIZE,
            u64_at(self.encoded(), 0) == self.section_title_offset,
            u64_at(self.encoded(), 8) == self.section_start_index,
            u64_at(self.encoded(), 16) == self.section_parent_offset,
            self.encoded().subrange(24, 32) == self.reserved@,
    {
        lemma_le_roundtrips();
        let e = self.encoded();
        assert(e.subrange(0, 8) =~= spec_u64_to_le_bytes(self.section_title_offset));
        assert(e.subrange(8, 16) =~= spec_u64_to_le_bytes(self.section_start_index));
        assert(e.subrange(16, 24) =~= spec_u64_to_le_bytes(self.section_parent_offset));
        assert(e.subrange(24, 32) =~= self.reserved@);
    }

    /// Two entries with the same bytes are the same entry.
    pub proof fn lemma_encoding_injective(self, other: Self)
        requires
            self.encoded() == other.encoded(),
        ensures
            self == other,
    {
        self.lemma_layout();
        other.lemma_layout();
        assert(self.reserved =~= other.reserved);
    }

    /// Writes the entry's bytes.
    pub fn to_bytes(&self) -> (r: Vec<u8>)
        ensures
            r@ == self.encoded(),
    {
        let mut v: Vec<u8> = Vec::new();
        push_u64(&mut v, self.section_title_offset);
        push_u64(&mut v, self.section_start_index);
        push_u64(&mut v, self.section_parent_offset);
        push_bytes(&mut v, self.reserved.as_slice());
        assert(v@ =~= self.encoded());
        v
    }

    /// Reads an entry from exactly its size in bytes.
    pub fn from_bytes(b: &[u8]) -> (r: Self)
        requires
            b@.len() == SECTION_SIZE,
        ensures
            r.encoded() == b@,
    {
        let r = BBFSection {
            section_title_offset: read_u64(b, 0),
            section_start_index: read_u64(b, 8),
            section_parent_offset: read_u64(b, 16),
            reserved: read_array::<8>(b, 24),
        };
        proof {
            lemma_le_roundtrips();
            assert(b@.subrange(0, 8).len() == 8);
            assert(b@.subrange(8, 16).len() == 8);
            assert(b@.subrange(16, 24).len() == 8);
            assert(r.encoded() =~= b@.subrange(0, 8) + b@.subrange(8, 16) + b@.subrange(16, 24)
                + b@.subrange(24, 32));
            assert(r.encoded() =~= b@);
        }
        r
    }
}

/// One metadata pair: where its key and value lie in the string pool.
#[derive(Debug, Clone, Copy)]
pub struct BBFMetadata {
    pub key_offset: u64,
    pub value_offset: u64,
    pub parent_offset: u64,
    pub reserved: [u8; 8],
}

impl BBFMetadata {
    /// The entry's bytes in the metadata table.
    pub open spec fn encoded(self) -> Seq<u8> {
        spec_u64_to_le_bytes(self.key_offset) + spec_u64_to_le_bytes(self.value_offset)
            + spec_u64_to_le_bytes(self.parent_offset) + self.reserved@
    }

    /// Where each field lies in the entry's bytes.
    pub proof fn lemma_layout(self)
        ensures
            self.encoded().len() == METADATA_SIZE,
            u64_at(self.encoded(), 0) == self.key_offset,
            u64_at(self.encoded(), 8) == self.value_offset,
            u64_at(self.encoded(), 16) == self.parent_offset,
            self.encoded().subrange(24, 32) == self.reserved@,
    {
        lemma_le_roundtrips();
        let e = self.encoded();
        assert(e.subrange(0, 8) =~= spec_u64_to_le_bytes(self.key_offset));
        assert(e.subrange(8, 16) =~= spec_u64_to_le_bytes(self.value_offset));
        assert(e.subrange(16, 24) =~= spec_u64_to_le_bytes(self.parent_offset));
        assert(e.subrange(24, 32) =~= self.reserved@);
    }

    /// Two entries with the same bytes are the same entry.
    pub proof fn lemma_encoding_injective(self, other: Self)
        requires
            self.encoded() == other.encoded(),
        ensures
            self == other,
    {
        self.lemma_layout();
        other.lemma_layout();
        assert(self.reserved =~= other.reserved);
    }

    /// Writes the entry's bytes.
    pub fn to_bytes(&self) -> (r: Vec<u8>)
        ensures
            r@ == self.encoded(),
    {
        let mut v: Vec<u8> = Vec::new();
        push_u64(&mut v, self.key_offset);
        push_u64(&mut v, self.value_offset);
        push_u64(&mut v, self.parent_offset);
        push_bytes(&mut v, self.reserved.as_slice());
        assert(v@ =~= self.encoded());
        v
    }

    /// Reads an entry from exactly its size in bytes.
    pub fn from_bytes(b: &[u8]) -> (r: Self)
        requires
            b@.len() == METADATA_SIZE,
        ensures
            r.encoded() == b@,
    {
        let r = BBFMetadata {
            key_offset: read_u64(b, 0),
            value_offset: read_u64(b, 8),
            parent_offset: read_u64(b, 16),
            reserved: read_array::<8>(b, 24),
        };
        proof {
            lemma_le_roundtrips();
            assert(b@.subrange(0, 8).len() == 8);
            assert(b@.subrange(8, 16).len() == 8);
            assert(b@.subrange(16, 24).len() == 8);
            assert(r.encoded() =~= b@.subrange(0, 8) + b@.subrange(8, 16) + b@.subrange(16, 24)
                + b@.subrange(24, 32));
            assert(r.encoded() =~= b@);
        }
        r
    }
}

/// An entry reserved for extensions of the format; no file written here holds one.
#[derive(Debug, Clone, Copy)]
pub struct BBFExpansionEntry {
    pub exp_reserved: [u64; 10],
    pub flags: u32,
    pub reserved: [u8; 44],
}


/// The footer: where each table and the string pool lie, how many entries
/// each table holds, and the XXH3-64 hash of the tables.
#[derive(Debug, Clone, Copy)]
pub struct BBFFooter {
    pub asset_offset: u64,
    pub page_offset: u64,
    pub section_offset: u64,
    pub meta_offset: u64,
    pub expansion_offset: u64,
    pub string_pool_offset: u64,
    pub string_pool_size: u64,
    pub asset_count: u64,
    pub page_count: u64,
    pub section_count: u64,
    pub meta_count: u64,
    pub expansion_count: u64,
    pub flags: u32,
    pub footer_len: u16,
    pub padding: [u8; 2],
    pub footer_hash: u64,
    pub reserved: [u8; 144],
}

impl BBFFooter {
    /// The footer's bytes in the file.
    pub open spec fn encoded(self) -> Seq<u8> {
        spec_u64_to_le_bytes(self.asset_offset) + spec_u64_to_le_bytes(self.page_offset) + spec_u64_to_le_bytes(self.section_offset) + spec_u64_to_le_bytes(self.meta_offset) + spec_u64_to_le_bytes(self.expansion_offset) + spec_u64_to_le_bytes(self.string_pool_offset) + spec_u64_to_le_bytes(self.string_pool_size) + spec_u64_to_le_bytes(self.asset_count) + spec_u64_to_le_bytes(self.page_count) + spec_u64_to_le_bytes(self.section_count) + spec_u64_to_le_bytes(self.meta_count) + spec_u64_to_le_bytes(self.expansion_count)
            + spec_u32_to_le_bytes(self.flags) + spec_u16_to_le_bytes(self.footer_len)
            + self.padding@ + spec_u64_to_le_bytes(self.footer_hash) + self.reserved@
    }

    /// Where each field lies in the footer's bytes.
    pub proof fn lemma_layout(self)
        ensures
            self.encoded().len() == FOOTER_SIZE,
            u64_at(self.encoded(), 0) == self.asset_offset,
            u64_at(self.encoded(), 8) == self.page_offset,
            u64_at(self.encoded(), 16) == self.section_offset,
            u64_at(self.encoded(), 24) == self.meta_offset,
            u64_at(self.encoded(), 32) == self.expansion_offset,
            u64_at(self.encoded(), 40) == self.string_pool_offset,
            u64_at(self.encoded(), 48) == self.string_pool_size,
            u64_at(self.encoded(), 56) == self.asset_count,
            u64_at(self.encoded(), 64) == self.page_count,
            u64_at(self.encoded(), 72) == self.section_count,
            u64_at(self.encoded(), 80) == self.meta_count,
            u64_at(self.encoded(), 88) == self.expansion_count,
            u32_at(self.encoded(), 96) == self.flags,
            u16_at(self.encoded(), 100) == self.footer_len,
            self.encoded().subrange(102, 104) == self.padding@,
            u64_at(self.encoded(), 104) == self.footer_hash,
            self.encoded().subrange(112, 256) == self.reserved@,
    {
        lemma_le_roundtrips();
        let e = self.encoded();
        assert(e.subrange(0, 8) =~= spec_u64_to_le_bytes(self.asset_offset));
        assert(e.subrange(8, 16) =~= spec_u64_to_le_bytes(self.page_offset));
        assert(e.subrange(16, 24) =~= spec_u64_to_le_bytes(self.section_offset));
        assert(e.subrange(24, 32) =~= spec_u64_to_le_bytes(self.meta_offset));
        assert(e.subrange(32, 40) =~= spec_u64_to_le_bytes(self.expansion_offset));
        assert(e.subrange(40, 48) =~= spec_u64_to_le_bytes(self.string_pool_offset));
        assert(e.subrange(48, 56) =~= spec_u64_to_le_bytes(self.string_pool_size));
        assert(e.subrange(56, 64) =~= spec_u64_to_le_bytes(self.asset_count));
        assert(e.subrange(64, 72) =~= spec_u64_to_le_bytes(self.page_count));
        assert(e.subrange(72, 80) =~= spec_u64_to_le_bytes(self.section_count));
        assert(e.subrange(80, 88) =~= spec_u64_to_le_bytes(self.meta_count));
        assert(e.subrange(88, 96) =~= spec_u64_to_le_bytes(self.expansion_count));
        assert(e.subrange(96, 100) =~= spec_u32_to_le_bytes(self.flags));
        assert(e.subrange(100, 102) =~= spec_u16_to_le_bytes(self.footer_len));
        assert(e.subrange(102, 104) =~= self.padding@);
        assert(e.subrange(104, 112) =~= spec_u64_to_le_bytes(self.footer_hash));
        assert(e.subrange(112, 256) =~= self.reserved@);
    }

    /// Two footers with the same bytes are the same footer.
    pub proof fn lemma_encoding_injective(self, other: Self)
        requires
            self.encoded() == other.encoded(),
        ensures
            self == other,
    {
        self.lemma_layout();
        other.lemma_layout();
        assert(self.padding =~= other.padding);
        assert(self.reserved =~= other.reserved);
    }

    /// Writes the footer's bytes.
    pub fn to_bytes(&self) -> (r: Vec<u8>)
        ensures
            r@ == self.encoded(),
    {
        let mut v: Vec<u8> = Vec::new();
        push_u64(&mut v, self.asset_offset);
        push_u64(&mut v, self.page_offset);
        push_u64(&mut v, self.section_offset);
        push_u64(&mut v, self.meta_offset);
        push_u64(&mut v, self.expansion_offset);
        push_u64(&mut v, self.string_pool_offset);
        push_u64(&mut v, self.string_pool_size);
        push_u64(&mut v, self.asset_count);
        push_u64(&mut v, self.page_count);
        push_u64(&mut v, self.section_count);
        push_u64(&mut v, self.meta_count);
        push_u64(&mut v, self.expansion_count);
        push_u32(&mut v, self.flags);
        push_u16(&mut v, self.footer_len);
        push_bytes(&mut v, self.padding.as_slice());
        push_u64(&mut v, self.footer_hash);
        push_bytes(&mut v, self.reserved.as_slice());
        assert(v@ =~= self.encoded());
        v
    }

    /// Reads a footer from exactly its size in bytes.
    pub fn from_bytes(b: &[u8]) -> (r: Self)
        requires
            b@.len() == FOOTER_SIZE,
        ensures
            r.encoded() == b@,
    {
        let r = BBFFooter {
            asset_offset: read_u64(b, 0),
            page_offset: read_u64(b, 8),
            section_offset: read_u64(b, 16),
            meta_offset: read_u64(b, 24),
            expansion_offset: read_u64(b, 32),
            string_pool_offset: read_u64(b, 40),
            string_pool_size: read_u64(b, 48),
            asset_count: read_u64(b, 56),
            page_count: read_u64(b, 64),
            section_count: read_u64(b, 72),
            meta_count: read_u64(b, 80),
            expansion_count: read_u64(b, 88),
            flags: read_u32(b, 96),
            footer_len: read_u16(b, 100),
            padding: read_array::<2>(b, 102),
            footer_hash: read_u64(b, 104),
            reserved: read_array::<144>(b, 112),
        };
        proof {
            lemma_le_roundtrips();
            assert(b@.subrange(0, 8).len() == 8);
            assert(b@.subrange(8, 16).len() == 8);
            assert(b@.subrange(16, 24).len() == 8);
            assert(b@.subrange(24, 32).len() == 8);
            assert(b@.subrange(32, 40).len() == 8);
            assert(b@.subrange(40, 48).len() == 8);
            assert(b@.subrange(48, 56).len() == 8);
            assert(b@.subrange(56, 64).len() == 8);
            assert(b@.subrange(64, 72).len() == 8);
            assert(b@.subrange(72, 80).len() == 8);
            assert(b@.subrange(80, 88).len() == 8);
            assert(b@.subrange(88, 96).len() == 8);
            assert(b@.subrange(96, 100).len() == 4);
            assert(b@.subrange(100, 102).len() == 2);
            assert(b@.subrange(104, 112).len() == 8);
            assert(r.encoded() =~= b@.subrange(0, 8) + b@.subrange(8, 16) + b@.subrange(16, 24) + b@.subrange(24, 32) + b@.subrange(32, 40) + b@.subrange(40, 48) + b@.subrange(48, 56) + b@.subrange(56, 64) + b@.subrange(64, 72) + b@.subrange(72, 80) + b@.subrange(80, 88) + b@.subrange(88, 96)
                + b@.subrange(96, 100) + b@.subrange(100, 102) + b@.subrange(102, 104)
                + b@.subrange(104, 112) + b@.subrange(112, 256));
            assert(r.encoded() =~= b@);
        }
        r
    }
}

} // verus!
