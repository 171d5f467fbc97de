//! Parsing a BBF file held in memory.

use vstd::prelude::*;
use vstd::slice::slice_subrange;
use vstd::string::*;
use vstd::utf8::valid_utf8;
use crate::codec::u64_at;
use crate::format::{
    BBFAssetEntry, BBFFooter, BBFHeader, BBFMetadata, BBFPageEntry, BBFSection, HEADER_SIZE,
    FOOTER_SIZE,
};
use crate::text::str_from_utf8;

verus! {

broadcast use vstd::slice::group_slice_axioms;

/// Why a file could not be read.
#[derive(Debug, Clone, Copy, PartialEq, Eq, Structural)]
pub enum BBFError {
    InvalidMagic,
    FileTooShort,
    TableError,
    OutOfBounds,
}

impl BBFError {
    /// The human-readable description of the error.
    pub fn message(&self) -> (r: &'static str)
        ensures
            r@ == match self {
                BBFError::InvalidMagic => "Invalid BBF Magic"@,
                BBFError::FileTooShort => "File too short or corrupted header"@,
                BBFError::TableError => "Table error or invalid offsets"@,
                BBFError::OutOfBounds => "Index out of bounds"@,
            },
    {
        match self {
            BBFError::InvalidMagic => "Invalid BBF Magic",
            BBFError::FileTooShort => "File too short or corrupted header",
            BBFError::TableError => "Table error or invalid offsets",
            BBFError::OutOfBounds => "Index out of bounds",
        }
    }
}

/// The magic bytes `BBF3` that open every file.
pub open spec fn magic_bytes() -> Seq<u8> {
    seq![0x42u8, 0x42u8, 0x46u8, 0x33u8]
}

/// Where the footer starts, as the header says.
pub open spec fn footer_pos(d: Seq<u8>) -> int {
    u64_at(d, 16) as int
}

/// The footer's `u64` at byte `k` of the footer.
pub open spec fn footer_u64(d: Seq<u8>, k: int) -> u64 {
    u64_at(d, footer_pos(d) + k)
}

pub open spec fn asset_offset_of(d: Seq<u8>) -> u64 { footer_u64(d, 0) }
pub open spec fn page_offset_of(d: Seq<u8>) -> u64 { footer_u64(d, 8) }
pub open spec fn section_offset_of(d: Seq<u8>) -> u64 { footer_u64(d, 16) }
pub open spec fn meta_offset_of(d: Seq<u8>) -> u64 { footer_u64(d, 24) }
pub open spec fn pool_offset_of(d: Seq<u8>) -> u64 { footer_u64(d, 40) }
pub open spec fn pool_size_of(d: Seq<u8>) -> u64 { footer_u64(d, 48) }
pub open spec fn asset_count_of(d: Seq<u8>) -> u64 { footer_u64(d, 56) }
pub open spec fn page_count_of(d: Seq<u8>) -> u64 { footer_u64(d, 64) }
pub open spec fn section_count_of(d: Seq<u8>) -> u64 { footer_u64(d, 72) }
pub open spec fn meta_count_of(d: Seq<u8>) -> u64 { footer_u64(d, 80) }

/// Whether a table of `count` entries of `elem` bytes at `offset` fits in
/// `total` bytes: a size or end past `u64::MAX` is a table error, an end past
/// the file means the file is too short.
pub open spec fn range_outcome(offset: u64, count: u64, elem: int, total: int) -> Result<
    (),
    BBFError,
> {
    if count * elem > u64::MAX {
        Err(BBFError::TableError)
    } else if offset + count * elem > u64::MAX {
        Err(BBFError::TableError)
    } else if offset + count * elem > total {
        Err(BBFError::FileTooShort)
    } else {
        Ok(())
    }
}

/// What reading a file gives, checked in this order: its length, the magic,
/// that the footer fits, then the asset, page, section and metadata tables,
/// then the string pool.
pub open spec fn parse_outcome(d: Seq<u8>) -> Result<(), BBFError> {
    let len = d.len() as int;
    if len < HEADER_SIZE + FOOTER_SIZE {
        Err(BBFError::FileTooShort)
    } else if d.subrange(0, 4) != magic_bytes() {
        Err(BBFError::InvalidMagic)
    } else if footer_pos(d) + FOOTER_SIZE > len {
        Err(BBFError::FileTooShort)
    } else if range_outcome(asset_offset_of(d), asset_count_of(d), 48, len) is Err {
        range_outcome(asset_offset_of(d), asset_count_of(d), 48, len)
    } else if range_outcome(page_offset_of(d), page_count_of(d), 16, len) is Err {
        range_outcome(page_offset_of(d), page_count_of(d), 16, len)
    } else if range_outcome(section_offset_of(d), section_count_of(d), 32, len) is Err {
        range_outcome(section_offset_of(d), section_count_of(d), 32, len)
    } else if range_outcome(meta_offset_of(d), meta_count_of(d), 32, len) is Err {
        range_outcome(meta_offset_of(d), meta_count_of(d), 32, len)
    } else if pool_offset_of(d) + pool_size_of(d) > u64::MAX {
        Err(BBFError::TableError)
    } else if pool_offset_of(d) + pool_size_of(d) > len {
        Err(BBFError::FileTooShort)
    } else {
        Ok(())
    }
}

/// The bytes of entry `i` of a table of `size`-byte entries at `offset`.
pub open spec fn entry_bytes(d: Seq<u8>, offset: u64, i: int, size: int) -> Seq<u8> {
    d.subrange(offset + i * size, offset + (i + 1) * size)
}

/// The position of the first zero byte, or the length if there is none.
pub open spec fn nul_pos(s: Seq<u8>) -> nat
    decreases s.len(),
{
    if s.len() == 0 {
        0
    } else if s[0] == 0 {
        0
    } else {
        1 + nul_pos(s.drop_first())
    }
}

/// The position of the first zero byte is the first index that holds a
/// zero byte, or the length.
pub proof fn lemma_nul_pos(s: Seq<u8>, n: int)
    requires
        0 <= n <= s.len(),
        forall|j: int| 0 <= j < n ==> s[j] != 0,
        n == s.len() || s[n] == 0,
    ensures
        nul_pos(s) == n,
    decreases n,
{
    if n > 0 {
        lemma_nul_pos(s.drop_first(), n - 1);
    }
}

/// The bytes of the string at absolute `offset`: up to the first zero byte
/// or the end of the pool; `None` when `offset` is not inside the pool.
pub open spec fn string_bytes_at(d: Seq<u8>, offset: u64) -> Option<Seq<u8>> {
    let start = pool_offset_of(d) as int;
    let end = start + pool_size_of(d);
    if offset < start || offset >= end {
        None
    } else {
        let rest = d.subrange(offset as int, end);
        Some(rest.subrange(0, nul_pos(rest) as int))
    }
}

/// The asset index that page `j`'s entry holds.
pub open spec fn page_asset_index(d: Seq<u8>, j: int) -> u64 {
    u64_at(entry_bytes(d, page_offset_of(d), j, 16), 0)
}

/// The media-type byte that asset `k`'s entry holds.
pub open spec fn asset_type_code(d: Seq<u8>, k: int) -> u8 {
    entry_bytes(d, asset_offset_of(d), k, 48)[38]
}

/// What `get_asset` gives for asset `idx`.
pub open spec fn asset_outcome(d: Seq<u8>, idx: u64) -> Result<Seq<u8>, BBFError> {
    if idx >= asset_count_of(d) {
        Err(BBFError::OutOfBounds)
    } else {
        let e = entry_bytes(d, asset_offset_of(d), idx as int, 48);
        let off = u64_at(e, 0);
        let size = u64_at(e, 24);
        if off + size > u64::MAX {
            Err(BBFError::OutOfBounds)
        } else if off + size > d.len() {
            Err(BBFError::FileTooShort)
        } else {
            Ok(d.subrange(off as int, off + size))
        }
    }
}

/// Reading a `u64` inside a subrange is reading it at the shifted position.
pub proof fn lemma_u64_at_subrange(s: Seq<u8>, a: int, b: int, k: int)
    requires
        0 <= a <= b <= s.len(),
        0 <= k,
        a + k + 8 <= b,
    ensures
        u64_at(s.subrange(a, b), k) == u64_at(s, a + k),
{
    assert(s.subrange(a, b).subrange(k, k + 8) =~= s.subrange(a + k, a + k + 8));
}

/// A parsed file: its header, its footer, and the bytes they describe.
pub struct BBFReader<'a> {
    pub data: &'a [u8],
    pub header: BBFHeader,
    pub footer: BBFFooter,
}

impl<'a> BBFReader<'a> {
    /// The bytes of the file.
    pub closed spec fn bytes(&self) -> Seq<u8> {
        self.data@
    }

    /// The header the reader holds.
    pub closed spec fn spec_header(&self) -> BBFHeader {
        self.header
    }

    /// The footer the reader holds.
    pub closed spec fn spec_footer(&self) -> BBFFooter {
        self.footer
    }

    /// The public fields are the bytes, header and footer the views above name.
    pub proof fn lemma_fields(&self)
        ensures
            self.header == self.spec_header(),
            self.footer == self.spec_footer(),
            self.data@ == self.bytes(),
    {
    }

    /// The file parsed, and the header and footer are the ones it holds.
    pub closed spec fn wf(&self) -> bool {
        let d = self.bytes();
        &&& parse_outcome(d) is Ok
        &&& self.header.encoded() == d.subrange(0, HEADER_SIZE as int)
        &&& self.footer.encoded() == d.subrange(footer_pos(d), footer_pos(d) + FOOTER_SIZE)
    }

    /// The footer's fields are the ones `parse_outcome` checked.
    pub proof fn lemma_wf(&self)
        requires
            self.wf(),
        ensures
            parse_outcome(self.bytes()) is Ok,
            self.spec_header().encoded() == self.bytes().subrange(0, HEADER_SIZE as int),
            self.spec_footer().encoded() == self.bytes().subrange(
                footer_pos(self.bytes()),
                footer_pos(self.bytes()) + FOOTER_SIZE,
            ),
            self.bytes().len() <= usize::MAX,
            self.spec_footer().asset_offset == asset_offset_of(self.bytes()),
            self.spec_footer().page_offset == page_offset_of(self.bytes()),
            self.spec_footer().section_offset == section_offset_of(self.bytes()),
            self.spec_footer().meta_offset == meta_offset_of(self.bytes()),
            self.spec_footer().string_pool_offset == pool_offset_of(self.bytes()),
            self.spec_footer().string_pool_size == pool_size_of(self.bytes()),
            self.spec_footer().asset_count == asset_count_of(self.bytes()),
            self.spec_footer().page_count == page_count_of(self.bytes()),
            self.spec_footer().section_count == section_count_of(self.bytes()),
            self.spec_footer().meta_count == meta_count_of(self.bytes()),
            self.spec_footer().footer_hash == footer_u64(self.bytes(), 104),
            self.spec_header().version == crate::codec::u16_at(self.bytes(), 4),
            self.spec_header().footer_offset == footer_pos(self.bytes()),
    {
        let d = self.bytes();
        let fo = footer_pos(d);
        self.footer.lemma_layout();
        self.header.lemma_layout();
        lemma_u64_at_subrange(d, 0, 64, 16);
        lemma_u64_at_subrange(d, fo, fo + 256, 0);
        lemma_u64_at_subrange(d, fo, fo + 256, 8);
        lemma_u64_at_subrange(d, fo, fo + 256, 16);
        lemma_u64_at_subrange(d, fo, fo + 256, 24);
        lemma_u64_at_subrange(d, fo, fo + 256, 40);
        lemma_u64_at_subrange(d, fo, fo + 256, 48);
        lemma_u64_at_subrange(d, fo, fo + 256, 56);
        lemma_u64_at_subrange(d, fo, fo + 256, 64);
        lemma_u64_at_subrange(d, fo, fo + 256, 72);
        lemma_u64_at_subrange(d, fo, fo + 256, 80);
        lemma_u64_at_subrange(d, fo, fo + 256, 104);
        assert(d.subrange(0, 64).subrange(4, 6) =~= d.subrange(4, 6));
        assert(self.data@.len() == self.data.len());
    }

    /// Parses a file: checks its length and magic, reads the header and the
    /// footer it points to, and checks that every table and the string pool
    /// lie inside the file.
    #[verifier::spinoff_prover]
    pub fn new(data: &'a [u8]) -> (r: Result<Self, BBFError>)
        ensures
            match r {
                Ok(rd) => {
                    &&& rd.bytes() == data@
                    &&& rd.wf()
                    &&& parse_outcome(data@) is Ok
                    &&& rd.header.encoded() == data@.subrange(0, HEADER_SIZE as int)
                    &&& rd.footer.encoded() == data@.subrange(
                        footer_pos(data@),
                        footer_pos(data@) + FOOTER_SIZE,
                    )
                },
                Err(e) => parse_outcome(data@) == Err::<(), BBFError>(e),
            },
    {
        let total_len = data.len() as u64;
        if data.len() < HEADER_SIZE + FOOTER_SIZE {
            return Err(BBFError::FileTooShort);
        }
        let header = BBFHeader::from_bytes(slice_subrange(data, 0, HEADER_SIZE));
        proof {
            header.lemma_layout();
            lemma_u64_at_subrange(data@, 0, 64, 16);
            assert(data@.subrange(0, 64).subrange(0, 4) =~= data@.subrange(0, 4));
        }
        if !(header.magic[0] == 0x42 && header.magic[1] == 0x42 && header.magic[2] == 0x46
            && header.magic[3] == 0x33) {
            proof {
                if data@.subrange(0, 4) == magic_bytes() {
                    assert(header.magic@[0] == data@.subrange(0, 4)[0]);
                    assert(header.magic@[1] == data@.subrange(0, 4)[1]);
                    assert(header.magic@[2] == data@.subrange(0, 4)[2]);
                    assert(header.magic@[3] == data@.subrange(0, 4)[3]);
                }
            }
            return Err(BBFError::InvalidMagic);
        }
        proof {
            assert(data@.subrange(0, 4) =~= magic_bytes());
        }
        let footer_offset = header.footer_offset;
        if footer_offset > total_len - 256 {
            return Err(BBFError::FileTooShort);
        }
        let fo = footer_offset as usize;
        let footer = BBFFooter::from_bytes(slice_subrange(data, fo, fo + FOOTER_SIZE));
        proof {
            footer.lemma_layout();
            let d = data@;
            lemma_u64_at_subrange(d, fo as int, fo + 256, 0);
            lemma_u64_at_subrange(d, fo as int, fo + 256, 8);
            lemma_u64_at_subrange(d, fo as int, fo + 256, 16);
            lemma_u64_at_subrange(d, fo as int, fo + 256, 24);
            lemma_u64_at_subrange(d, fo as int, fo + 256, 40);
            lemma_u64_at_subrange(d, fo as int, fo + 256, 48);
            lemma_u64_at_subrange(d, fo as int, fo + 256, 56);
            lemma_u64_at_subrange(d, fo as int, fo + 256, 64);
            lemma_u64_at_subrange(d, fo as int, fo + 256, 72);
            lemma_u64_at_subrange(d, fo as int, fo + 256, 80);
        }
        let r1 = check_range(footer.asset_offset, footer.asset_count, 48, total_len);
        if let Err(e) = r1 {
            return Err(e);
        }
        let r2 = check_range(footer.page_offset, footer.page_count, 16, total_len);
        if let Err(e) = r2 {
            return Err(e);
        }
        let r3 = check_range(footer.section_offset, footer.section_count, 32, total_len);
        if let Err(e) = r3 {
            return Err(e);
        }
        let r4 = check_range(footer.meta_offset, footer.meta_count, 32, total_len);
        if let Err(e) = r4 {
            return Err(e);
        }
        let pool_start = footer.string_pool_offset;
        let pool_size = footer.string_pool_size;
        match pool_start.checked_add(pool_size) {
            None => {
                return Err(BBFError::TableError);
            },
            Some(end) => {
                if end > total_len {
                    return Err(BBFError::FileTooShort);
                }
            },
        }
        let r = BBFReader { data, header, footer };
        proof {
            r.lemma_wf();
        }
        Ok(r)
    }
}


impl<'a> BBFReader<'a> {
    /// The bytes of entry `i` of the table of `size`-byte entries at `offset`.
    fn get_table_entry(&self, offset: u64, i: u64, size: u64) -> (r: &'a [u8])
        requires
            offset + (i + 1) * size <= self.data@.len(),
        ensures
            r@ == entry_bytes(self.data@, offset, i as int, size as int),
    {
        proof {
            assert(i * size + size == (i + 1) * size) by (nonlinear_arith);
            assert(0 <= i * size) by (nonlinear_arith)
                requires
                    0 <= i,
                    0 <= size,
            ;
            assert(self.data@.len() == self.data.len());
        }
        let start = (offset + i * size) as usize;
        let end = start + size as usize;
        slice_subrange(self.data, start, end)
    }

    /// The asset table, entry by entry.
    pub fn assets(&self) -> (r: Vec<BBFAssetEntry>)
        requires
            self.wf(),
        ensures
            r@.len() == asset_count_of(self.bytes()),
            forall|i: int|
                0 <= i < r@.len() ==> (#[trigger] r@[i]).encoded() == entry_bytes(
                    self.bytes(),
                    asset_offset_of(self.bytes()),
                    i,
                    48,
                ),
    {
        proof {
            self.lemma_wf();
        }
        let offset = self.footer.asset_offset;
        let count = self.footer.asset_count;
        let mut v: Vec<BBFAssetEntry> = Vec::new();
        let mut i: u64 = 0;
        while i < count
            invariant
                self.wf(),
                offset == asset_offset_of(self.bytes()),
                count == asset_count_of(self.bytes()),
                offset + count * 48 <= self.data@.len(),
                self.data@ == self.bytes(),
                i <= count,
                v@.len() == i,
                forall|j: int|
                    0 <= j < i ==> (#[trigger] v@[j]).encoded() == entry_bytes(
                        self.bytes(),
                        offset,
                        j,
                        48,
                    ),
            decreases count - i,
        {
            let e = BBFAssetEntry::from_bytes(self.get_table_entry(offset, i, 48));
            v.push(e);
            i = i + 1;
        }
        v
    }

    /// The page table, entry by entry.
    pub fn pages(&self) -> (r: Vec<BBFPageEntry>)
        requires
            self.wf(),
        ensures
            r@.len() == page_count_of(self.bytes()),
            forall|i: int|
                0 <= i < r@.len() ==> (#[trigger] r@[i]).encoded() == entry_bytes(
                    self.bytes(),
                    page_offset_of(self.bytes()),
                    i,
                    16,
                ),
    {
        proof {
            self.lemma_wf();
        }
        let offset = self.footer.page_offset;
        let count = self.footer.page_count;
        let mut v: Vec<BBFPageEntry> = Vec::new();
        let mut i: u64 = 0;
        while i < count
            invariant
                self.wf(),
                offset == page_offset_of(self.bytes()),
                count == page_count_of(self.bytes()),
                offset + count * 16 <= self.data@.len(),
                self.data@ == self.bytes(),
                i <= count,
                v@.len() == i,
                forall|j: int|
                    0 <= j < i ==> (#[trigger] v@[j]).encoded() == entry_bytes(
                        self.bytes(),
                        offset,
                        j,
                        16,
                    ),
            decreases count - i,
        {
            let e = BBFPageEntry::from_bytes(self.get_table_entry(offset, i, 16));
            v.push(e);
            i = i + 1;
        }
        v
    }

    /// The section table, entry by entry.
    pub fn sections(&self) -> (r: Vec<BBFSection>)
        requires
            self.wf(),
        ensures
            r@.len() == section_count_of(self.bytes()),
            forall|i: int|
                0 <= i < r@.len() ==> (#[trigger] r@[i]).encoded() == entry_bytes(
                    self.bytes(),
                    section_offset_of(self.bytes()),
                    i,
                    32,
                ),
    {
        proof {
            self.lemma_wf();
        }
        let offset = self.footer.section_offset;
        let count = self.footer.section_count;
        let mut v: Vec<BBFSection> = Vec::new();
        let mut i: u64 = 0;
        while i < count
            invariant
                self.wf(),
                offset == section_offset_of(self.bytes()),
                count == section_count_of(self.bytes()),
                offset + count * 32 <= self.data@.len(),
                self.data@ == self.bytes(),
                i <= count,
                v@.len() == i,
                forall|j: int|
                    0 <= j < i ==> (#[trigger] v@[j]).encoded() == entry_bytes(
                        self.bytes(),
                        offset,
                        j,
                        32,
                    ),
            decreases count - i,
        {
            let e = BBFSection::from_bytes(self.get_table_entry(offset, i, 32));
            v.push(e);
            i = i + 1;
        }
        v
    }

    /// The metadata table, entry by entry.
    pub fn metadata(&self) -> (r: Vec<BBFMetadata>)
        requires
            self.wf(),
        ensures
            r@.len() == meta_count_of(self.bytes()),
            forall|i: int|
                0 <= i < r@.len() ==> (#[trigger] r@[i]).encoded() == entry_bytes(
                    self.bytes(),
                    meta_offset_of(self.bytes()),
                    i,
                    32,
                ),
    {
        proof {
            self.lemma_wf();
        }
        let offset = self.footer.meta_offset;
        let count = self.footer.meta_count;
        let mut v: Vec<BBFMetadata> = Vec::new();
        let mut i: u64 = 0;
        while i < count
            invariant
                self.wf(),
                offset == meta_offset_of(self.bytes()),
                count == meta_count_of(self.bytes()),
                offset + count * 32 <= self.data@.len(),
                self.data@ == self.bytes(),
                i <= count,
                v@.len() == i,
                forall|j: int|
                    0 <= j < i ==> (#[trigger] v@[j]).encoded() == entry_bytes(
                        self.bytes(),
                        offset,
                        j,
                        32,
                    ),
            decreases count - i,
        {
            let e = BBFMetadata::from_bytes(self.get_table_entry(offset, i, 32));
            v.push(e);
            i = i + 1;
        }
        v
    }

    /// The string at absolute `offset` in the file: the bytes from there up
    /// to the first zero byte or the end of the string pool, if they are
    /// valid UTF-8; `None` when `offset` is outside the pool or they are not.
    #[verifier::spinoff_prover]
    pub fn get_string(&self, offset: u64) -> (r: Option<&'a str>)
        requires
            self.wf(),
        ensures
            match string_bytes_at(self.bytes(), offset) {
                None => r is None,
                Some(b) => (r is Some <==> valid_utf8(b)) && (r matches Some(s) ==> s.spec_bytes()
                    == b),
            },
    {
        proof {
            self.lemma_wf();
        }
        let pool_start = self.footer.string_pool_offset;
        let pool_end = pool_start + self.footer.string_pool_size;
        if offset < pool_start || offset >= pool_end {
            return None;
        }
        let rest = slice_subrange(self.data, offset as usize, pool_end as usize);
        let mut end: usize = 0;
        while end < rest.len() && rest[end] != 0
            invariant
                0 <= end <= rest@.len(),
                forall|j: int| 0 <= j < end ==> rest@[j] != 0,
            decreases rest@.len() - end,
        {
            end = end + 1;
        }
        proof {
            lemma_nul_pos(rest@, end as int);
        }
        str_from_utf8(slice_subrange(rest, 0, end))
    }

    /// The bytes of asset `asset_index`, when its entry exists and the bytes
    /// it names lie inside the file.
    #[verifier::spinoff_prover]
    pub fn get_asset(&self, asset_index: u64) -> (r: Result<&'a [u8], BBFError>)
        requires
            self.wf(),
        ensures
            match r {
                Ok(s) => asset_outcome(self.bytes(), asset_index) == Ok::<Seq<u8>, BBFError>(s@),
                Err(e) => asset_outcome(self.bytes(), asset_index) == Err::<Seq<u8>, BBFError>(e),
            },
    {
        proof {
            self.lemma_wf();
        }
        if asset_index >= self.footer.asset_count {
            return Err(BBFError::OutOfBounds);
        }
        let asset = BBFAssetEntry::from_bytes(
            self.get_table_entry(self.footer.asset_offset, asset_index, 48),
        );
        proof {
            asset.lemma_layout();
        }
        let offset = asset.file_offset;
        let length = asset.file_size;
        let end = match offset.checked_add(length) {
            Some(e) => e,
            None => {
                return Err(BBFError::OutOfBounds);
            },
        };
        if end > self.data.len() as u64 {
            return Err(BBFError::FileTooShort);
        }
        Ok(slice_subrange(self.data, offset as usize, end as usize))
    }
}

/// Checks that a table of `count` entries of `elem_size` bytes at `offset`
/// fits inside a file of `total_len` bytes.
fn check_range(offset: u64, count: u64, elem_size: u64, total_len: u64) -> (r: Result<
    (),
    BBFError,
>)
    ensures
        r == range_outcome(offset, count, elem_size as int, total_len as int),
{
    let size = match count.checked_mul(elem_size) {
        Some(s) => s,
        None => {
            return Err(BBFError::TableError);
        },
    };
    let end = match offset.checked_add(size) {
        Some(e) => e,
        None => {
            return Err(BBFError::TableError);
        },
    };
    if end > total_len {
        return Err(BBFError::FileTooShort);
    }
    Ok(())
}

} // verus!
