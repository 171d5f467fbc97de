//! Writing a BBF file: pages, sections and metadata in, file bytes out.

use std::collections::HashMap;
use vstd::prelude::*;
use vstd::bytes::*;
use vstd::string::*;
use vstd::utf8::{encode_utf8_valid_utf8, valid_utf8};
use crate::codec::{push_bytes, push_zeros};
use crate::format::{
    BBFAssetEntry, BBFFooter, BBFHeader, BBFMediaType, BBFMetadata, BBFPageEntry, BBFSection,
    HEADER_SIZE, NO_PARENT,
};
use crate::hash::{hash_hi, hash_lo, split_hash, xxh3_128, xxh3_128_of, xxh3_64, xxh3_64_of};
use vstd::array::spec_array_fill_for_copy_type;
use crate::text::bytes_eq;
use crate::codec::{lemma_le_roundtrips, u64_at};
use crate::reader::{
    asset_count_of, asset_offset_of, asset_outcome, entry_bytes, footer_pos, lemma_nul_pos,
    lemma_u64_at_subrange, magic_bytes, meta_count_of, meta_offset_of, page_count_of,
    page_offset_of, parse_outcome, pool_offset_of, pool_size_of, section_count_of,
    section_offset_of, string_bytes_at, BBFError,
};

verus! {

broadcast use vstd::std_specs::hash::group_hash_axioms;

/// Assets start at multiples of this many bytes.
pub const ASSET_ALIGNMENT: u64 = 4096;

/// How many zero bytes bring `offset` to the next multiple of the alignment.
pub open spec fn align_padding_len(offset: int) -> int {
    (4096 - offset % 4096) % 4096
}

/// `n` zero bytes.
pub open spec fn zeros(n: int) -> Seq<u8> {
    Seq::new(n as nat, |i: int| 0u8)
}

/// The string pool holds `s` at `off`, followed by a zero byte.
pub open spec fn pool_holds(pool: Seq<u8>, off: int, s: Seq<u8>) -> bool {
    &&& 0 <= off
    &&& off + s.len() < pool.len()
    &&& pool.subrange(off, off + s.len()) == s
    &&& pool[off + s.len()] == 0
}

/// Where the string with bytes `b` starts once it is in the pool: where it
/// already was, or the current end of the pool.
pub open spec fn intern_offset(interned: Map<Seq<u8>, u64>, pool: Seq<u8>, b: Seq<u8>) -> u64 {
    if interned.contains_key(b) {
        interned[b]
    } else {
        pool.len() as u64
    }
}

/// The pool once `b` is in it: unchanged if it already was, else with `b`
/// and a zero byte appended.
pub open spec fn intern_pool(interned: Map<Seq<u8>, u64>, pool: Seq<u8>, b: Seq<u8>) -> Seq<u8> {
    if interned.contains_key(b) {
        pool
    } else {
        pool + b + seq![0u8]
    }
}

/// The interned strings once `b` is among them.
pub open spec fn intern_map(interned: Map<Seq<u8>, u64>, pool: Seq<u8>, b: Seq<u8>) -> Map<
    Seq<u8>,
    u64,
> {
    if interned.contains_key(b) {
        interned
    } else {
        interned.insert(b, pool.len() as u64)
    }
}

/// The interned strings and the pool once each of `names` is interned in turn.
pub open spec fn intern_all(interned: Map<Seq<u8>, u64>, pool: Seq<u8>, names: Seq<Seq<u8>>) -> (
    Map<Seq<u8>, u64>,
    Seq<u8>,
)
    decreases names.len(),
{
    if names.len() == 0 {
        (interned, pool)
    } else {
        let (m, p) = intern_all(interned, pool, names.drop_last());
        (intern_map(m, p, names.last()), intern_pool(m, p, names.last()))
    }
}

/// The bytes a pool takes to hold each of `strings` once, with a zero byte
/// after each.
pub open spec fn pool_size_of_strings(strings: Set<Seq<u8>>) -> int {
    strings.fold(0int, |acc: int, t: Seq<u8>| acc + t.len() + 1)
}

/// Holding one more string takes its bytes and a zero byte more.
pub proof fn lemma_pool_size_insert(strings: Set<Seq<u8>>, t: Seq<u8>)
    requires
        strings.finite(),
        !strings.contains(t),
    ensures
        pool_size_of_strings(strings.insert(t)) == pool_size_of_strings(strings) + t.len() + 1,
{
    let f = |acc: int, t: Seq<u8>| acc + t.len() + 1;
    assert(vstd::set::fold::is_fun_commutative(f));
    vstd::set::fold::lemma_fold_insert(strings, 0int, f, t);
}

/// An empty pool holds no string.
pub proof fn lemma_pool_size_empty()
    ensures
        pool_size_of_strings(Set::<Seq<u8>>::empty()) == 0,
{
    let f = |acc: int, t: Seq<u8>| acc + t.len() + 1;
    vstd::set::fold::lemma_fold_empty(0int, f);
}

/// What the pool holds at an offset it still holds after growing.
pub proof fn lemma_pool_holds_extend(pool: Seq<u8>, more: Seq<u8>, off: int, s: Seq<u8>)
    requires
        pool_holds(pool, off, s),
    ensures
        pool_holds(pool + more, off, s),
{
    assert((pool + more).subrange(off, off + s.len()) =~= pool.subrange(off, off + s.len()));
}

/// The concatenation of byte runs, in order.
pub open spec fn concat_bytes(parts: Seq<Seq<u8>>) -> Seq<u8>
    decreases parts.len(),
{
    if parts.len() == 0 {
        Seq::empty()
    } else {
        concat_bytes(parts.drop_last()) + parts.last()
    }
}

/// Appending a run appends its bytes.
pub proof fn lemma_concat_push(parts: Seq<Seq<u8>>, p: Seq<u8>)
    ensures
        concat_bytes(parts.push(p)) == concat_bytes(parts) + p,
{
    assert(parts.push(p).drop_last() =~= parts);
}

/// Runs that all have `k` bytes concatenate to `k` bytes per run.
pub proof fn lemma_concat_uniform_len(parts: Seq<Seq<u8>>, k: int)
    requires
        0 <= k,
        forall|j: int| 0 <= j < parts.len() ==> (#[trigger] parts[j]).len() == k,
    ensures
        concat_bytes(parts).len() == parts.len() * k,
    decreases parts.len(),
{
    if parts.len() > 0 {
        lemma_concat_uniform_len(parts.drop_last(), k);
        let n = parts.len() as int;
        assert((n - 1) * k + k == n * k) by (nonlinear_arith);
    }
}

/// In runs that all have `k` bytes, run `i` is the `k` bytes at `i * k`.
pub proof fn lemma_concat_uniform_index(parts: Seq<Seq<u8>>, k: int, i: int)
    requires
        0 <= k,
        0 <= i < parts.len(),
        forall|j: int| 0 <= j < parts.len() ==> (#[trigger] parts[j]).len() == k,
    ensures
        concat_bytes(parts).subrange(i * k, i * k + k) == parts[i],
    decreases parts.len(),
{
    let n = parts.len() as int;
    let init = parts.drop_last();
    lemma_concat_uniform_len(init, k);
    assert(concat_bytes(parts) == concat_bytes(init) + parts[n - 1]);
    if i < n - 1 {
        lemma_concat_uniform_index(init, k, i);
        assert(i * k + k <= (n - 1) * k) by (nonlinear_arith)
            requires
                0 <= k,
                i < n - 1,
        ;
        assert(0 <= i * k) by (nonlinear_arith)
            requires
                0 <= k,
                0 <= i,
        ;
        assert(concat_bytes(parts).subrange(i * k, i * k + k) =~= concat_bytes(init).subrange(
            i * k,
            i * k + k,
        ));
    } else {
        assert(concat_bytes(parts).subrange(i * k, i * k + k) =~= parts[n - 1]);
    }
}

/// The byte length of each table.
pub proof fn lemma_table_lengths(
    a: Seq<BBFAssetEntry>,
    p: Seq<BBFPageEntry>,
    s: Seq<BBFSection>,
    m: Seq<BBFMetadata>,
    pool_offset: u64,
)
    ensures
        asset_table_bytes(a).len() == 48 * a.len(),
        page_table_bytes(p).len() == 16 * p.len(),
        section_table_bytes(s, pool_offset).len() == 32 * s.len(),
        metadata_table_bytes(m, pool_offset).len() == 32 * m.len(),
{
    let fa = |e: BBFAssetEntry| e.encoded();
    let fp = |e: BBFPageEntry| e.encoded();
    let fs = |e: BBFSection| finished_section(e, pool_offset).encoded();
    let fm = |e: BBFMetadata| finished_metadata(e, pool_offset).encoded();
    assert forall|j: int| 0 <= j < a.len() implies (#[trigger] a.map_values(fa)[j]).len() == 48 by {
        a[j].lemma_layout();
    }
    assert forall|j: int| 0 <= j < p.len() implies (#[trigger] p.map_values(fp)[j]).len() == 16 by {
        p[j].lemma_layout();
    }
    assert forall|j: int| 0 <= j < s.len() implies (#[trigger] s.map_values(fs)[j]).len() == 32 by {
        finished_section(s[j], pool_offset).lemma_layout();
    }
    assert forall|j: int| 0 <= j < m.len() implies (#[trigger] m.map_values(fm)[j]).len() == 32 by {
        finished_metadata(m[j], pool_offset).lemma_layout();
    }
    lemma_concat_uniform_len(a.map_values(fa), 48);
    lemma_concat_uniform_len(p.map_values(fp), 16);
    lemma_concat_uniform_len(s.map_values(fs), 32);
    lemma_concat_uniform_len(m.map_values(fm), 32);
}

/// A section as the finished file stores it: its title offset, and its
/// parent unless there is none, moved by the pool's position in the file.
pub open spec fn finished_section(s: BBFSection, pool_offset: u64) -> BBFSection {
    BBFSection {
        section_title_offset: (s.section_title_offset + pool_offset) as u64,
        section_start_index: s.section_start_index,
        section_parent_offset: if s.section_parent_offset != NO_PARENT {
            (s.section_parent_offset + pool_offset) as u64
        } else {
            NO_PARENT
        },
        reserved: s.reserved,
    }
}

/// A metadata pair as the finished file stores it: its key and value
/// offsets, and its parent unless there is none, moved by the pool's position.
pub open spec fn finished_metadata(m: BBFMetadata, pool_offset: u64) -> BBFMetadata {
    BBFMetadata {
        key_offset: (m.key_offset + pool_offset) as u64,
        value_offset: (m.value_offset + pool_offset) as u64,
        parent_offset: if m.parent_offset != NO_PARENT {
            (m.parent_offset + pool_offset) as u64
        } else {
            NO_PARENT
        },
        reserved: m.reserved,
    }
}

/// The bytes of a table of asset entries.
pub open spec fn asset_table_bytes(a: Seq<BBFAssetEntry>) -> Seq<u8> {
    concat_bytes(a.map_values(|e: BBFAssetEntry| e.encoded()))
}

/// The bytes of a table of page entries.
pub open spec fn page_table_bytes(p: Seq<BBFPageEntry>) -> Seq<u8> {
    concat_bytes(p.map_values(|e: BBFPageEntry| e.encoded()))
}

/// The bytes of the section table of a finished file.
pub open spec fn section_table_bytes(s: Seq<BBFSection>, pool_offset: u64) -> Seq<u8> {
    concat_bytes(s.map_values(|e: BBFSection| finished_section(e, pool_offset).encoded()))
}

/// The bytes of the metadata table of a finished file.
pub open spec fn metadata_table_bytes(m: Seq<BBFMetadata>, pool_offset: u64) -> Seq<u8> {
    concat_bytes(m.map_values(|e: BBFMetadata| finished_metadata(e, pool_offset).encoded()))
}

/// Moves a section's offsets by the pool's position, as `finished_section`.
fn finish_section(s: &BBFSection, pool_offset: u64) -> (r: BBFSection)
    requires
        s.section_title_offset + pool_offset <= u64::MAX,
        s.section_parent_offset != NO_PARENT ==> s.section_parent_offset + pool_offset <= u64::MAX,
    ensures
        r == finished_section(*s, pool_offset),
{
    let parent = if s.section_parent_offset != NO_PARENT {
        s.section_parent_offset + pool_offset
    } else {
        NO_PARENT
    };
    BBFSection {
        section_title_offset: s.section_title_offset + pool_offset,
        section_start_index: s.section_start_index,
        section_parent_offset: parent,
        reserved: s.reserved,
    }
}

/// Moves a metadata pair's offsets by the pool's position, as `finished_metadata`.
fn finish_metadata(m: &BBFMetadata, pool_offset: u64) -> (r: BBFMetadata)
    requires
        m.key_offset + pool_offset <= u64::MAX,
        m.value_offset + pool_offset <= u64::MAX,
        m.parent_offset != NO_PARENT ==> m.parent_offset + pool_offset <= u64::MAX,
    ensures
        r == finished_metadata(*m, pool_offset),
{
    let parent = if m.parent_offset != NO_PARENT {
        m.parent_offset + pool_offset
    } else {
        NO_PARENT
    };
    BBFMetadata {
        key_offset: m.key_offset + pool_offset,
        value_offset: m.value_offset + pool_offset,
        parent_offset: parent,
        reserved: m.reserved,
    }
}

/// The header a new file starts with: magic `BBF3`, version 3, header length
/// 64, alignment 12, ream size 16, and a footer offset of 0 until the file
/// is finished.
pub open spec fn initial_header_bytes() -> Seq<u8> {
    seq![0x42u8, 0x42u8, 0x46u8, 0x33u8] + spec_u16_to_le_bytes(3) + spec_u16_to_le_bytes(64)
        + spec_u32_to_le_bytes(0) + seq![12u8, 16u8] + spec_u16_to_le_bytes(0)
        + spec_u64_to_le_bytes(0) + zeros(40)
}

/// Each asset's bytes lie, after the header, inside what is written; its
/// hash is theirs, and its entry holds the hash's two halves.
pub open spec fn assets_stored(
    out: Seq<u8>,
    a: Seq<BBFAssetEntry>,
    hashes: Seq<u128>,
    data: Seq<Seq<u8>>,
) -> bool {
    forall|k: int|
        #![trigger a[k]]
        #![trigger data[k]]
        0 <= k < a.len() ==> {
            &&& a[k].file_offset >= HEADER_SIZE
            &&& a[k].file_offset + a[k].file_size <= out.len()
            &&& data[k] == out.subrange(
                a[k].file_offset as int,
                a[k].file_offset + a[k].file_size,
            )
            &&& hashes[k] == xxh3_128_of(data[k])
            &&& a[k].asset_hash[0] == hash_lo(hashes[k])
            &&& a[k].asset_hash[1] == hash_hi(hashes[k])
        }
}

/// Builds a BBF file in memory. Page images are written as they are added,
/// each distinct image (by XXH3-128 hash) once; tables, string pool and
/// footer are written by `finalize`.
pub struct BBFBuilder {
    out: Vec<u8>,
    current_offset: u64,
    assets: Vec<BBFAssetEntry>,
    pages: Vec<BBFPageEntry>,
    sections: Vec<BBFSection>,
    metadata: Vec<BBFMetadata>,
    string_pool: Vec<u8>,
    dedupe_map: HashMap<u128, u32>,
    string_map: Vec<(Vec<u8>, u64)>,
    asset_hashes: Ghost<Seq<u128>>,
    asset_data: Ghost<Seq<Seq<u8>>>,
    page_assets: Ghost<Seq<int>>,
    asset_origin: Ghost<Seq<int>>,
    payloads: Ghost<Seq<Seq<u8>>>,
    section_titles: Ghost<Seq<Seq<u8>>>,
    meta_keys: Ghost<Seq<Seq<u8>>>,
    meta_values: Ghost<Seq<Seq<u8>>>,
    interned: Ghost<Map<Seq<u8>, u64>>,
}

impl BBFBuilder {
    /// The bytes written so far: the header, then each distinct image.
    pub closed spec fn written(&self) -> Seq<u8> {
        self.out@
    }

    /// The asset table so far.
    pub closed spec fn spec_assets(&self) -> Seq<BBFAssetEntry> {
        self.assets@
    }

    /// The page table so far.
    pub closed spec fn spec_pages(&self) -> Seq<BBFPageEntry> {
        self.pages@
    }

    /// The section table so far, with title offsets relative to the pool.
    pub closed spec fn spec_sections(&self) -> Seq<BBFSection> {
        self.sections@
    }

    /// The metadata table so far, with offsets relative to the pool.
    pub closed spec fn spec_metadata(&self) -> Seq<BBFMetadata> {
        self.metadata@
    }

    /// The string pool so far.
    pub closed spec fn spec_pool(&self) -> Seq<u8> {
        self.string_pool@
    }

    /// Each string already in the pool (by its bytes) and where it starts.
    pub closed spec fn spec_interned(&self) -> Map<Seq<u8>, u64> {
        self.interned@
    }

    /// The XXH3-128 hash of each asset's bytes.
    pub closed spec fn spec_asset_hashes(&self) -> Seq<u128> {
        self.asset_hashes@
    }

    /// The bytes of each asset.
    pub closed spec fn spec_asset_data(&self) -> Seq<Seq<u8>> {
        self.asset_data@
    }

    /// For each page, the position of its asset in the asset table.
    pub closed spec fn spec_page_assets(&self) -> Seq<int> {
        self.page_assets@
    }

    /// For each page, the image bytes it was added with.
    pub closed spec fn spec_payloads(&self) -> Seq<Seq<u8>> {
        self.payloads@
    }

    /// For each section, the bytes of its title.
    pub closed spec fn spec_section_titles(&self) -> Seq<Seq<u8>> {
        self.section_titles@
    }

    /// For each metadata pair, the bytes of its key.
    pub closed spec fn spec_meta_keys(&self) -> Seq<Seq<u8>> {
        self.meta_keys@
    }

    /// For each metadata pair, the bytes of its value.
    pub closed spec fn spec_meta_values(&self) -> Seq<Seq<u8>> {
        self.meta_values@
    }

    /// The size the file has once finished: what is written, the four
    /// tables, the string pool and the footer.
    pub open spec fn spec_final_size(&self) -> int {
        (self.written().len() + 48 * self.spec_assets().len() + 16 * self.spec_pages().len() + 32
            * self.spec_sections().len() + 32 * self.spec_metadata().len() + self.spec_pool().len()
            + 256) as int
    }

    /// Where the string pool starts in the finished file.
    pub open spec fn spec_pool_offset(&self) -> u64 {
        (self.written().len() + 48 * self.spec_assets().len() + 16 * self.spec_pages().len() + 32
            * self.spec_sections().len() + 32 * self.spec_metadata().len()) as u64
    }

    /// The bytes that follow what is written: asset, page, section and
    /// metadata tables, then the string pool.
    pub open spec fn spec_tables(&self) -> Seq<u8> {
        asset_table_bytes(self.spec_assets()) + page_table_bytes(self.spec_pages())
            + section_table_bytes(self.spec_sections(), self.spec_pool_offset())
            + metadata_table_bytes(self.spec_metadata(), self.spec_pool_offset()) + self.spec_pool()
    }

    /// The footer of the finished file.
    pub open spec fn spec_footer(&self) -> BBFFooter {
        let w = self.written().len();
        let na = self.spec_assets().len();
        let np = self.spec_pages().len();
        let ns = self.spec_sections().len();
        let nm = self.spec_metadata().len();
        BBFFooter {
            asset_offset: w as u64,
            page_offset: (w + 48 * na) as u64,
            section_offset: (w + 48 * na + 16 * np) as u64,
            meta_offset: (w + 48 * na + 16 * np + 32 * ns) as u64,
            expansion_offset: 0,
            string_pool_offset: self.spec_pool_offset(),
            string_pool_size: self.spec_pool().len() as u64,
            asset_count: na as u64,
            page_count: np as u64,
            section_count: ns as u64,
            meta_count: nm as u64,
            expansion_count: 0,
            flags: 0,
            footer_len: 256,
            padding: spec_array_fill_for_copy_type::<u8, 2>(0u8),
            footer_hash: xxh3_64_of(self.spec_tables()),
            reserved: spec_array_fill_for_copy_type::<u8, 144>(0u8),
        }
    }

    /// The finished file: what is written, the tables and the footer, with
    /// the header's footer offset set to where the footer starts.
    pub open spec fn spec_image(&self) -> Seq<u8> {
        let f = self.written() + self.spec_tables() + self.spec_footer().encoded();
        f.subrange(0, 16) + spec_u64_to_le_bytes(
            (self.written().len() + self.spec_tables().len()) as u64,
        ) + f.subrange(24, f.len() as int)
    }

    /// Whether a file of `n` bytes keeps every stored offset, and every
    /// offset plus a page or section index, within `u64`.
    pub open spec fn size_fits(n: int) -> bool {
        n + 0x1_0000_0000 <= u64::MAX
    }

    /// Whether `k` is a section title or a metadata key or value.
    pub closed spec fn string_stored(&self, k: Seq<u8>) -> bool {
        ||| exists|i: int| 0 <= i < self.section_titles@.len() && #[trigger] self.section_titles@[i] == k
        ||| exists|i: int| 0 <= i < self.meta_keys@.len() && #[trigger] self.meta_keys@[i] == k
        ||| exists|i: int| 0 <= i < self.meta_values@.len() && #[trigger] self.meta_values@[i] == k
    }

    /// The builder's invariant.
    pub closed spec fn wf(&self) -> bool {
        &&& self.wf_core()
        &&& forall|k: Seq<u8>| #[trigger] self.interned@.contains_key(k) ==> self.string_stored(k)
    }

    /// The builder's invariant, but for which strings the pool holds.
    closed spec fn wf_core(&self) -> bool {
        let a = self.assets@;
        let hashes = self.asset_hashes@;
        let data = self.asset_data@;
        &&& self.current_offset == self.out@.len()
        &&& self.out@.len() >= HEADER_SIZE
        &&& self.out@.subrange(0, HEADER_SIZE as int) == initial_header_bytes()
        &&& Self::size_fits(self.spec_final_size())
        &&& hashes.len() == a.len() && data.len() == a.len()
        &&& assets_stored(self.out@, a, hashes, data)
        &&& forall|k1: int, k2: int|
            0 <= k1 < k2 < a.len() ==> #[trigger] hashes[k1] != #[trigger] hashes[k2]
        &&& forall|h: u128| #[trigger]
            self.dedupe_map@.contains_key(h) <==> hashes.contains(h)
        &&& forall|k: int|
            0 <= k < a.len() ==> #[trigger] self.dedupe_map@[hashes[k]] == k as u32
        &&& self.page_assets@.len() == self.pages@.len()
        &&& self.payloads@.len() == self.pages@.len()
        &&& forall|j: int|
            0 <= j < self.pages@.len() ==> {
                &&& 0 <= #[trigger] self.page_assets@[j] < a.len()
                &&& self.pages@[j].asset_index == (self.page_assets@[j] as u32) as u64
                &&& xxh3_128_of(self.payloads@[j]) == hashes[self.page_assets@[j]]
            }
        &&& self.asset_origin@.len() == a.len()
        &&& forall|k: int|
            0 <= k < a.len() ==> {
                &&& 0 <= #[trigger] self.asset_origin@[k] < self.pages@.len()
                &&& self.payloads@[self.asset_origin@[k]] == data[k]
            }
        &&& self.section_titles@.len() == self.sections@.len()
        &&& forall|i: int|
            0 <= i < self.sections@.len() ==> valid_utf8(#[trigger] self.section_titles@[i])
        &&& forall|i: int|
            0 <= i < self.metadata@.len() ==> valid_utf8(#[trigger] self.meta_keys@[i])
                && valid_utf8(self.meta_values@[i])
        &&& forall|i: int|
            0 <= i < self.sections@.len() ==> {
                let p = (#[trigger] self.sections@[i]).section_parent_offset;
                p == NO_PARENT || p <= u32::MAX
            }
        &&& forall|i: int|
            0 <= i < self.sections@.len() ==> pool_holds(
                self.string_pool@,
                (#[trigger] self.sections@[i]).section_title_offset as int,
                self.section_titles@[i],
            )
        &&& self.meta_keys@.len() == self.metadata@.len()
        &&& self.meta_values@.len() == self.metadata@.len()
        &&& forall|i: int|
            0 <= i < self.metadata@.len() ==> {
                &&& pool_holds(
                    self.string_pool@,
                    (#[trigger] self.metadata@[i]).key_offset as int,
                    self.meta_keys@[i],
                )
                &&& pool_holds(self.string_pool@, self.metadata@[i].value_offset as int, self.meta_values@[i])
                &&& self.metadata@[i].parent_offset == NO_PARENT
            }
        &&& forall|i: int, j: int|
            0 <= i < j < self.string_map@.len() ==> #[trigger] self.string_map@[i].0@
                != #[trigger] self.string_map@[j].0@
        &&& forall|k: Seq<u8>| #[trigger]
            self.interned@.contains_key(k) <==> exists|i: int|
                0 <= i < self.string_map@.len() && #[trigger] self.string_map@[i].0@ == k
        &&& forall|i: int|
            0 <= i < self.string_map@.len() ==> self.interned@[#[trigger] self.string_map@[i].0@]
                == self.string_map@[i].1
        &&& forall|k: Seq<u8>| #[trigger]
            self.interned@.contains_key(k) ==> pool_holds(
                self.string_pool@,
                self.interned@[k] as int,
                k,
            )
        &&& forall|k1: Seq<u8>, k2: Seq<u8>|
            #[trigger] self.interned@.contains_key(k1) && #[trigger] self.interned@.contains_key(k2)
                && k1 != k2 ==> self.interned@[k1] != self.interned@[k2]
        &&& self.interned@.dom().finite()
        &&& self.string_pool@.len() == pool_size_of_strings(self.interned@.dom())
        &&& forall|i: int|
            0 <= i < self.sections@.len() ==> {
                &&& self.interned@.contains_key(#[trigger] self.section_titles@[i])
                &&& self.interned@[self.section_titles@[i]] == self.sections@[i].section_title_offset
            }
        &&& forall|i: int|
            0 <= i < self.metadata@.len() ==> {
                &&& self.interned@.contains_key(#[trigger] self.meta_keys@[i])
                &&& self.interned@[self.meta_keys@[i]] == self.metadata@[i].key_offset
                &&& self.interned@.contains_key(self.meta_values@[i])
                &&& self.interned@[self.meta_values@[i]] == self.metadata@[i].value_offset
            }
    }

    /// Starts a file: writes its header, whose footer offset `finalize`
    /// fills in.
    pub fn new() -> (r: Self)
        ensures
            r.wf(),
            r.written() == initial_header_bytes(),
            r.spec_assets().len() == 0,
            r.spec_pages().len() == 0,
            r.spec_sections().len() == 0,
            r.spec_metadata().len() == 0,
            r.spec_pool().len() == 0,
            r.spec_interned() == Map::<Seq<u8>, u64>::empty(),
            r.spec_payloads().len() == 0,
    {
        let header = BBFHeader {
            magic: [0x42u8, 0x42u8, 0x46u8, 0x33u8],
            version: 3,
            header_len: 64,
            flags: 0,
            alignment: 12,
            ream_size: 16,
            reserved_extra: 0,
            footer_offset: 0,
            reserved: [0u8; 40],
        };
        let out = header.to_bytes();
        proof {
            assert(header.magic@ =~= seq![0x42u8, 0x42u8, 0x46u8, 0x33u8]);
            assert(header.reserved@ =~= zeros(40));
            assert(out@ =~= initial_header_bytes());
            vstd::bytes::lemma_auto_spec_u64_to_from_le_bytes();
            vstd::bytes::lemma_auto_spec_u32_to_from_le_bytes();
            vstd::bytes::lemma_auto_spec_u16_to_from_le_bytes();
            assert(out@.len() == 64);
            assert(out@.subrange(0, 64) =~= out@);
            lemma_pool_size_empty();
            assert(Map::<Seq<u8>, u64>::empty().dom() =~= Set::<Seq<u8>>::empty());
        }
        let current_offset = out.len() as u64;
        BBFBuilder {
            out,
            current_offset,
            assets: Vec::new(),
            pages: Vec::new(),
            sections: Vec::new(),
            metadata: Vec::new(),
            string_pool: Vec::new(),
            dedupe_map: HashMap::new(),
            string_map: Vec::new(),
            asset_hashes: Ghost(Seq::empty()),
            asset_data: Ghost(Seq::empty()),
            page_assets: Ghost(Seq::empty()),
            asset_origin: Ghost(Seq::empty()),
            payloads: Ghost(Seq::empty()),
            section_titles: Ghost(Seq::empty()),
            meta_keys: Ghost(Seq::empty()),
            meta_values: Ghost(Seq::empty()),
            interned: Ghost(Map::empty()),
        }
    }

    /// What the invariant says of each asset.
    pub proof fn lemma_assets(&self)
        requires
            self.wf(),
        ensures
            self.spec_asset_hashes().len() == self.spec_assets().len(),
            self.spec_asset_data().len() == self.spec_assets().len(),
            self.written().len() >= HEADER_SIZE,
            forall|k: int|
                0 <= k < self.spec_assets().len() ==> {
                    let e = #[trigger] self.spec_assets()[k];
                    &&& e.file_offset >= HEADER_SIZE
                    &&& e.file_offset + e.file_size <= self.written().len()
                    &&& self.spec_asset_data()[k] == self.written().subrange(
                        e.file_offset as int,
                        e.file_offset + e.file_size,
                    )
                    &&& self.spec_asset_hashes()[k] == xxh3_128_of(self.spec_asset_data()[k])
                    &&& e.asset_hash[0] == hash_lo(self.spec_asset_hashes()[k])
                    &&& e.asset_hash[1] == hash_hi(self.spec_asset_hashes()[k])
                },
            forall|k1: int, k2: int|
                0 <= k1 < k2 < self.spec_assets().len() ==> #[trigger] self.spec_asset_hashes()[k1]
                    != #[trigger] self.spec_asset_hashes()[k2],
    {
        assert forall|k: int| 0 <= k < self.spec_assets().len() implies {
            let e = #[trigger] self.spec_assets()[k];
            &&& e.file_offset >= HEADER_SIZE
            &&& e.file_offset + e.file_size <= self.written().len()
            &&& self.spec_asset_data()[k] == self.written().subrange(
                e.file_offset as int,
                e.file_offset + e.file_size,
            )
            &&& self.spec_asset_hashes()[k] == xxh3_128_of(self.spec_asset_data()[k])
            &&& e.asset_hash[0] == hash_lo(self.spec_asset_hashes()[k])
            &&& e.asset_hash[1] == hash_hi(self.spec_asset_hashes()[k])
        } by {
            assert(self.asset_data@[k] == self.asset_data@[k]);
        }
    }

    /// There is a title for each section and a key and a value for each
    /// metadata pair.
    pub proof fn lemma_string_counts(&self)
        requires
            self.wf(),
        ensures
            self.spec_section_titles().len() == self.spec_sections().len(),
            self.spec_meta_keys().len() == self.spec_metadata().len(),
            self.spec_meta_values().len() == self.spec_metadata().len(),
    {
    }

    /// What the invariant says of each page.
    pub proof fn lemma_pages(&self)
        requires
            self.wf(),
        ensures
            self.spec_page_assets().len() == self.spec_pages().len(),
            self.spec_payloads().len() == self.spec_pages().len(),
            forall|j: int|
                0 <= j < self.spec_pages().len() ==> {
                    let k = #[trigger] self.spec_page_assets()[j];
                    &&& 0 <= k < self.spec_assets().len()
                    &&& self.spec_pages()[j].asset_index == (k as u32) as u64
                    &&& xxh3_128_of(self.spec_payloads()[j]) == self.spec_asset_hashes()[k]
                },
    {
    }


    /// `new` is `old` after adding a page with image `data`, media type
    /// `media` and flags `flags`, with `r` returned (see `add_page`).
    pub open spec fn page_added(
        old: BBFBuilder,
        new: BBFBuilder,
        data: Seq<u8>,
        media: BBFMediaType,
        flags: u32,
        r: u32,
    ) -> bool {
        &&& {
            let h = xxh3_128_of(data);
            let k = new.spec_page_assets().last();
            let pad = align_padding_len(old.written().len() as int);
            let e = new.spec_assets().last();
            &&& new.spec_page_assets() =~= old.spec_page_assets().push(k)
                &&& 0 <= k < new.spec_assets().len()
                &&& new.spec_asset_hashes()[k] == h
                &&& r == k as u32
                &&& if old.spec_asset_hashes().contains(h) {
                    &&& new.written() == old.written()
                    &&& new.spec_assets() == old.spec_assets()
                    &&& new.spec_asset_hashes() == old.spec_asset_hashes()
                    &&& new.spec_asset_data() == old.spec_asset_data()
                } else {
                    &&& k == old.spec_assets().len()
                    &&& new.written() =~= old.written() + zeros(pad) + data
                    &&& new.spec_assets().drop_last() =~= old.spec_assets()
                    &&& new.spec_assets().len() == old.spec_assets().len() + 1
                    &&& e.file_offset == old.written().len() + pad
                    &&& e.asset_hash[0] == hash_lo(h)
                    &&& e.asset_hash[1] == hash_hi(h)
                    &&& e.file_size == data.len()
                    &&& e.flags == 0
                    &&& e.reserved_value == 0
                    &&& e.type_ == media.spec_code()
                    &&& e.reserved@ =~= zeros(9)
                    &&& new.spec_asset_hashes() =~= old.spec_asset_hashes().push(h)
                    &&& new.spec_asset_data() =~= old.spec_asset_data().push(data)
                }
        }
        &&& new.spec_pages().drop_last() =~= old.spec_pages()
        &&& new.spec_pages().len() == old.spec_pages().len() + 1
        &&& new.spec_pages().last().asset_index == r as u64
        &&& new.spec_pages().last().flags == flags
        &&& new.spec_pages().last().reserved@ =~= zeros(4)
        &&& new.spec_payloads() =~= old.spec_payloads().push(data)
        &&& new.spec_sections() == old.spec_sections()
        &&& new.spec_metadata() == old.spec_metadata()
        &&& new.spec_pool() == old.spec_pool()
        &&& new.spec_interned() == old.spec_interned()
        &&& new.spec_section_titles() == old.spec_section_titles()
        &&& new.spec_meta_keys() == old.spec_meta_keys()
        &&& new.spec_meta_values() == old.spec_meta_values()
    }

    /// Pads the output with zero bytes up to the next multiple of the alignment.
    fn align_padding(&mut self)
        requires
            old(self).current_offset == old(self).out@.len(),
            old(self).out@.len() + 4095 <= u64::MAX,
        ensures
            final(self).out@ == old(self).out@ + zeros(align_padding_len(old(self).out@.len() as int)),
            final(self).current_offset == final(self).out@.len(),
            final(self).current_offset % 4096 == 0,
            final(self).assets == old(self).assets,
            final(self).pages == old(self).pages,
            final(self).sections == old(self).sections,
            final(self).metadata == old(self).metadata,
            final(self).string_pool == old(self).string_pool,
            final(self).dedupe_map == old(self).dedupe_map,
            final(self).string_map == old(self).string_map,
            final(self).asset_hashes == old(self).asset_hashes,
            final(self).asset_data == old(self).asset_data,
            final(self).page_assets == old(self).page_assets,
            final(self).asset_origin == old(self).asset_origin,
            final(self).payloads == old(self).payloads,
            final(self).section_titles == old(self).section_titles,
            final(self).meta_keys == old(self).meta_keys,
            final(self).meta_values == old(self).meta_values,
            final(self).interned == old(self).interned,
    {
        let padding = (ASSET_ALIGNMENT - (self.current_offset % ASSET_ALIGNMENT)) % ASSET_ALIGNMENT;
        if padding > 0 {
            push_zeros(&mut self.out, padding as usize);
            self.current_offset = self.current_offset + padding;
        }
        proof {
            if padding == 0 {
                assert(self.out@ =~= old(self).out@ + zeros(0));
            }
        }
    }

    /// Adds a page showing the image `data`. An image whose XXH3-128 hash
    /// matches one already written is not written again: the page points at
    /// that asset. Otherwise the output is padded to the alignment, the
    /// image written there, and a new asset entry made. Returns the position
    /// of the page's asset in the asset table (as a `u32`).
    #[verifier::spinoff_prover]
    #[verifier::rlimit(30)]
    pub fn add_page(&mut self, data: &[u8], media_type: BBFMediaType, flags: u32) -> (r: u32)
        requires
            old(self).wf(),
            Self::size_fits(old(self).spec_final_size() + 4095 + data@.len() + 64),
        ensures
            final(self).wf(),
            Self::page_added(*old(self), *final(self), data@, media_type, flags, r),
    {
        proof {
            assert(old(self).wf());
        }
        let hash = xxh3_128(data);
        let ghost old_hashes = self.asset_hashes@;
        let ghost mut k: int = 0;
        let asset_index: u32;
        let found = match self.dedupe_map.get(&hash) {
            Some(idx) => Some(*idx),
            None => None,
        };
        match found {
            Some(idx) => {
                proof {
                    assert(old_hashes.contains(hash));
                    k = choose|k: int| 0 <= k < old_hashes.len() && old_hashes[k] == hash;
                    let a = self.assets@;
                    let hs = self.asset_hashes@;
                    let ds = self.asset_data@;
                    let out = self.out@;
                    assert forall|j: int| #![trigger a[j]] 0 <= j < a.len() implies {
                        &&& a[j].file_offset >= HEADER_SIZE
                        &&& a[j].file_offset + a[j].file_size <= out.len()
                        &&& ds[j] == out.subrange(
                            a[j].file_offset as int,
                            a[j].file_offset + a[j].file_size,
                        )
                        &&& hs[j] == xxh3_128_of(ds[j])
                        &&& a[j].asset_hash[0] == hash_lo(hs[j])
                        &&& a[j].asset_hash[1] == hash_hi(hs[j])
                    } by {
                        assert(old(self).asset_data@[j] == ds[j]);
                    }
                    assert(assets_stored(out, a, hs, ds));
                    assert(idx == k as u32);
                }
                asset_index = idx;
            },
            None => {
                let ghost before = self.out@;
                self.align_padding();
                let offset = self.current_offset;
                let length = data.len() as u64;
                push_bytes(&mut self.out, data);
                self.current_offset = self.current_offset + length;
                let (lo, hi) = split_hash(hash);
                let entry = BBFAssetEntry {
                    file_offset: offset,
                    asset_hash: [lo, hi],
                    file_size: length,
                    flags: 0,
                    reserved_value: 0,
                    type_: media_type.code(),
                    reserved: [0u8; 9],
                };
                proof {
                    k = self.assets@.len() as int;
                    assert(entry.reserved@ =~= zeros(9));
                    assert(entry.asset_hash[0] == lo);
                    assert(entry.asset_hash[1] == hi);
                    assert(self.out@.subrange(offset as int, offset + length) =~= data@);
                }
                asset_index = self.assets.len() as u32;
                self.assets.push(entry);
                self.dedupe_map.insert(hash, asset_index);
                proof {
                    self.asset_hashes@ = self.asset_hashes@.push(hash);
                    self.asset_data@ = self.asset_data@.push(data@);
                    self.asset_origin@ = self.asset_origin@.push(self.pages@.len() as int);
                    assert(!old_hashes.contains(hash));
                    assert forall|j: int| 0 <= j < self.assets@.len() implies
                        #[trigger] self.dedupe_map@[self.asset_hashes@[j]] == j as u32 by {
                        if j < k {
                            assert(old_hashes[j] != hash);
                            assert(old(self).dedupe_map@[old_hashes[j]] == j as u32);
                        }
                    }
                    let a = self.assets@;
                    let hs = self.asset_hashes@;
                    let ds = self.asset_data@;
                    let out = self.out@;
                    assert forall|j: int| #![trigger a[j]] 0 <= j < a.len() implies {
                        &&& a[j].file_offset >= HEADER_SIZE
                        &&& a[j].file_offset + a[j].file_size <= out.len()
                        &&& ds[j] == out.subrange(
                            a[j].file_offset as int,
                            a[j].file_offset + a[j].file_size,
                        )
                        &&& hs[j] == xxh3_128_of(ds[j])
                        &&& a[j].asset_hash[0] == hash_lo(hs[j])
                        &&& a[j].asset_hash[1] == hash_hi(hs[j])
                    } by {
                        if j < k {
                            let e = a[j];
                            assert(old(self).asset_data@[j] == old(self).out@.subrange(
                                e.file_offset as int,
                                e.file_offset + e.file_size,
                            ));
                            assert(out.subrange(e.file_offset as int, e.file_offset + e.file_size)
                                =~= before.subrange(e.file_offset as int, e.file_offset + e.file_size));
                        }
                    }
                    assert(assets_stored(out, a, hs, ds));
                    assert forall|k1: int, k2: int|
                        0 <= k1 < k2 < hs.len() implies #[trigger] hs[k1] != #[trigger] hs[k2] by {
                        if k2 == k {
                            assert(hs[k1] == old_hashes[k1]);
                            assert(old_hashes[k1] != hash);
                        } else {
                            assert(hs[k1] == old_hashes[k1]);
                            assert(hs[k2] == old_hashes[k2]);
                        }
                    }
                    assert(out.subrange(0, HEADER_SIZE as int) =~= before.subrange(
                        0,
                        HEADER_SIZE as int,
                    ));
                    assert forall|h: u128| #[trigger]
                        self.dedupe_map@.contains_key(h) <==> self.asset_hashes@.contains(h) by {
                        if h == hash {
                            assert(self.asset_hashes@[k] == h);
                        } else if old_hashes.contains(h) {
                            let i = choose|i: int| 0 <= i < old_hashes.len() && old_hashes[i] == h;
                            assert(self.asset_hashes@[i] == h);
                        } else if self.asset_hashes@.contains(h) {
                            let i = choose|i: int|
                                0 <= i < self.asset_hashes@.len() && self.asset_hashes@[i] == h;
                            assert(old_hashes[i] == h);
                        }
                    }
                }
            },
        }
        self.pages.push(BBFPageEntry { asset_index: asset_index as u64, flags, reserved: [0u8; 4] });
        proof {
            self.page_assets@ = self.page_assets@.push(k);
            self.payloads@ = self.payloads@.push(data@);
            assert(self.pages@.last().reserved@ =~= zeros(4));
            assert forall|kk: int| 0 <= kk < self.assets@.len() implies {
                &&& 0 <= #[trigger] self.asset_origin@[kk] < self.pages@.len()
                &&& self.payloads@[self.asset_origin@[kk]] == self.asset_data@[kk]
            } by {
                if kk < old(self).assets@.len() {
                    assert(old(self).asset_origin@[kk] == self.asset_origin@[kk]);
                    assert(old(self).asset_data@[kk] == self.asset_data@[kk]);
                }
            }
            assert forall|j: int| 0 <= j < self.pages@.len() implies {
                &&& 0 <= #[trigger] self.page_assets@[j] < self.assets@.len()
                &&& self.pages@[j].asset_index == (self.page_assets@[j] as u32) as u64
                &&& xxh3_128_of(self.payloads@[j]) == self.asset_hashes@[self.page_assets@[j]]
            } by {
                if j < old(self).pages@.len() {
                    assert(old(self).page_assets@[j] == self.page_assets@[j]);
                    assert(old(self).pages@[j] == self.pages@[j]);
                    assert(old(self).payloads@[j] == self.payloads@[j]);
                    assert(old(self).asset_hashes@[old(self).page_assets@[j]]
                        == self.asset_hashes@[self.page_assets@[j]]);
                }
            }
            assert(self.string_map == old(self).string_map);
            assert(self.interned == old(self).interned);
            assert(self.section_titles == old(self).section_titles);
            assert(self.meta_keys == old(self).meta_keys);
            assert(self.meta_values == old(self).meta_values);
            assert forall|k: Seq<u8>| #[trigger] self.interned@.contains_key(k) implies self.string_stored(k) by {
                assert(old(self).interned@.contains_key(k));
                assert(old(self).string_stored(k));
            }
        }
        asset_index
    }

    /// Where the string `s` starts in the pool, adding it (and a zero byte)
    /// at the end if it is not there yet.
    #[verifier::spinoff_prover]
    fn get_or_add_str(&mut self, s: &str) -> (r: u64)
        requires
            old(self).wf_core(),
            Self::size_fits(old(self).spec_final_size() + s.spec_bytes().len() + 1),
        ensures
            final(self).wf_core(),
            r == intern_offset(old(self).interned@, old(self).string_pool@, s.spec_bytes()),
            final(self).string_pool@ == intern_pool(
                old(self).interned@,
                old(self).string_pool@,
                s.spec_bytes(),
            ),
            final(self).interned@ == intern_map(
                old(self).interned@,
                old(self).string_pool@,
                s.spec_bytes(),
            ),
            pool_holds(final(self).string_pool@, r as int, s.spec_bytes()),
            final(self).out == old(self).out,
            final(self).current_offset == old(self).current_offset,
            final(self).assets == old(self).assets,
            final(self).pages == old(self).pages,
            final(self).sections == old(self).sections,
            final(self).metadata == old(self).metadata,
            final(self).dedupe_map == old(self).dedupe_map,
            final(self).asset_hashes == old(self).asset_hashes,
            final(self).asset_data == old(self).asset_data,
            final(self).page_assets == old(self).page_assets,
            final(self).asset_origin == old(self).asset_origin,
            final(self).payloads == old(self).payloads,
            final(self).section_titles == old(self).section_titles,
            final(self).meta_keys == old(self).meta_keys,
            final(self).meta_values == old(self).meta_values,
    {
        proof {
            assert(old(self).wf_core());
        }
        let bytes = s.as_bytes();
        let mut i: usize = 0;
        while i < self.string_map.len()
            invariant
                self == old(self),
                self.wf_core(),
                bytes@ == s.spec_bytes(),
                0 <= i <= self.string_map@.len(),
                forall|j: int| 0 <= j < i ==> self.string_map@[j].0@ != bytes@,
            decreases self.string_map@.len() - i,
        {
            if bytes_eq(self.string_map[i].0.as_slice(), bytes) {
                let off = self.string_map[i].1;
                proof {
                    assert(self.interned@.contains_key(bytes@));
                    assert(self.interned@[self.string_map@[i as int].0@] == off);
                }
                return off;
            }
            i = i + 1;
        }
        proof {
            if self.interned@.contains_key(bytes@) {
                let j = choose|j: int|
                    0 <= j < self.string_map@.len() && #[trigger] self.string_map@[j].0@ == bytes@;
                assert(false);
            }
        }
        let offset = self.string_pool.len() as u64;
        let ghost old_pool = self.string_pool@;
        push_bytes(&mut self.string_pool, bytes);
        self.string_pool.push(0u8);
        let key = vstd::slice::slice_to_vec(bytes);
        self.string_map.push((key, offset));
        proof {
            let new_pool = self.string_pool@;
            assert(new_pool =~= old_pool + bytes@ + seq![0u8]);
            assert(new_pool.subrange(offset as int, offset + bytes@.len()) =~= bytes@);
            let old_dom = self.interned@.dom();
            lemma_pool_size_insert(old_dom, bytes@);
            self.interned@ = self.interned@.insert(bytes@, offset);
            assert(self.interned@.dom() =~= old_dom.insert(bytes@));
            assert forall|k1: Seq<u8>, k2: Seq<u8>|
                #[trigger] self.interned@.contains_key(k1) && #[trigger] self.interned@.contains_key(k2)
                    && k1 != k2 implies self.interned@[k1] != self.interned@[k2] by {
                if k1 != bytes@ {
                    assert(old(self).interned@.contains_key(k1));
                    assert(pool_holds(old_pool, old(self).interned@[k1] as int, k1));
                }
                if k2 != bytes@ {
                    assert(old(self).interned@.contains_key(k2));
                    assert(pool_holds(old_pool, old(self).interned@[k2] as int, k2));
                }
            }
            assert forall|i: int| 0 <= i < self.sections@.len() implies {
                &&& self.interned@.contains_key(#[trigger] self.section_titles@[i])
                &&& self.interned@[self.section_titles@[i]] == self.sections@[i].section_title_offset
            } by {
                assert(old(self).interned@.contains_key(self.section_titles@[i]));
            }
            assert forall|i: int| 0 <= i < self.metadata@.len() implies {
                &&& self.interned@.contains_key(#[trigger] self.meta_keys@[i])
                &&& self.interned@[self.meta_keys@[i]] == self.metadata@[i].key_offset
                &&& self.interned@.contains_key(self.meta_values@[i])
                &&& self.interned@[self.meta_values@[i]] == self.metadata@[i].value_offset
            } by {
                assert(old(self).interned@.contains_key(self.meta_keys@[i]));
                assert(old(self).interned@.contains_key(self.meta_values@[i]));
            }
            assert forall|k: Seq<u8>| #[trigger] self.interned@.contains_key(k) implies pool_holds(
                new_pool,
                self.interned@[k] as int,
                k,
            ) by {
                if k != bytes@ {
                    lemma_pool_holds_extend(old_pool, bytes@ + seq![0u8], old(self).interned@[k] as int, k);
                    assert(old_pool + (bytes@ + seq![0u8]) =~= new_pool);
                }
            }
            assert forall|i: int|
                0 <= i < self.sections@.len() implies pool_holds(
                new_pool,
                (#[trigger] self.sections@[i]).section_title_offset as int,
                self.section_titles@[i],
            ) by {
                lemma_pool_holds_extend(old_pool, bytes@ + seq![0u8], self.sections@[i].section_title_offset as int, self.section_titles@[i]);
                assert(old_pool + (bytes@ + seq![0u8]) =~= new_pool);
            }
            assert forall|i: int|
                0 <= i < self.metadata@.len() implies {
                &&& pool_holds(
                    new_pool,
                    (#[trigger] self.metadata@[i]).key_offset as int,
                    self.meta_keys@[i],
                )
                &&& pool_holds(new_pool, self.metadata@[i].value_offset as int, self.meta_values@[i])
                &&& self.metadata@[i].parent_offset == NO_PARENT
            } by {
                lemma_pool_holds_extend(old_pool, bytes@ + seq![0u8], self.metadata@[i].key_offset as int, self.meta_keys@[i]);
                lemma_pool_holds_extend(old_pool, bytes@ + seq![0u8], self.metadata@[i].value_offset as int, self.meta_values@[i]);
                assert(old_pool + (bytes@ + seq![0u8]) =~= new_pool);
            }
            let sm = self.string_map@;
            assert forall|k: Seq<u8>| #[trigger] self.interned@.contains_key(k) <==> exists|i: int|
                0 <= i < sm.len() && #[trigger] sm[i].0@ == k by {
                if k == bytes@ {
                    assert(sm[sm.len() - 1].0@ == k);
                } else if old(self).interned@.contains_key(k) {
                    let j = choose|j: int|
                        0 <= j < old(self).string_map@.len() && #[trigger] old(self).string_map@[j].0@ == k;
                    assert(sm[j].0@ == k);
                } else if exists|i: int| 0 <= i < sm.len() && #[trigger] sm[i].0@ == k {
                    let j = choose|j: int| 0 <= j < sm.len() && #[trigger] sm[j].0@ == k;
                    assert(old(self).string_map@[j].0@ == k);
                }
            }
            assert forall|i: int| 0 <= i < sm.len() implies self.interned@[#[trigger] sm[i].0@]
                == sm[i].1 by {
                if i < sm.len() - 1 {
                    assert(sm[i] == old(self).string_map@[i]);
                    assert(old(self).interned@[old(self).string_map@[i].0@] == sm[i].1);
                }
            }
            assert forall|i: int, j: int| 0 <= i < j < sm.len() implies #[trigger] sm[i].0@
                != #[trigger] sm[j].0@ by {
                if j == sm.len() - 1 {
                    assert(sm[i] == old(self).string_map@[i]);
                }
            }
        }
        offset
    }

    /// `b1` is `b0` after a section titled `title`, starting at page `start`,
    /// with parent `parent` was added (see `add_section`).
    pub open spec fn section_added(
        b0: BBFBuilder,
        b1: BBFBuilder,
        title: Seq<u8>,
        start: u32,
        parent: Option<u32>,
    ) -> bool {
        &&& b1.spec_sections().drop_last() == b0.spec_sections()
        &&& b1.spec_sections().len() == b0.spec_sections().len() + 1
        &&& b1.spec_sections().last().section_start_index == start as u64
        &&& b1.spec_sections().last().section_parent_offset == match parent {
            Some(v) => v as u64,
            None => NO_PARENT,
        }
        &&& b1.spec_section_titles() == b0.spec_section_titles().push(title)
    }

    /// Adds a section titled `title` starting at page `start_page`, with
    /// `parent_idx` (a section's position) as its parent, or none. The title
    /// goes into the string pool unless it is there already.
    #[verifier::spinoff_prover]
    pub fn add_section(&mut self, title: &str, start_page: u32, parent_idx: Option<u32>)
        requires
            old(self).wf(),
            Self::size_fits(old(self).spec_final_size() + title.spec_bytes().len() + 1 + 32),
        ensures
            final(self).wf(),
            ({
                let b = title.spec_bytes();
                let sec = final(self).spec_sections().last();
                &&& final(self).spec_sections().drop_last() == old(self).spec_sections()
                &&& final(self).spec_sections().len() == old(self).spec_sections().len() + 1
                &&& sec.section_title_offset == intern_offset(
                    old(self).spec_interned(),
                    old(self).spec_pool(),
                    b,
                )
                &&& sec.section_start_index == start_page as u64
                &&& sec.section_parent_offset == match parent_idx {
                    Some(v) => v as u64,
                    None => NO_PARENT,
                }
                &&& sec.reserved@ == zeros(8)
                &&& final(self).spec_pool() == intern_pool(
                    old(self).spec_interned(),
                    old(self).spec_pool(),
                    b,
                )
                &&& final(self).spec_interned() == intern_map(
                    old(self).spec_interned(),
                    old(self).spec_pool(),
                    b,
                )
                &&& final(self).spec_section_titles() == old(self).spec_section_titles().push(b)
            }),
            Self::section_added(*old(self), *final(self), title.spec_bytes(), start_page, parent_idx),
            final(self).written() == old(self).written(),
            final(self).spec_assets() == old(self).spec_assets(),
            final(self).spec_pages() == old(self).spec_pages(),
            final(self).spec_metadata() == old(self).spec_metadata(),
            final(self).spec_asset_hashes() == old(self).spec_asset_hashes(),
            final(self).spec_asset_data() == old(self).spec_asset_data(),
            final(self).spec_page_assets() == old(self).spec_page_assets(),
            final(self).spec_payloads() == old(self).spec_payloads(),
            final(self).spec_meta_keys() == old(self).spec_meta_keys(),
            final(self).spec_meta_values() == old(self).spec_meta_values(),
    {
        let title_offset = self.get_or_add_str(title);
        let ghost mid = *self;
        proof {
            assert(mid.wf_core());
        }
        let parent = match parent_idx {
            Some(v) => v as u64,
            None => NO_PARENT,
        };
        let section = BBFSection {
            section_title_offset: title_offset,
            section_start_index: start_page as u64,
            section_parent_offset: parent,
            reserved: [0u8; 8],
        };
        self.sections.push(section);
        proof {
            self.section_titles@ = self.section_titles@.push(title.spec_bytes());
            encode_utf8_valid_utf8(title@);
            assert forall|i: int| 0 <= i < self.sections@.len() implies valid_utf8(
                #[trigger] self.section_titles@[i],
            ) by {
                if i < self.sections@.len() - 1 {
                    assert(self.section_titles@[i] == old(self).section_titles@[i]);
                }
            }
            assert(section.reserved@ =~= zeros(8));
            assert forall|i: int|
                0 <= i < self.sections@.len() implies pool_holds(
                self.string_pool@,
                (#[trigger] self.sections@[i]).section_title_offset as int,
                self.section_titles@[i],
            ) by {
                if i < self.sections@.len() - 1 {
                    assert(self.sections@[i] == old(self).sections@[i]);
                }
            }
            assert(self.string_map@ == mid.string_map@);
            assert forall|k: Seq<u8>| #[trigger] self.interned@.contains_key(k) <==> exists|i: int|
                0 <= i < self.string_map@.len() && #[trigger] self.string_map@[i].0@ == k by {
                assert(mid.interned@.contains_key(k) <==> exists|i: int|
                    0 <= i < mid.string_map@.len() && #[trigger] mid.string_map@[i].0@ == k);
            }
        }
        proof {
            assert forall|k: Seq<u8>| #[trigger] self.interned@.contains_key(k) implies self.string_stored(k) by {
                if k == title.spec_bytes() {
                    assert(self.section_titles@[self.section_titles@.len() - 1] == k);
                } else {
                    assert(old(self).interned@.contains_key(k));
                    assert(old(self).string_stored(k));
                    if exists|i: int| 0 <= i < old(self).section_titles@.len() && #[trigger] old(self).section_titles@[i] == k {
                        let i = choose|i: int| 0 <= i < old(self).section_titles@.len() && #[trigger] old(self).section_titles@[i] == k;
                        assert(self.section_titles@[i] == k);
                    } else if exists|i: int| 0 <= i < old(self).meta_keys@.len() && #[trigger] old(self).meta_keys@[i] == k {
                        let i = choose|i: int| 0 <= i < old(self).meta_keys@.len() && #[trigger] old(self).meta_keys@[i] == k;
                        assert(self.meta_keys@[i] == k);
                    } else {
                        let i = choose|i: int| 0 <= i < old(self).meta_values@.len() && #[trigger] old(self).meta_values@[i] == k;
                        assert(self.meta_values@[i] == k);
                    }
                }
            }
            assert(self.sections@.drop_last() =~= old(self).sections@);
            assert(Self::section_added(*old(self), *self, title.spec_bytes(), start_page, parent_idx));
        }
    }

    /// Adds a metadata pair. The key, then the value, go into the string
    /// pool unless they are there already.
    #[verifier::spinoff_prover]
    pub fn add_metadata(&mut self, key: &str, value: &str)
        requires
            old(self).wf(),
            Self::size_fits(
                old(self).spec_final_size() + key.spec_bytes().len() + 1 + value.spec_bytes().len()
                    + 1 + 32,
            ),
        ensures
            final(self).wf(),
            ({
                let kb = key.spec_bytes();
                let vb = value.spec_bytes();
                let i0 = old(self).spec_interned();
                let p0 = old(self).spec_pool();
                let i1 = intern_map(i0, p0, kb);
                let p1 = intern_pool(i0, p0, kb);
                let m = final(self).spec_metadata().last();
                &&& final(self).spec_metadata().drop_last() == old(self).spec_metadata()
                &&& final(self).spec_metadata().len() == old(self).spec_metadata().len() + 1
                &&& m.key_offset == intern_offset(i0, p0, kb)
                &&& m.value_offset == intern_offset(i1, p1, vb)
                &&& m.parent_offset == NO_PARENT
                &&& m.reserved@ == zeros(8)
                &&& final(self).spec_pool() == intern_pool(i1, p1, vb)
                &&& final(self).spec_interned() == intern_map(i1, p1, vb)
                &&& final(self).spec_meta_keys() == old(self).spec_meta_keys().push(kb)
                &&& final(self).spec_meta_values() == old(self).spec_meta_values().push(vb)
            }),
            final(self).written() == old(self).written(),
            final(self).spec_assets() == old(self).spec_assets(),
            final(self).spec_pages() == old(self).spec_pages(),
            final(self).spec_sections() == old(self).spec_sections(),
            final(self).spec_asset_hashes() == old(self).spec_asset_hashes(),
            final(self).spec_asset_data() == old(self).spec_asset_data(),
            final(self).spec_page_assets() == old(self).spec_page_assets(),
            final(self).spec_payloads() == old(self).spec_payloads(),
            final(self).spec_section_titles() == old(self).spec_section_titles(),
    {
        let key_offset = self.get_or_add_str(key);
        let ghost mid_pool = self.string_pool@;
        let value_offset = self.get_or_add_str(value);
        let ghost mid = *self;
        proof {
            assert(mid.wf_core());
            assert(pool_holds(mid_pool, key_offset as int, key.spec_bytes()));
            if self.string_pool@ != mid_pool {
                assert(self.string_pool@ == mid_pool + value.spec_bytes() + seq![0u8]);
                lemma_pool_holds_extend(mid_pool, value.spec_bytes() + seq![0u8], key_offset as int, key.spec_bytes());
                assert(mid_pool + (value.spec_bytes() + seq![0u8]) =~= self.string_pool@);
            }
        }
        let meta = BBFMetadata {
            key_offset,
            value_offset,
            parent_offset: NO_PARENT,
            reserved: [0u8; 8],
        };
        self.metadata.push(meta);
        proof {
            self.meta_keys@ = self.meta_keys@.push(key.spec_bytes());
            self.meta_values@ = self.meta_values@.push(value.spec_bytes());
            encode_utf8_valid_utf8(key@);
            encode_utf8_valid_utf8(value@);
            assert forall|i: int| 0 <= i < self.metadata@.len() implies valid_utf8(
                #[trigger] self.meta_keys@[i],
            ) && valid_utf8(self.meta_values@[i]) by {
                if i < self.metadata@.len() - 1 {
                    assert(self.meta_keys@[i] == old(self).meta_keys@[i]);
                    assert(self.meta_values@[i] == old(self).meta_values@[i]);
                }
            }
            assert(meta.reserved@ =~= zeros(8));
            assert forall|i: int|
                0 <= i < self.metadata@.len() implies {
                &&& pool_holds(
                    self.string_pool@,
                    (#[trigger] self.metadata@[i]).key_offset as int,
                    self.meta_keys@[i],
                )
                &&& pool_holds(self.string_pool@, self.metadata@[i].value_offset as int, self.meta_values@[i])
                &&& self.metadata@[i].parent_offset == NO_PARENT
            } by {
                if i < self.metadata@.len() - 1 {
                    assert(self.metadata@[i] == old(self).metadata@[i]);
                }
            }
            assert(self.string_map@ == mid.string_map@);
            assert forall|k: Seq<u8>| #[trigger] self.interned@.contains_key(k) <==> exists|i: int|
                0 <= i < self.string_map@.len() && #[trigger] self.string_map@[i].0@ == k by {
                assert(mid.interned@.contains_key(k) <==> exists|i: int|
                    0 <= i < mid.string_map@.len() && #[trigger] mid.string_map@[i].0@ == k);
            }
        }
        proof {
            assert forall|k: Seq<u8>| #[trigger] self.interned@.contains_key(k) implies self.string_stored(k) by {
                if k == key.spec_bytes() {
                    assert(self.meta_keys@[self.meta_keys@.len() - 1] == k);
                } else if k == value.spec_bytes() {
                    assert(self.meta_values@[self.meta_values@.len() - 1] == k);
                } else {
                    assert(old(self).interned@.contains_key(k));
                    assert(old(self).string_stored(k));
                    if exists|i: int| 0 <= i < old(self).section_titles@.len() && #[trigger] old(self).section_titles@[i] == k {
                        let i = choose|i: int| 0 <= i < old(self).section_titles@.len() && #[trigger] old(self).section_titles@[i] == k;
                        assert(self.section_titles@[i] == k);
                    } else if exists|i: int| 0 <= i < old(self).meta_keys@.len() && #[trigger] old(self).meta_keys@[i] == k {
                        let i = choose|i: int| 0 <= i < old(self).meta_keys@.len() && #[trigger] old(self).meta_keys@[i] == k;
                        assert(self.meta_keys@[i] == k);
                    } else {
                        let i = choose|i: int| 0 <= i < old(self).meta_values@.len() && #[trigger] old(self).meta_values@[i] == k;
                        assert(self.meta_values@[i] == k);
                    }
                }
            }
        }
    }

    /// The size in bytes the file will have once finished.
    pub fn final_size(&self) -> (r: u64)
        requires
            self.wf(),
        ensures
            r == self.spec_final_size(),
    {
        self.current_offset + 48 * (self.assets.len() as u64) + 16 * (self.pages.len() as u64) + 32
            * (self.sections.len() as u64) + 32 * (self.metadata.len() as u64)
            + self.string_pool.len() as u64 + 256
    }

    /// Finishes the file: writes the asset, page, section and metadata
    /// tables (section and metadata string offsets moved to absolute file
    /// positions), the string pool, and a footer holding where each lies, how
    /// many entries each has, and the XXH3-64 hash of all of them; then sets
    /// the header's footer offset. Returns the file's bytes.
    #[verifier::spinoff_prover]
    pub fn finalize(self) -> (r: Vec<u8>)
        requires
            self.wf(),
        ensures
            r@ == self.spec_image(),
    {
        proof {
            assert(self.wf());
        }
        let na = self.assets.len() as u64;
        let np = self.pages.len() as u64;
        let ns = self.sections.len() as u64;
        let nm = self.metadata.len() as u64;
        let asset_offset = self.current_offset;
        let page_offset = asset_offset + 48 * na;
        let section_offset = page_offset + 16 * np;
        let meta_offset = section_offset + 32 * ns;
        let pool_offset = meta_offset + 32 * nm;
        let mut tables: Vec<u8> = Vec::new();
        let mut i: usize = 0;
        while i < self.assets.len()
            invariant
                0 <= i <= self.assets@.len(),
                tables@ == asset_table_bytes(self.assets@.subrange(0, i as int)),
            decreases self.assets@.len() - i,
        {
            let b = self.assets[i].to_bytes();
            push_bytes(&mut tables, b.as_slice());
            proof {
                let f = |e: BBFAssetEntry| e.encoded();
                assert(self.assets@.subrange(0, i + 1).map_values(f) =~= self.assets@.subrange(
                    0,
                    i as int,
                ).map_values(f).push(f(self.assets@[i as int])));
                lemma_concat_push(self.assets@.subrange(0, i as int).map_values(f), f(self.assets@[i as int]));
            }
            i = i + 1;
        }
        proof {
            assert(self.assets@.subrange(0, self.assets@.len() as int) =~= self.assets@);
        }
        let ghost t1 = tables@;
        let mut i: usize = 0;
        while i < self.pages.len()
            invariant
                0 <= i <= self.pages@.len(),
                tables@ == t1 + page_table_bytes(self.pages@.subrange(0, i as int)),
            decreases self.pages@.len() - i,
        {
            let b = self.pages[i].to_bytes();
            push_bytes(&mut tables, b.as_slice());
            proof {
                let f = |e: BBFPageEntry| e.encoded();
                assert(self.pages@.subrange(0, i + 1).map_values(f) =~= self.pages@.subrange(
                    0,
                    i as int,
                ).map_values(f).push(f(self.pages@[i as int])));
                lemma_concat_push(self.pages@.subrange(0, i as int).map_values(f), f(self.pages@[i as int]));
            }
            i = i + 1;
        }
        proof {
            assert(self.pages@.subrange(0, self.pages@.len() as int) =~= self.pages@);
        }
        let ghost t2 = tables@;
        let mut i: usize = 0;
        while i < self.sections.len()
            invariant
                self.wf(),
                pool_offset == self.spec_pool_offset(),
                0 <= i <= self.sections@.len(),
                tables@ == t2 + section_table_bytes(self.sections@.subrange(0, i as int), pool_offset),
            decreases self.sections@.len() - i,
        {
            proof {
                let sec = self.sections@[i as int];
                assert(pool_holds(self.string_pool@, sec.section_title_offset as int, self.section_titles@[i as int]));
            }
            let fs = finish_section(&self.sections[i], pool_offset);
            let b = fs.to_bytes();
            push_bytes(&mut tables, b.as_slice());
            proof {
                let f = |e: BBFSection| finished_section(e, pool_offset).encoded();
                assert(self.sections@.subrange(0, i + 1).map_values(f) =~= self.sections@.subrange(
                    0,
                    i as int,
                ).map_values(f).push(f(self.sections@[i as int])));
                lemma_concat_push(self.sections@.subrange(0, i as int).map_values(f), f(self.sections@[i as int]));
            }
            i = i + 1;
        }
        proof {
            assert(self.sections@.subrange(0, self.sections@.len() as int) =~= self.sections@);
        }
        let ghost t3 = tables@;
        let mut i: usize = 0;
        while i < self.metadata.len()
            invariant
                self.wf(),
                pool_offset == self.spec_pool_offset(),
                0 <= i <= self.metadata@.len(),
                tables@ == t3 + metadata_table_bytes(self.metadata@.subrange(0, i as int), pool_offset),
            decreases self.metadata@.len() - i,
        {
            proof {
                let m = self.metadata@[i as int];
                assert(pool_holds(self.string_pool@, m.key_offset as int, self.meta_keys@[i as int]));
            }
            let fm = finish_metadata(&self.metadata[i], pool_offset);
            let b = fm.to_bytes();
            push_bytes(&mut tables, b.as_slice());
            proof {
                let f = |e: BBFMetadata| finished_metadata(e, pool_offset).encoded();
                assert(self.metadata@.subrange(0, i + 1).map_values(f) =~= self.metadata@.subrange(
                    0,
                    i as int,
                ).map_values(f).push(f(self.metadata@[i as int])));
                lemma_concat_push(self.metadata@.subrange(0, i as int).map_values(f), f(self.metadata@[i as int]));
            }
            i = i + 1;
        }
        proof {
            assert(self.metadata@.subrange(0, self.metadata@.len() as int) =~= self.metadata@);
        }
        push_bytes(&mut tables, self.string_pool.as_slice());
        proof {
            assert(tables@ =~= self.spec_tables());
            lemma_table_lengths(self.assets@, self.pages@, self.sections@, self.metadata@, pool_offset);
        }
        let footer_hash = xxh3_64(tables.as_slice());
        let footer = BBFFooter {
            asset_offset,
            page_offset,
            section_offset,
            meta_offset,
            expansion_offset: 0,
            string_pool_offset: pool_offset,
            string_pool_size: self.string_pool.len() as u64,
            asset_count: na,
            page_count: np,
            section_count: ns,
            meta_count: nm,
            expansion_count: 0,
            flags: 0,
            footer_len: 256,
            padding: [0u8; 2],
            footer_hash,
            reserved: [0u8; 144],
        };
        proof {
            assert(footer == self.spec_footer());
        }
        let mut out = self.out;
        let footer_offset = asset_offset + tables.len() as u64;
        push_bytes(&mut out, tables.as_slice());
        let fb = footer.to_bytes();
        push_bytes(&mut out, fb.as_slice());
        let ghost full = out@;
        let le = u64_to_le_bytes(footer_offset);
        let mut j: usize = 0;
        while j < 8
            invariant
                0 <= j <= 8,
                le@.len() == 8,
                out@.len() == full.len(),
                full.len() >= 64,
                forall|k: int| 0 <= k < full.len() && !(16 <= k < 16 + j) ==> out@[k] == full[k],
                forall|k: int| 16 <= k < 16 + j ==> out@[k] == le@[k - 16],
            decreases 8 - j,
        {
            out.set(16 + j, le[j]);
            j = j + 1;
        }
        proof {
            assert(out@ =~= self.spec_image());
        }
        out
    }

    /// The finished file before its footer offset is set.
    pub open spec fn spec_unpatched(&self) -> Seq<u8> {
        self.written() + self.spec_tables() + self.spec_footer().encoded()
    }

    /// The finished file differs from its unpatched form only in the
    /// footer offset; it is as long, opens with the magic, and its footer
    /// offset is where the footer starts.
    proof fn lemma_image_basics(&self)
        requires
            self.wf(),
        ensures
            self.spec_tables().len() == 48 * self.spec_assets().len() + 16 * self.spec_pages().len()
                + 32 * self.spec_sections().len() + 32 * self.spec_metadata().len()
                + self.spec_pool().len(),
            self.spec_image().len() == self.spec_unpatched().len(),
            self.spec_image().len() == self.written().len() + self.spec_tables().len() + 256,
            self.spec_image().len() == self.spec_final_size(),
            footer_pos(self.spec_image()) == self.written().len() + self.spec_tables().len(),
            self.spec_image().subrange(0, 4) == magic_bytes(),
            self.spec_footer().encoded().len() == 256,
    {
        lemma_le_roundtrips();
        lemma_table_lengths(
            self.assets@,
            self.pages@,
            self.sections@,
            self.metadata@,
            self.spec_pool_offset(),
        );
        self.spec_footer().lemma_layout();
        let d = self.spec_image();
        let fo = (self.written().len() + self.spec_tables().len()) as u64;
        assert(d.subrange(16, 24) =~= spec_u64_to_le_bytes(fo));
        assert(d.subrange(0, 4) =~= self.out@.subrange(0, 64).subrange(0, 4));
        assert(initial_header_bytes().subrange(0, 4) =~= magic_bytes());
    }

    /// Away from the footer offset, the finished file is its unpatched form.
    proof fn lemma_image_sub(&self, a: int, b: int)
        requires
            self.wf(),
            24 <= a <= b <= self.spec_image().len(),
        ensures
            self.spec_image().subrange(a, b) == self.spec_unpatched().subrange(a, b),
    {
        self.lemma_image_basics();
        assert(self.spec_image().subrange(a, b) =~= self.spec_unpatched().subrange(a, b));
    }

    /// The footer the finished file's header points at is `spec_footer`.
    proof fn lemma_image_footer(&self)
        requires
            self.wf(),
        ensures
            ({
                let d = self.spec_image();
                let f = self.spec_footer();
                let fo = footer_pos(d);
                &&& d.subrange(fo, fo + 256) == f.encoded()
                &&& asset_offset_of(d) == f.asset_offset
                &&& page_offset_of(d) == f.page_offset
                &&& section_offset_of(d) == f.section_offset
                &&& meta_offset_of(d) == f.meta_offset
                &&& pool_offset_of(d) == f.string_pool_offset
                &&& pool_size_of(d) == f.string_pool_size
                &&& asset_count_of(d) == f.asset_count
                &&& page_count_of(d) == f.page_count
                &&& section_count_of(d) == f.section_count
                &&& meta_count_of(d) == f.meta_count
            }),
    {
        self.lemma_image_basics();
        let d = self.spec_image();
        let fo = footer_pos(d);
        let u = self.spec_unpatched();
        self.lemma_image_sub(fo, fo + 256);
        assert(u.subrange(fo, fo + 256) =~= self.spec_footer().encoded());
        self.spec_footer().lemma_layout();
        lemma_u64_at_subrange(d, fo, fo + 256, 0);
        lemma_u64_at_subrange(d, fo, fo + 256, 8);
        lemma_u64_at_subrange(d, fo, fo + 256, 16);
        lemma_u64_at_subrange(d, fo, fo + 256, 24);
        lemma_u64_at_subrange(d, fo, fo + 256, 40);
        lemma_u64_at_subrange(d, fo, fo + 256, 48);
        lemma_u64_at_subrange(d, fo, fo + 256, 56);
        lemma_u64_at_subrange(d, fo, fo + 256, 64);
        lemma_u64_at_subrange(d, fo, fo + 256, 72);
        lemma_u64_at_subrange(d, fo, fo + 256, 80);
    }

    /// A finished file parses: it is long enough, opens with the magic, and
    /// its footer, tables and string pool lie inside it.
    pub proof fn lemma_finished_file_parses(&self)
        requires
            self.wf(),
        ensures
            parse_outcome(self.spec_image()) == Ok::<(), BBFError>(()),
            asset_count_of(self.spec_image()) == self.spec_assets().len(),
            page_count_of(self.spec_image()) == self.spec_pages().len(),
            section_count_of(self.spec_image()) == self.spec_sections().len(),
            meta_count_of(self.spec_image()) == self.spec_metadata().len(),
            asset_offset_of(self.spec_image()) == self.written().len(),
            page_offset_of(self.spec_image()) == self.written().len() + 48 * self.spec_assets().len(),
            section_offset_of(self.spec_image()) == self.written().len() + 48 * self.spec_assets().len()
                + 16 * self.spec_pages().len(),
            meta_offset_of(self.spec_image()) == self.written().len() + 48 * self.spec_assets().len()
                + 16 * self.spec_pages().len() + 32 * self.spec_sections().len(),
            pool_offset_of(self.spec_image()) == self.spec_pool_offset(),
            pool_size_of(self.spec_image()) == self.spec_pool().len(),
            self.spec_pool_offset() + self.spec_pool().len() <= self.spec_image().len(),
    {
        self.lemma_image_basics();
        self.lemma_image_footer();
    }

    /// Within the finished file, bytes `x..x + n` of the tables lie at the
    /// written length plus `x`.
    proof fn lemma_image_tables_sub(&self, x: int, n: int)
        requires
            self.wf(),
            0 <= x,
            0 <= n,
            x + n <= self.spec_tables().len(),
        ensures
            self.spec_image().subrange(self.written().len() + x, self.written().len() + x + n)
                == self.spec_tables().subrange(x, x + n),
    {
        self.lemma_image_basics();
        let w = self.written().len() as int;
        self.lemma_image_sub(w + x, w + x + n);
        assert(self.spec_unpatched().subrange(w + x, w + x + n) =~= self.spec_tables().subrange(
            x,
            x + n,
        ));
    }

    /// Each table of the finished file holds the builder's entries, with
    /// section and metadata string offsets moved by the pool's position.
    #[verifier::spinoff_prover]
    #[verifier::rlimit(40)]
    pub proof fn lemma_finished_file_tables(&self)
        requires
            self.wf(),
        ensures
            ({
                let d = self.spec_image();
                let po = self.spec_pool_offset();
                &&& forall|k: int|
                    0 <= k < self.spec_assets().len() ==> entry_bytes(
                        d,
                        asset_offset_of(d),
                        k,
                        48,
                    ) == (#[trigger] self.spec_assets()[k]).encoded()
                &&& forall|j: int|
                    0 <= j < self.spec_pages().len() ==> entry_bytes(d, page_offset_of(d), j, 16)
                        == (#[trigger] self.spec_pages()[j]).encoded()
                &&& forall|i: int|
                    0 <= i < self.spec_sections().len() ==> entry_bytes(
                        d,
                        section_offset_of(d),
                        i,
                        32,
                    ) == finished_section(#[trigger] self.spec_sections()[i], po).encoded()
                &&& forall|i: int|
                    0 <= i < self.spec_metadata().len() ==> entry_bytes(d, meta_offset_of(d), i, 32)
                        == finished_metadata(#[trigger] self.spec_metadata()[i], po).encoded()
            }),
    {
        self.lemma_finished_file_parses();
        let d = self.spec_image();
        let po = self.spec_pool_offset();
        let a = self.assets@;
        let p = self.pages@;
        let sc = self.sections@;
        let m = self.metadata@;
        let w = self.written().len() as int;
        let t = self.spec_tables();
        lemma_table_lengths(a, p, sc, m, po);
        let at = asset_table_bytes(a);
        let pt = page_table_bytes(p);
        let st = section_table_bytes(sc, po);
        let mt = metadata_table_bytes(m, po);
        let na = a.len() as int;
        let np = p.len() as int;
        let ns = sc.len() as int;
        let nm = m.len() as int;
        let fa = |e: BBFAssetEntry| e.encoded();
        let fp = |e: BBFPageEntry| e.encoded();
        let fs = |e: BBFSection| finished_section(e, po).encoded();
        let fm = |e: BBFMetadata| finished_metadata(e, po).encoded();
        assert forall|j: int| 0 <= j < na implies (#[trigger] a.map_values(fa)[j]).len() == 48 by {
            a[j].lemma_layout();
        }
        assert forall|j: int| 0 <= j < np implies (#[trigger] p.map_values(fp)[j]).len() == 16 by {
            p[j].lemma_layout();
        }
        assert forall|j: int| 0 <= j < ns implies (#[trigger] sc.map_values(fs)[j]).len() == 32 by {
            finished_section(sc[j], po).lemma_layout();
        }
        assert forall|j: int| 0 <= j < nm implies (#[trigger] m.map_values(fm)[j]).len() == 32 by {
            finished_metadata(m[j], po).lemma_layout();
        }
        assert forall|k: int| 0 <= k < na implies entry_bytes(d, asset_offset_of(d), k, 48)
            == (#[trigger] a[k]).encoded() by {
            lemma_concat_uniform_index(a.map_values(fa), 48, k);
            self.lemma_image_tables_sub(48 * k, 48);
            assert(t.subrange(48 * k, 48 * k + 48) =~= at.subrange(48 * k, 48 * k + 48));
        }
        assert forall|j: int| 0 <= j < np implies entry_bytes(d, page_offset_of(d), j, 16)
            == (#[trigger] p[j]).encoded() by {
            lemma_concat_uniform_index(p.map_values(fp), 16, j);
            self.lemma_image_tables_sub(48 * na + 16 * j, 16);
            assert(t.subrange(48 * na + 16 * j, 48 * na + 16 * j + 16) =~= pt.subrange(
                16 * j,
                16 * j + 16,
            ));
        }
        assert forall|i: int| 0 <= i < ns implies entry_bytes(d, section_offset_of(d), i, 32)
            == finished_section(#[trigger] sc[i], po).encoded() by {
            lemma_concat_uniform_index(sc.map_values(fs), 32, i);
            let x = 48 * na + 16 * np + 32 * i;
            self.lemma_image_tables_sub(x, 32);
            assert(t.subrange(x, x + 32) =~= st.subrange(32 * i, 32 * i + 32));
        }
        assert forall|i: int| 0 <= i < nm implies entry_bytes(d, meta_offset_of(d), i, 32)
            == finished_metadata(#[trigger] m[i], po).encoded() by {
            lemma_concat_uniform_index(m.map_values(fm), 32, i);
            let x = 48 * na + 16 * np + 32 * ns + 32 * i;
            self.lemma_image_tables_sub(x, 32);
            assert(t.subrange(x, x + 32) =~= mt.subrange(32 * i, 32 * i + 32));
        }
    }

    /// Each asset of the finished file reads back as the bytes written for it.
    #[verifier::spinoff_prover]
    pub proof fn lemma_finished_file_assets(&self)
        requires
            self.wf(),
        ensures
            forall|k: int|
                0 <= k < self.spec_assets().len() ==> asset_outcome(self.spec_image(), k as u64)
                    == Ok::<Seq<u8>, BBFError>(#[trigger] self.spec_asset_data()[k]),
    {
        self.lemma_finished_file_tables();
        self.lemma_finished_file_parses();
        self.lemma_image_basics();
        self.lemma_assets();
        let d = self.spec_image();
        assert forall|k: int| 0 <= k < self.spec_assets().len() implies asset_outcome(d, k as u64)
            == Ok::<Seq<u8>, BBFError>(#[trigger] self.spec_asset_data()[k]) by {
            let e = self.spec_assets()[k];
            e.lemma_layout();
            let off = e.file_offset as int;
            let size = e.file_size as int;
            self.lemma_image_sub(off, off + size);
            assert(self.spec_unpatched().subrange(off, off + size) =~= self.written().subrange(
                off,
                off + size,
            ));
        }
    }

    /// A string the pool holds at `o` reads back from the finished file at
    /// `o` plus the pool's position, when it has no zero byte.
    proof fn lemma_image_string(&self, o: int, t: Seq<u8>)
        requires
            self.wf(),
            pool_holds(self.spec_pool(), o, t),
            !t.contains(0u8),
        ensures
            string_bytes_at(self.spec_image(), (o + self.spec_pool_offset()) as u64) == Some(t),
    {
        self.lemma_finished_file_parses();
        self.lemma_image_basics();
        let d = self.spec_image();
        let po = self.spec_pool_offset() as int;
        let pool = self.spec_pool();
        let end = po + pool.len();
        let w = self.written().len() as int;
        self.lemma_image_tables_sub(po + o - w, pool.len() - o);
        let t_all = self.spec_tables();
        assert(t_all.subrange(po + o - w, po + o - w + pool.len() - o) =~= pool.subrange(
            o,
            pool.len() as int,
        ));
        let rest = d.subrange(po + o, end);
        assert(rest =~= pool.subrange(o, pool.len() as int));
        assert forall|j: int| 0 <= j < t.len() implies rest[j] != 0 by {
            assert(pool.subrange(o, o + t.len())[j] == t[j]);
            if t[j] == 0 {
                assert(t.contains(0u8));
            }
        }
        lemma_nul_pos(rest, t.len() as int);
        assert(rest.subrange(0, t.len() as int) =~= t);
    }

    /// Each section title and each metadata key and value of the finished
    /// file reads back, at its stored offset, as the bytes it was added with
    /// (valid UTF-8), when those bytes hold no zero byte.
    #[verifier::spinoff_prover]
    pub proof fn lemma_finished_file_strings(&self)
        requires
            self.wf(),
        ensures
            ({
                let d = self.spec_image();
                let po = self.spec_pool_offset();
                &&& forall|i: int|
                    0 <= i < self.spec_sections().len() ==> valid_utf8(
                        #[trigger] self.spec_section_titles()[i],
                    ) && (!self.spec_section_titles()[i].contains(0u8) ==> string_bytes_at(
                        d,
                        finished_section(self.spec_sections()[i], po).section_title_offset,
                    ) == Some(self.spec_section_titles()[i]))
                &&& forall|i: int|
                    0 <= i < self.spec_metadata().len() ==> valid_utf8(
                        #[trigger] self.spec_meta_keys()[i],
                    ) && (!self.spec_meta_keys()[i].contains(0u8) ==> string_bytes_at(
                        d,
                        finished_metadata(self.spec_metadata()[i], po).key_offset,
                    ) == Some(self.spec_meta_keys()[i]))
                &&& forall|i: int|
                    0 <= i < self.spec_metadata().len() ==> valid_utf8(
                        #[trigger] self.spec_meta_values()[i],
                    ) && (!self.spec_meta_values()[i].contains(0u8) ==> string_bytes_at(
                        d,
                        finished_metadata(self.spec_metadata()[i], po).value_offset,
                    ) == Some(self.spec_meta_values()[i]))
            }),
    {
        let po = self.spec_pool_offset();
        assert forall|i: int| 0 <= i < self.spec_sections().len() implies valid_utf8(
            #[trigger] self.spec_section_titles()[i],
        ) && (!self.spec_section_titles()[i].contains(0u8) ==> string_bytes_at(
            self.spec_image(),
            finished_section(self.spec_sections()[i], po).section_title_offset,
        ) == Some(self.spec_section_titles()[i])) by {
            let sec = self.sections@[i];
            assert(pool_holds(self.string_pool@, sec.section_title_offset as int, self.section_titles@[i]));
            if !self.section_titles@[i].contains(0u8) {
                self.lemma_image_string(sec.section_title_offset as int, self.section_titles@[i]);
            }
        }
        assert forall|i: int| 0 <= i < self.spec_metadata().len() implies valid_utf8(
            #[trigger] self.spec_meta_keys()[i],
        ) && (!self.spec_meta_keys()[i].contains(0u8) ==> string_bytes_at(
            self.spec_image(),
            finished_metadata(self.spec_metadata()[i], po).key_offset,
        ) == Some(self.spec_meta_keys()[i])) by {
            let m = self.metadata@[i];
            assert(pool_holds(self.string_pool@, m.key_offset as int, self.meta_keys@[i]));
            if !self.meta_keys@[i].contains(0u8) {
                self.lemma_image_string(m.key_offset as int, self.meta_keys@[i]);
            }
        }
        assert forall|i: int| 0 <= i < self.spec_metadata().len() implies valid_utf8(
            #[trigger] self.spec_meta_values()[i],
        ) && (!self.spec_meta_values()[i].contains(0u8) ==> string_bytes_at(
            self.spec_image(),
            finished_metadata(self.spec_metadata()[i], po).value_offset,
        ) == Some(self.spec_meta_values()[i])) by {
            let m = self.metadata@[i];
            assert(pool_holds(self.string_pool@, m.key_offset as int, self.meta_keys@[i]));
            if !self.meta_values@[i].contains(0u8) {
                self.lemma_image_string(m.value_offset as int, self.meta_values@[i]);
            }
        }
    }

    /// Each page of the finished file names, in its entry, the asset its
    /// image was stored as (while there are at most 2^32 assets, so that the
    /// index fits the `u32` `add_page` returns), and that asset reads back as
    /// bytes with the same XXH3-128 hash as the image the page was added
    /// with; when no two different images added share a hash, as exactly that
    /// image.
    #[verifier::spinoff_prover]
    pub proof fn lemma_finished_file_pages(&self)
        requires
            self.wf(),
            self.spec_assets().len() <= 0x1_0000_0000,
        ensures
            ({
                let d = self.spec_image();
                &&& page_count_of(d) == self.spec_pages().len()
                &&& forall|j: int|
                    0 <= j < self.spec_pages().len() ==> {
                        let k = #[trigger] self.spec_page_assets()[j];
                        &&& u64_at(entry_bytes(d, page_offset_of(d), j, 16), 0) == k
                        &&& asset_outcome(d, k as u64) == Ok::<Seq<u8>, BBFError>(
                            self.spec_asset_data()[k],
                        )
                        &&& xxh3_128_of(self.spec_asset_data()[k]) == xxh3_128_of(
                            self.spec_payloads()[j],
                        )
                        &&& (forall|j1: int, j2: int|
                            0 <= j1 < self.spec_pages().len() && 0 <= j2 < self.spec_pages().len()
                                && xxh3_128_of(#[trigger] self.spec_payloads()[j1]) == xxh3_128_of(
                                #[trigger] self.spec_payloads()[j2],
                            ) ==> self.spec_payloads()[j1] == self.spec_payloads()[j2])
                            ==> self.spec_asset_data()[k] == self.spec_payloads()[j]
                    }
            }),
    {
        self.lemma_finished_file_tables();
        self.lemma_finished_file_parses();
        self.lemma_finished_file_assets();
        self.lemma_pages();
        self.lemma_assets();
        let d = self.spec_image();
        assert forall|j: int| 0 <= j < self.spec_pages().len() implies {
            let k = #[trigger] self.spec_page_assets()[j];
            &&& u64_at(entry_bytes(d, page_offset_of(d), j, 16), 0) == k
            &&& asset_outcome(d, k as u64) == Ok::<Seq<u8>, BBFError>(self.spec_asset_data()[k])
            &&& xxh3_128_of(self.spec_asset_data()[k]) == xxh3_128_of(self.spec_payloads()[j])
            &&& (forall|j1: int, j2: int|
                0 <= j1 < self.spec_pages().len() && 0 <= j2 < self.spec_pages().len()
                    && xxh3_128_of(#[trigger] self.spec_payloads()[j1]) == xxh3_128_of(
                    #[trigger] self.spec_payloads()[j2],
                ) ==> self.spec_payloads()[j1] == self.spec_payloads()[j2])
                ==> self.spec_asset_data()[k] == self.spec_payloads()[j]
        } by {
            let k = self.spec_page_assets()[j];
            self.spec_pages()[j].lemma_layout();
            assert((k as u32) as u64 == k);
            let o = self.asset_origin@[k];
            assert(self.payloads@[o] == self.asset_data@[k]);
        }
    }

    /// The section table of the finished file holds the sections in the
    /// order they were added: each with the first page it was added with, and
    /// a parent exactly when it was added with one; the metadata table holds
    /// no parents.
    pub proof fn lemma_finished_file_sections(&self)
        requires
            self.wf(),
        ensures
            ({
                let d = self.spec_image();
                &&& section_count_of(d) == self.spec_sections().len()
                &&& meta_count_of(d) == self.spec_metadata().len()
                &&& forall|i: int|
                    0 <= i < self.spec_sections().len() ==> {
                        let e = #[trigger] entry_bytes(d, section_offset_of(d), i, 32);
                        &&& u64_at(e, 8) == self.spec_sections()[i].section_start_index
                        &&& (u64_at(e, 16) == NO_PARENT <==> self.spec_sections()[i].section_parent_offset
                            == NO_PARENT)
                    }
                &&& forall|i: int|
                    0 <= i < self.spec_metadata().len() ==> u64_at(
                        #[trigger] entry_bytes(d, meta_offset_of(d), i, 32),
                        16,
                    ) == NO_PARENT
            }),
    {
        self.lemma_finished_file_parses();
        self.lemma_finished_file_tables();
        self.lemma_finished_file_layout();
        let d = self.spec_image();
        let po = self.spec_pool_offset();
        assert forall|i: int| 0 <= i < self.spec_sections().len() implies {
            let e = #[trigger] entry_bytes(d, section_offset_of(d), i, 32);
            &&& u64_at(e, 8) == self.spec_sections()[i].section_start_index
            &&& (u64_at(e, 16) == NO_PARENT <==> self.spec_sections()[i].section_parent_offset
                == NO_PARENT)
        } by {
            let sec = self.spec_sections()[i];
            finished_section(sec, po).lemma_layout();
        }
        assert forall|i: int| 0 <= i < self.spec_metadata().len() implies u64_at(
            #[trigger] entry_bytes(d, meta_offset_of(d), i, 32),
            16,
        ) == NO_PARENT by {
            let m = self.spec_metadata()[i];
            finished_metadata(m, po).lemma_layout();
        }
    }

    /// The strings the file stores, with the pool offset each is stored at:
    /// section titles, then metadata keys, then metadata values.
    pub open spec fn stored_strings(&self) -> Seq<(u64, Seq<u8>)> {
        Seq::new(
            self.spec_sections().len(),
            |i: int| (self.spec_sections()[i].section_title_offset, self.spec_section_titles()[i]),
        ) + Seq::new(
            self.spec_metadata().len(),
            |i: int| (self.spec_metadata()[i].key_offset, self.spec_meta_keys()[i]),
        ) + Seq::new(
            self.spec_metadata().len(),
            |i: int| (self.spec_metadata()[i].value_offset, self.spec_meta_values()[i]),
        )
    }

    /// The distinct strings the file stores.
    pub open spec fn stored_string_set(&self) -> Set<Seq<u8>> {
        Set::new(
            |k: Seq<u8>|
                exists|a: int| 0 <= a < self.stored_strings().len() && #[trigger] self.stored_strings()[a].1 == k,
        )
    }

    /// Titles, keys and values share one pool of strings: the strings in it
    /// are exactly the distinct stored ones, each held once with a zero byte
    /// after it; two stored strings share an offset exactly when they are
    /// equal.
    #[verifier::spinoff_prover]
    #[verifier::rlimit(40)]
    pub proof fn lemma_string_pool_shared(&self)
        requires
            self.wf(),
        ensures
            self.spec_interned().dom() == self.stored_string_set(),
            self.spec_pool().len() == pool_size_of_strings(self.stored_string_set()),
            forall|a: int, c: int|
                0 <= a < self.stored_strings().len() && 0 <= c < self.stored_strings().len()
                    && #[trigger] self.stored_strings()[a].1 == #[trigger] self.stored_strings()[c].1
                    ==> self.stored_strings()[a].0 == self.stored_strings()[c].0,
            forall|a: int, c: int|
                0 <= a < self.stored_strings().len() && 0 <= c < self.stored_strings().len()
                    && #[trigger] self.stored_strings()[a].0 == #[trigger] self.stored_strings()[c].0
                    ==> self.stored_strings()[a].1 == self.stored_strings()[c].1,
    {
        let ss = self.stored_strings();
        let ns = self.sections@.len() as int;
        let nm = self.metadata@.len() as int;
        assert(ss.len() == ns + 2 * nm);
        // Each stored string is interned at its offset, and the pool holds it there.
        assert forall|a: int| 0 <= a < ss.len() implies {
            &&& self.interned@.contains_key(#[trigger] ss[a].1)
            &&& self.interned@[ss[a].1] == ss[a].0
            &&& pool_holds(self.string_pool@, ss[a].0 as int, ss[a].1)
        } by {
            if a < ns {
                assert(ss[a] == (self.sections@[a].section_title_offset, self.section_titles@[a]));
            } else if a < ns + nm {
                let i = a - ns;
                assert(ss[a] == (self.metadata@[i].key_offset, self.meta_keys@[i]));
            } else {
                let i = a - ns - nm;
                assert(ss[a] == (self.metadata@[i].value_offset, self.meta_values@[i]));
            }
        }
        assert forall|k: Seq<u8>| self.interned@.dom().contains(k) == self.stored_string_set().contains(k) by {
            if self.interned@.contains_key(k) {
                assert(self.string_stored(k));
                if exists|i: int| 0 <= i < self.section_titles@.len() && #[trigger] self.section_titles@[i] == k {
                    let i = choose|i: int| 0 <= i < self.section_titles@.len() && #[trigger] self.section_titles@[i] == k;
                    assert(ss[i].1 == k);
                } else if exists|i: int| 0 <= i < self.meta_keys@.len() && #[trigger] self.meta_keys@[i] == k {
                    let i = choose|i: int| 0 <= i < self.meta_keys@.len() && #[trigger] self.meta_keys@[i] == k;
                    assert(ss[ns + i].1 == k);
                } else {
                    let i = choose|i: int| 0 <= i < self.meta_values@.len() && #[trigger] self.meta_values@[i] == k;
                    assert(ss[ns + nm + i].1 == k);
                }
            }
            if self.stored_string_set().contains(k) {
                let a = choose|a: int| 0 <= a < ss.len() && #[trigger] ss[a].1 == k;
                assert(self.interned@.contains_key(ss[a].1));
            }
        }
        assert(self.spec_interned().dom() =~= self.stored_string_set());
        assert forall|a: int, c: int|
            0 <= a < ss.len() && 0 <= c < ss.len() && #[trigger] ss[a].0 == #[trigger] ss[c].0
                implies ss[a].1 == ss[c].1 by {
            assert(self.interned@.contains_key(ss[a].1));
            assert(self.interned@.contains_key(ss[c].1));
        }
    }

    /// The XXH3-128 hash of each page's image.
    pub open spec fn page_hashes(&self) -> Seq<u128> {
        self.spec_payloads().map_values(|p: Seq<u8>| xxh3_128_of(p))
    }

    /// Each distinct image (by XXH3-128 hash) is stored once: there are as
    /// many assets as distinct hashes among the pages' images.
    pub proof fn lemma_assets_are_distinct_images(&self)
        requires
            self.wf(),
        ensures
            self.spec_assets().len() == self.page_hashes().to_set().len(),
    {
        let hs = self.asset_hashes@;
        let ph = self.page_hashes();
        assert(hs.no_duplicates());
        hs.unique_seq_to_set();
        assert forall|x: u128| ph.to_set().contains(x) == hs.to_set().contains(x) by {
            if ph.contains(x) {
                let j = choose|j: int| 0 <= j < ph.len() && ph[j] == x;
                assert(0 <= self.page_assets@[j] < hs.len());
                assert(hs[self.page_assets@[j]] == x);
            }
            if hs.contains(x) {
                let k = choose|k: int| 0 <= k < hs.len() && hs[k] == x;
                let j = self.asset_origin@[k];
                assert(0 <= j < self.pages@.len());
                assert(self.payloads@[j] == self.asset_data@[k]);
                assert(self.asset_data@[k] == self.asset_data@[k]);
                assert(ph[j] == x);
            }
        }
        assert(ph.to_set() =~= hs.to_set());
    }

    /// A finished book holds a page for each page added, an asset for each
    /// distinct image, and a section and a metadata pair for each added.
    pub proof fn lemma_finished_file_counts(&self)
        requires
            self.wf(),
        ensures
            ({
                let d = self.spec_image();
                &&& parse_outcome(d) is Ok
                &&& page_count_of(d) == self.spec_payloads().len()
                &&& asset_count_of(d) == self.page_hashes().to_set().len()
                &&& section_count_of(d) == self.spec_section_titles().len()
                &&& meta_count_of(d) == self.spec_meta_keys().len()
            }),
    {
        self.lemma_finished_file_parses();
        self.lemma_assets_are_distinct_images();
    }

    /// Sections added one call after another, starting from a builder with
    /// none, read back from the finished file in call order: each starts at
    /// the page it was added with, has a parent exactly when it was added
    /// with one, and (when its title has no zero byte) its title reads back.
    pub proof fn lemma_sections_in_call_order(
        states: Seq<BBFBuilder>,
        calls: Seq<(Seq<u8>, u32, Option<u32>)>,
    )
        requires
            states.len() == calls.len() + 1,
            states[0].wf(),
            states[0].spec_sections().len() == 0,
            forall|i: int|
                0 <= i < calls.len() ==> Self::section_added(
                    #[trigger] states[i],
                    states[i + 1],
                    calls[i].0,
                    calls[i].1,
                    calls[i].2,
                ),
            states.last().wf(),
        ensures
            ({
                let d = states.last().spec_image();
                &&& section_count_of(d) == calls.len()
                &&& forall|i: int|
                    0 <= i < calls.len() ==> {
                        let e = #[trigger] entry_bytes(d, section_offset_of(d), i, 32);
                        &&& u64_at(e, 8) == calls[i].1
                        &&& (u64_at(e, 16) == NO_PARENT <==> calls[i].2 is None)
                        &&& (!calls[i].0.contains(0u8) ==> string_bytes_at(d, u64_at(e, 0))
                            == Some(calls[i].0))
                    }
            }),
    {
        let n = calls.len() as int;
        states[0].lemma_string_counts();
        Self::lemma_section_calls_prefix(states, calls, n);
        let b = states.last();
        b.lemma_finished_file_sections();
        b.lemma_finished_file_strings();
        b.lemma_finished_file_tables();
        b.lemma_finished_file_parses();
        let d = b.spec_image();
        let po = b.spec_pool_offset();
        assert forall|i: int| 0 <= i < calls.len() implies {
            let e = #[trigger] entry_bytes(d, section_offset_of(d), i, 32);
            &&& u64_at(e, 8) == calls[i].1
            &&& (u64_at(e, 16) == NO_PARENT <==> calls[i].2 is None)
            &&& (!calls[i].0.contains(0u8) ==> string_bytes_at(d, u64_at(e, 0)) == Some(calls[i].0))
        } by {
            let sec = b.spec_sections()[i];
            finished_section(sec, po).lemma_layout();
            assert(b.spec_section_titles()[i] == calls[i].0);
        }
    }

    /// After the first `k` calls, the builder holds exactly the sections and
    /// titles of those calls.
    proof fn lemma_section_calls_prefix(
        states: Seq<BBFBuilder>,
        calls: Seq<(Seq<u8>, u32, Option<u32>)>,
        k: int,
    )
        requires
            states.len() == calls.len() + 1,
            states[0].spec_sections().len() == 0,
            states[0].spec_section_titles().len() == 0,
            forall|i: int|
                0 <= i < calls.len() ==> Self::section_added(
                    #[trigger] states[i],
                    states[i + 1],
                    calls[i].0,
                    calls[i].1,
                    calls[i].2,
                ),
            0 <= k <= calls.len(),
        ensures
            states[k].spec_sections().len() == k,
            states[k].spec_section_titles().len() == k,
            forall|i: int|
                0 <= i < k ==> {
                    &&& (#[trigger] states[k].spec_sections()[i]).section_start_index == calls[i].1
                    &&& states[k].spec_sections()[i].section_parent_offset == match calls[i].2 {
                        Some(v) => v as u64,
                        None => NO_PARENT,
                    }
                    &&& states[k].spec_section_titles()[i] == calls[i].0
                },
        decreases k,
    {
        if k > 0 {
            Self::lemma_section_calls_prefix(states, calls, k - 1);
            let b0 = states[k - 1];
            let b1 = states[k];
            assert(Self::section_added(b0, b1, calls[k - 1].0, calls[k - 1].1, calls[k - 1].2));
            assert forall|i: int| 0 <= i < k implies {
                &&& (#[trigger] b1.spec_sections()[i]).section_start_index == calls[i].1
                &&& b1.spec_sections()[i].section_parent_offset == match calls[i].2 {
                    Some(v) => v as u64,
                    None => NO_PARENT,
                }
                &&& b1.spec_section_titles()[i] == calls[i].0
            } by {
                if i < k - 1 {
                    assert(b1.spec_sections()[i] == b1.spec_sections().drop_last()[i]);
                    assert(b0.spec_sections()[i] == b1.spec_sections()[i]);
                    assert(b1.spec_section_titles()[i] == b0.spec_section_titles()[i]);
                }
            }
        }
    }

    /// A finished (not petrified) file can only be read whole: its footer is
    /// its last 256 bytes, so no shorter prefix of it parses.
    pub proof fn lemma_finished_file_needs_its_end(&self)
        requires
            self.wf(),
        ensures
            forall|n: int|
                0 <= n <= self.spec_image().len() ==> (parse_outcome(
                    #[trigger] self.spec_image().take(n),
                ) is Ok <==> n == self.spec_image().len()),
    {
        self.lemma_finished_file_parses();
        self.lemma_image_basics();
        let d = self.spec_image();
        assert(d.take(d.len() as int) =~= d);
        assert forall|n: int| 0 <= n <= d.len() implies (parse_outcome(#[trigger] d.take(n)) is Ok
            <==> n == d.len()) by {
            if 320 <= n < d.len() {
                let q = d.take(n);
                assert(q.subrange(16, 24) =~= d.subrange(16, 24));
                assert(q.subrange(0, 4) =~= d.subrange(0, 4));
                assert(footer_pos(q) + 256 > q.len());
            }
        }
    }

    /// How the finished file is laid out: what is written (but for the
    /// footer offset), the tables, then the footer; and what the invariant
    /// says of the offsets the tables hold.
    pub proof fn lemma_finished_file_layout(&self)
        requires
            self.wf(),
        ensures
            ({
                let d = self.spec_image();
                let w = self.written().len() as int;
                let t = self.spec_tables().len() as int;
                &&& w >= HEADER_SIZE
                &&& Self::size_fits(self.spec_final_size())
                &&& self.spec_final_size() == w + t + 256
                &&& t == 48 * self.spec_assets().len() + 16 * self.spec_pages().len() + 32
                    * self.spec_sections().len() + 32 * self.spec_metadata().len()
                    + self.spec_pool().len()
                &&& self.spec_pool_offset() == w + 48 * self.spec_assets().len() + 16
                    * self.spec_pages().len() + 32 * self.spec_sections().len() + 32
                    * self.spec_metadata().len()
                &&& d.len() == w + t + 256
                &&& footer_pos(d) == w + t
                &&& d.subrange(0, 4) == magic_bytes()
                &&& d.subrange(24, w) == self.written().subrange(24, w)
                &&& d.subrange(w, w + t) == self.spec_tables()
                &&& d.subrange(w + t, w + t + 256) == self.spec_footer().encoded()
            }),
            forall|i: int|
                0 <= i < self.spec_sections().len() ==> {
                    let sec = #[trigger] self.spec_sections()[i];
                    &&& pool_holds(
                        self.spec_pool(),
                        sec.section_title_offset as int,
                        self.spec_section_titles()[i],
                    )
                    &&& (sec.section_parent_offset == NO_PARENT || sec.section_parent_offset
                        <= u32::MAX)
                },
            forall|i: int|
                0 <= i < self.spec_metadata().len() ==> {
                    let m = #[trigger] self.spec_metadata()[i];
                    &&& pool_holds(self.spec_pool(), m.key_offset as int, self.spec_meta_keys()[i])
                    &&& pool_holds(
                        self.spec_pool(),
                        m.value_offset as int,
                        self.spec_meta_values()[i],
                    )
                    &&& m.parent_offset == NO_PARENT
                },
    {
        self.lemma_image_basics();
        self.lemma_image_footer();
        let w = self.written().len() as int;
        let t = self.spec_tables().len() as int;
        self.lemma_image_tables_sub(0, t);
        assert(self.spec_tables().subrange(0, t) =~= self.spec_tables());
        self.lemma_image_sub(24, w);
        assert(self.spec_unpatched().subrange(24, w) =~= self.written().subrange(24, w));
    }
}

} // verus!
