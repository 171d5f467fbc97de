//! The decisions of the `bbfmux` tool: how a book is assembled from input
//! files and a manifest, and what `info`, `verify` and `extract` report.

use vstd::prelude::*;
use vstd::string::*;
use vstd::utf8::{decode_utf8, encode_utf8, valid_utf8};
use vstd::wrapping::u64_specs::wrapping_add;
use crate::builder::{
    finished_metadata, finished_section, intern_all, intern_map, intern_offset, intern_pool,
    BBFBuilder,
};
use crate::petrify::{asset_kept, lemma_petrified_book, petrify_outcome};
use crate::codec::{u16_at, u64_at};
use crate::format::{BBFMediaType, NO_PARENT};
use crate::hash::{hash_hi, hash_lo, split_hash, xxh3_128, xxh3_128_of, xxh3_64, xxh3_64_of};
use crate::reader::{
    asset_count_of, asset_offset_of, asset_outcome, asset_type_code, entry_bytes, footer_pos, footer_u64,
    meta_count_of, meta_offset_of, page_asset_index, page_count_of, pool_offset_of, pool_size_of,
    section_count_of, section_offset_of, string_bytes_at, BBFReader,
};
use crate::text::{lemma_encode_utf8_injective, lowercase_of, parse_u32, parsed_u32, str_eq};

verus! {

broadcast use vstd::utf8::group_utf8_lib;

/// A section as a manifest describes it: its name, the page it starts at
/// (an input file's name or a 1-based page number) and its parent's name.
pub struct SectionConfig {
    pub name: String,
    pub target: String,
    pub parent: Option<String>,
}

/// Names paired with numbers, by their characters.
pub open spec fn named_entries(v: Seq<(String, u32)>) -> Seq<(Seq<char>, u32)> {
    v.map_values(|e: (String, u32)| (e.0@, e.1))
}

/// The number paired with the last occurrence of `key`, as a map that each
/// pair overwrites in turn would give.
pub open spec fn latest_lookup(list: Seq<(Seq<char>, u32)>, key: Seq<char>) -> Option<u32>
    decreases list.len(),
{
    if list.len() == 0 {
        None
    } else if list.last().0 == key {
        Some(list.last().1)
    } else {
        latest_lookup(list.drop_last(), key)
    }
}

/// Looks `key` up among the pairs, the last occurrence winning.
#[verifier::spinoff_prover]
pub fn lookup_latest(list: &Vec<(String, u32)>, key: &str) -> (r: Option<u32>)
    ensures
        r == latest_lookup(named_entries(list@), key@),
{
    let mut i: usize = list.len();
    proof {
        assert(named_entries(list@) =~= named_entries(list@).take(list@.len() as int));
    }
    while i > 0
        invariant
            0 <= i <= list@.len(),
            latest_lookup(named_entries(list@), key@) == latest_lookup(
                named_entries(list@).take(i as int),
                key@,
            ),
        decreases i,
    {
        proof {
            let pre = named_entries(list@).take(i as int);
            assert(pre.drop_last() =~= named_entries(list@).take(i - 1));
        }
        i = i - 1;
        if str_eq(list[i].0.as_str(), key) {
            return Some(list[i].1);
        }
    }
    None
}

/// The page a section's target names, and whether it named one: the page
/// of the last input file with that name; else the target read as a
/// 1-based page number (`0` stays `0`); else page `0`, not found.
pub open spec fn section_target_page(target: Seq<char>, files: Seq<(Seq<char>, u32)>) -> (
    u32,
    bool,
) {
    match latest_lookup(files, target) {
        Some(p) => (p, true),
        None => match parsed_u32(target) {
            Some(n) => (
                if n >= 1 {
                    (n - 1) as u32
                } else {
                    0u32
                },
                true,
            ),
            None => (0u32, false),
        },
    }
}

/// Resolves a section's target against the input files added so far.
pub fn resolve_section_target(target: &str, file_pages: &Vec<(String, u32)>) -> (r: (u32, bool))
    ensures
        r == section_target_page(target@, named_entries(file_pages@)),
{
    match lookup_latest(file_pages, target) {
        Some(idx) => (idx, true),
        None => match parse_u32(target) {
            Some(n) => (n.saturating_sub(1), true),
            None => (0, false),
        },
    }
}

/// Adds an input file as the next page: its media type from its extension
/// (given without the dot), its bytes as the image, flags 0; and records
/// its file name against the page's number, which then moves on by one.
pub fn add_input_file(
    builder: &mut BBFBuilder,
    file_name: &str,
    extension: &str,
    data: &[u8],
    file_pages: &mut Vec<(String, u32)>,
    page_idx: &mut u32,
)
    requires
        old(builder).wf(),
        BBFBuilder::size_fits(old(builder).spec_final_size() + 4095 + data@.len() + 64),
        *old(page_idx) < u32::MAX,
    ensures
        final(builder).wf(),
        exists|r: u32|
            BBFBuilder::page_added(
                *old(builder),
                *final(builder),
                data@,
                BBFMediaType::spec_from_lowercase_extension(lowercase_of("."@ + extension@)),
                0,
                r,
            ),
        named_entries(final(file_pages)@) == named_entries(old(file_pages)@).push(
            (file_name@, *old(page_idx)),
        ),
        *final(page_idx) == *old(page_idx) + 1,
{
    let dotted = String::from_str(".").concat(extension);
    let media_type = BBFMediaType::from_extension(dotted.as_str());
    let r = builder.add_page(data, media_type, 0);
    file_pages.push((file_name.to_owned(), *page_idx));
    *page_idx = *page_idx + 1;
    proof {
        assert(named_entries(file_pages@) =~= named_entries(old(file_pages)@).push(
            (file_name@, *old(page_idx)),
        ));
    }
}

/// What adding the manifest's sections may add to the file's size: each
/// name's bytes, a zero byte, and a section entry.
pub open spec fn sections_cost(secs: Seq<SectionConfig>) -> int
    decreases secs.len(),
{
    if secs.len() == 0 {
        0
    } else {
        sections_cost(secs.drop_last()) + encode_utf8(secs.last().name@).len() + 33
    }
}

/// The cost of the first sections is at most that of all of them.
proof fn lemma_sections_cost_prefix(secs: Seq<SectionConfig>, i: int)
    requires
        0 <= i <= secs.len(),
    ensures
        sections_cost(secs.take(i)) <= sections_cost(secs),
        0 <= sections_cost(secs.take(i)),
    decreases secs.len() - i,
{
    if i < secs.len() {
        lemma_sections_cost_prefix(secs, i + 1);
        assert(secs.take(i + 1).drop_last() =~= secs.take(i));
    } else {
        assert(secs.take(i) =~= secs);
    }
    lemma_sections_cost_nonneg(secs.take(i));
}

proof fn lemma_sections_cost_nonneg(secs: Seq<SectionConfig>)
    ensures
        0 <= sections_cost(secs),
    decreases secs.len(),
{
    if secs.len() > 0 {
        lemma_sections_cost_nonneg(secs.drop_last());
    }
}

/// The bytes of each section's name, in order.
pub open spec fn section_titles_of(secs: Seq<SectionConfig>) -> Seq<Seq<u8>> {
    Seq::new(secs.len(), |i: int| encode_utf8(secs[i].name@))
}

/// The names of the sections before `i`, each with its position.
pub open spec fn earlier_names(secs: Seq<SectionConfig>, i: int) -> Seq<(Seq<char>, u32)> {
    Seq::new(i as nat, |j: int| (secs[j].name@, j as u32))
}

/// The parent of section `i`: the last earlier section with its parent's name.
pub open spec fn section_parent(secs: Seq<SectionConfig>, i: int) -> Option<u32> {
    match secs[i].parent {
        Some(p) => latest_lookup(earlier_names(secs, i), p@),
        None => None,
    }
}

/// `b1` is `b0` after `add_sections` added `secs`, resolving targets
/// against `files`, and `found` says which targets named a page: the
/// sections follow the earlier ones, titled by their names (interned in
/// turn), starting at the pages their targets resolve to, with as parent the
/// position of the last earlier section named as their parent; nothing else
/// changes.
pub open spec fn sections_added(
    b0: BBFBuilder,
    b1: BBFBuilder,
    secs: Seq<SectionConfig>,
    files: Seq<(String, u32)>,
    found: Seq<bool>,
) -> bool {
    let n0 = b0.spec_sections().len();
    let titles = section_titles_of(secs);
    let i0 = b0.spec_interned();
    let p0 = b0.spec_pool();
    &&& found.len() == secs.len()
    &&& b1.spec_sections().len() == n0 + secs.len()
    &&& b1.spec_sections().take(n0 as int) == b0.spec_sections()
    &&& b1.spec_section_titles() == b0.spec_section_titles() + titles
    &&& b1.spec_interned() == intern_all(i0, p0, titles).0
    &&& b1.spec_pool() == intern_all(i0, p0, titles).1
    &&& forall|i: int|
        0 <= i < secs.len() ==> {
            let sec = #[trigger] b1.spec_sections()[n0 + i];
            let t = section_target_page(secs[i].target@, named_entries(files));
            let before = intern_all(i0, p0, titles.take(i));
            &&& sec.section_title_offset == intern_offset(before.0, before.1, titles[i])
            &&& sec.section_start_index == t.0 as u64
            &&& found[i] == t.1
            &&& sec.section_parent_offset == match section_parent(secs, i) {
                Some(j) => j as u64,
                None => NO_PARENT,
            }
        }
    &&& b1.written() == b0.written()
    &&& b1.spec_assets() == b0.spec_assets()
    &&& b1.spec_pages() == b0.spec_pages()
    &&& b1.spec_metadata() == b0.spec_metadata()
    &&& b1.spec_payloads() == b0.spec_payloads()
    &&& b1.spec_meta_keys() == b0.spec_meta_keys()
    &&& b1.spec_meta_values() == b0.spec_meta_values()
}

/// Adds the manifest's sections in order: each titled by its name, starting
/// at the page its target resolves to, with as parent the last earlier
/// section named as its parent is. Returns, for each, whether its target
/// named a page (the tool warns and uses the first page when not).
#[verifier::spinoff_prover]
pub fn add_sections(
    builder: &mut BBFBuilder,
    sections: &Vec<SectionConfig>,
    file_pages: &Vec<(String, u32)>,
) -> (found: Vec<bool>)
    requires
        old(builder).wf(),
        BBFBuilder::size_fits(old(builder).spec_final_size() + sections_cost(sections@)),
    ensures
        final(builder).wf(),
        sections_added(*old(builder), *final(builder), sections@, file_pages@, found@),
{
    let ghost n0 = builder.spec_sections().len();
    let ghost start = *builder;
    let mut name_to_idx: Vec<(String, u32)> = Vec::new();
    let mut found: Vec<bool> = Vec::new();
    let mut i: usize = 0;
    while i < sections.len()
        invariant
            0 <= i <= sections@.len(),
            builder.wf(),
            start == *old(builder),
            n0 == start.spec_sections().len(),
            BBFBuilder::size_fits(start.spec_final_size() + sections_cost(sections@)),
            builder.spec_final_size() <= start.spec_final_size() + sections_cost(
                sections@.take(i as int),
            ),
            named_entries(name_to_idx@) == earlier_names(sections@, i as int),
            found@.len() == i,
            builder.spec_sections().len() == n0 + i,
            builder.spec_sections().take(n0 as int) == start.spec_sections(),
            builder.spec_section_titles() == start.spec_section_titles() + section_titles_of(
                sections@,
            ).take(i as int),
            builder.spec_interned() == intern_all(
                start.spec_interned(),
                start.spec_pool(),
                section_titles_of(sections@).take(i as int),
            ).0,
            builder.spec_pool() == intern_all(
                start.spec_interned(),
                start.spec_pool(),
                section_titles_of(sections@).take(i as int),
            ).1,
            forall|k: int|
                0 <= k < i ==> {
                    let sec = #[trigger] builder.spec_sections()[n0 + k];
                    let t = section_target_page(sections@[k].target@, named_entries(file_pages@));
                    let titles = section_titles_of(sections@);
                    let before = intern_all(start.spec_interned(), start.spec_pool(), titles.take(k));
                    &&& sec.section_title_offset == intern_offset(before.0, before.1, titles[k])
                    &&& sec.section_start_index == t.0 as u64
                    &&& found@[k] == t.1
                    &&& sec.section_parent_offset == match section_parent(sections@, k) {
                        Some(j) => j as u64,
                        None => NO_PARENT,
                    }
                },
            builder.written() == start.written(),
            builder.spec_assets() == start.spec_assets(),
            builder.spec_pages() == start.spec_pages(),
            builder.spec_metadata() == start.spec_metadata(),
            builder.spec_payloads() == start.spec_payloads(),
            builder.spec_meta_keys() == start.spec_meta_keys(),
            builder.spec_meta_values() == start.spec_meta_values(),
        decreases sections@.len() - i,
    {
        let sec = &sections[i];
        let (p_idx, was_found) = resolve_section_target(sec.target.as_str(), file_pages);
        let parent_idx = match &sec.parent {
            Some(p) => lookup_latest(&name_to_idx, p.as_str()),
            None => None,
        };
        proof {
            lemma_sections_cost_prefix(sections@, i + 1);
            assert(sections@.take(i + 1).drop_last() =~= sections@.take(i as int));
        }
        let ghost before = *builder;
        let name = sec.name.as_str();
        builder.add_section(name, p_idx, parent_idx);
        let name_copy = sec.name.clone();
        let ghost old_names = name_to_idx@;
        name_to_idx.push((name_copy, #[verifier::truncate] (i as u32)));
        found.push(was_found);
        proof {
            let b = name.spec_bytes();
            let titles = section_titles_of(sections@);
            assert(b == titles[i as int]);
            assert(titles.take(i + 1).drop_last() =~= titles.take(i as int));
            assert(titles.take(i + 1).last() == titles[i as int]);
            assert(builder.spec_pool().len() <= before.spec_pool().len() + b.len() + 1);
            assert forall|k: int| 0 <= k < i + 1 implies {
                let s2 = #[trigger] builder.spec_sections()[n0 + k];
                let t = section_target_page(sections@[k].target@, named_entries(file_pages@));
                let bf = intern_all(start.spec_interned(), start.spec_pool(), titles.take(k));
                &&& s2.section_title_offset == intern_offset(bf.0, bf.1, titles[k])
                &&& s2.section_start_index == t.0 as u64
                &&& found@[k] == t.1
                &&& s2.section_parent_offset == match section_parent(sections@, k) {
                    Some(j) => j as u64,
                    None => NO_PARENT,
                }
            } by {
                if k < i {
                    assert(builder.spec_sections()[n0 + k] == before.spec_sections()[n0 + k]);
                }
            }
            assert(name_copy@ == sections@[i as int].name@);
            let ne = named_entries(name_to_idx@);
            let en = earlier_names(sections@, i + 1);
            assert forall|k: int| 0 <= k < ne.len() implies ne[k] == en[k] by {
                if k < i {
                    assert(name_to_idx@[k] == old_names[k]);
                    assert(named_entries(old_names)[k] == earlier_names(sections@, i as int)[k]);
                } else {
                    assert(name_to_idx@[k] == (name_copy, (i as u32)));
                }
            }
            assert(ne =~= en);
            assert(builder.spec_sections().take(n0 as int) =~= before.spec_sections().take(
                n0 as int,
            ));
            assert(builder.spec_section_titles() =~= start.spec_section_titles() + titles.take(
                i + 1,
            ));
        }
        i = i + 1;
    }
    proof {
        assert(section_titles_of(sections@).take(sections@.len() as int) =~= section_titles_of(
            sections@,
        ));
    }
    found
}

/// Sections added from a manifest read back from the finished file: the
/// section table holds them after the earlier ones, each title reads back
/// as its name (when the name has no zero byte), each starts at the page its
/// target resolves to, and each has a parent exactly when an earlier section
/// bears its parent's name.
pub proof fn lemma_added_sections_read_back(
    b0: BBFBuilder,
    b1: BBFBuilder,
    secs: Seq<SectionConfig>,
    files: Seq<(String, u32)>,
    found: Seq<bool>,
)
    requires
        b0.wf(),
        b1.wf(),
        sections_added(b0, b1, secs, files, found),
        forall|j: int| 0 <= j < secs.len() ==> !(#[trigger] encode_utf8(secs[j].name@)).contains(0u8),
    ensures
        ({
            let d = b1.spec_image();
            let n0 = b0.spec_sections().len() as int;
            &&& section_count_of(d) == n0 + secs.len()
            &&& forall|j: int|
                0 <= j < secs.len() ==> {
                    let e = #[trigger] section_entry(d, n0 + j);
                    &&& string_bytes_at(d, u64_at(e, 0)) == Some(encode_utf8(secs[j].name@))
                    &&& u64_at(e, 8) == section_target_page(secs[j].target@, named_entries(files)).0
                    &&& (u64_at(e, 16) == NO_PARENT <==> section_parent(secs, j) is None)
                }
        }),
{
    b1.lemma_finished_file_parses();
    let d = b1.spec_image();
    let n0 = b0.spec_sections().len() as int;
    assert forall|j: int| 0 <= j < secs.len() implies {
        let e = #[trigger] section_entry(d, n0 + j);
        &&& string_bytes_at(d, u64_at(e, 0)) == Some(encode_utf8(secs[j].name@))
        &&& u64_at(e, 8) == section_target_page(secs[j].target@, named_entries(files)).0
        &&& (u64_at(e, 16) == NO_PARENT <==> section_parent(secs, j) is None)
    } by {
        lemma_added_section_reads_back(b0, b1, secs, files, found, j);
    }
}

/// Section `j` of those added from a manifest reads back (see
/// `lemma_added_sections_read_back`).
#[verifier::spinoff_prover]
#[verifier::rlimit(40)]
proof fn lemma_added_section_reads_back(
    b0: BBFBuilder,
    b1: BBFBuilder,
    secs: Seq<SectionConfig>,
    files: Seq<(String, u32)>,
    found: Seq<bool>,
    j: int,
)
    requires
        b0.wf(),
        b1.wf(),
        sections_added(b0, b1, secs, files, found),
        0 <= j < secs.len(),
        !encode_utf8(secs[j].name@).contains(0u8),
    ensures
        ({
            let d = b1.spec_image();
            let e = section_entry(d, b0.spec_sections().len() + j);
            &&& string_bytes_at(d, u64_at(e, 0)) == Some(encode_utf8(secs[j].name@))
            &&& u64_at(e, 8) == section_target_page(secs[j].target@, named_entries(files)).0
            &&& (u64_at(e, 16) == NO_PARENT <==> section_parent(secs, j) is None)
        }),
{
    let n0 = b0.spec_sections().len() as int;
    let i = n0 + j;
    let titles = section_titles_of(secs);
    let sec = b1.spec_sections()[i];
    b0.lemma_string_counts();
    assert(b1.spec_section_titles()[i] == titles[j]);
    b1.lemma_finished_file_strings();
    b1.lemma_finished_file_tables();
    b1.lemma_finished_file_sections();
    let d = b1.spec_image();
    let po = b1.spec_pool_offset();
    finished_section(sec, po).lemma_layout();
    assert(entry_bytes(d, section_offset_of(d), i, 32) == finished_section(sec, po).encoded());
}

/// What adding metadata pairs may add to the file's size: each key's and
/// value's bytes, two zero bytes, and a metadata entry.
pub open spec fn metadata_cost(pairs: Seq<(String, String)>) -> int
    decreases pairs.len(),
{
    if pairs.len() == 0 {
        0
    } else {
        metadata_cost(pairs.drop_last()) + encode_utf8(pairs.last().0@).len() + encode_utf8(
            pairs.last().1@,
        ).len() + 34
    }
}

/// The cost of the first pairs is at most that of all of them.
proof fn lemma_metadata_cost_prefix(pairs: Seq<(String, String)>, i: int)
    requires
        0 <= i <= pairs.len(),
    ensures
        0 <= metadata_cost(pairs.take(i)) <= metadata_cost(pairs),
    decreases pairs.len() - i,
{
    if i < pairs.len() {
        lemma_metadata_cost_prefix(pairs, i + 1);
        assert(pairs.take(i + 1).drop_last() =~= pairs.take(i));
    } else {
        assert(pairs.take(i) =~= pairs);
    }
    lemma_metadata_cost_nonneg(pairs.take(i));
}

proof fn lemma_metadata_cost_nonneg(pairs: Seq<(String, String)>)
    ensures
        0 <= metadata_cost(pairs),
    decreases pairs.len(),
{
    if pairs.len() > 0 {
        lemma_metadata_cost_nonneg(pairs.drop_last());
    }
}

/// The keys and values of the pairs, in the order they are interned: each
/// key, then its value.
pub open spec fn pair_strings(pairs: Seq<(String, String)>) -> Seq<Seq<u8>>
    decreases pairs.len(),
{
    if pairs.len() == 0 {
        Seq::empty()
    } else {
        pair_strings(pairs.drop_last()).push(encode_utf8(pairs.last().0@)).push(
            encode_utf8(pairs.last().1@),
        )
    }
}

/// `b1` is `b0` after `add_metadata_pairs` added `pairs`: the metadata
/// entries follow the earlier ones, with the pairs' keys and values, each
/// interned in turn; nothing else changes.
pub open spec fn metadata_added(b0: BBFBuilder, b1: BBFBuilder, pairs: Seq<(String, String)>) -> bool {
    let n0 = b0.spec_metadata().len();
    let i0 = b0.spec_interned();
    let p0 = b0.spec_pool();
    &&& b1.spec_metadata().len() == n0 + pairs.len()
    &&& b1.spec_metadata().take(n0 as int) == b0.spec_metadata()
    &&& b1.spec_meta_keys() == b0.spec_meta_keys() + Seq::new(
        pairs.len(),
        |i: int| encode_utf8(pairs[i].0@),
    )
    &&& b1.spec_meta_values() == b0.spec_meta_values() + Seq::new(
        pairs.len(),
        |i: int| encode_utf8(pairs[i].1@),
    )
    &&& b1.spec_interned() == intern_all(i0, p0, pair_strings(pairs)).0
    &&& b1.spec_pool() == intern_all(i0, p0, pair_strings(pairs)).1
    &&& b1.written() == b0.written()
    &&& b1.spec_assets() == b0.spec_assets()
    &&& b1.spec_pages() == b0.spec_pages()
    &&& b1.spec_sections() == b0.spec_sections()
    &&& b1.spec_payloads() == b0.spec_payloads()
    &&& b1.spec_section_titles() == b0.spec_section_titles()
}

/// Adds metadata pairs in order, as a manifest lists them.
#[verifier::spinoff_prover]
pub fn add_metadata_pairs(builder: &mut BBFBuilder, pairs: &Vec<(String, String)>)
    requires
        old(builder).wf(),
        BBFBuilder::size_fits(old(builder).spec_final_size() + metadata_cost(pairs@)),
    ensures
        final(builder).wf(),
        metadata_added(*old(builder), *final(builder), pairs@),
{
    let ghost start = *builder;
    let mut i: usize = 0;
    proof {
        assert(pairs@.take(0) =~= Seq::<(String, String)>::empty());
        assert(start.spec_metadata().take(start.spec_metadata().len() as int) =~= start.spec_metadata());
        assert(start.spec_meta_keys() + Seq::new(0, |k: int| encode_utf8(pairs@[k].0@)) =~= start.spec_meta_keys());
        assert(start.spec_meta_values() + Seq::new(0, |k: int| encode_utf8(pairs@[k].1@)) =~= start.spec_meta_values());
    }
    while i < pairs.len()
        invariant
            0 <= i <= pairs@.len(),
            builder.wf(),
            start == *old(builder),
            BBFBuilder::size_fits(start.spec_final_size() + metadata_cost(pairs@)),
            builder.spec_final_size() <= start.spec_final_size() + metadata_cost(
                pairs@.take(i as int),
            ),
            metadata_added(start, *builder, pairs@.take(i as int)),
        decreases pairs@.len() - i,
    {
        proof {
            lemma_metadata_cost_prefix(pairs@, i + 1);
            assert(pairs@.take(i + 1).drop_last() =~= pairs@.take(i as int));
        }
        let ghost before = *builder;
        let k = pairs[i].0.as_str();
        let v = pairs[i].1.as_str();
        builder.add_metadata(k, v);
        proof {
            let pre = pairs@.take(i as int);
            let post = pairs@.take(i + 1);
            assert(post.drop_last() =~= pre);
            assert(post.last() == pairs@[i as int]);
            let ps = pair_strings(pre);
            assert(pair_strings(post) == ps.push(k.spec_bytes()).push(v.spec_bytes()));
            assert(ps.push(k.spec_bytes()).push(v.spec_bytes()).drop_last() =~= ps.push(
                k.spec_bytes(),
            ));
            assert(ps.push(k.spec_bytes()).drop_last() =~= ps);
            let n0 = start.spec_metadata().len() as int;
            assert(builder.spec_metadata().take(n0) =~= before.spec_metadata().take(n0));
            assert(builder.spec_meta_keys() =~= start.spec_meta_keys() + Seq::new(
                post.len(),
                |k: int| encode_utf8(post[k].0@),
            ));
            assert(builder.spec_meta_values() =~= start.spec_meta_values() + Seq::new(
                post.len(),
                |k: int| encode_utf8(post[k].1@),
            ));
            let i0 = start.spec_interned();
            let p0 = start.spec_pool();
            let mid = intern_all(i0, p0, ps.push(k.spec_bytes()));
            assert(mid == (
                intern_map(before.spec_interned(), before.spec_pool(), k.spec_bytes()),
                intern_pool(before.spec_interned(), before.spec_pool(), k.spec_bytes()),
            ));
            assert(builder.spec_interned() == intern_all(i0, p0, pair_strings(post)).0);
            assert(builder.spec_pool() == intern_all(i0, p0, pair_strings(post)).1);
            assert(builder.spec_metadata().len() == start.spec_metadata().len() + post.len());
        }
        i = i + 1;
    }
    proof {
        assert(pairs@.take(pairs@.len() as int) =~= pairs@);
    }
}

/// Metadata pairs added from a manifest read back from the finished file:
/// the metadata table holds them after the earlier ones, and each key and
/// value reads back as itself (when it has no zero byte).
pub proof fn lemma_added_metadata_read_back(
    b0: BBFBuilder,
    b1: BBFBuilder,
    pairs: Seq<(String, String)>,
)
    requires
        b0.wf(),
        b1.wf(),
        metadata_added(b0, b1, pairs),
        forall|j: int|
            0 <= j < pairs.len() ==> !(#[trigger] encode_utf8(pairs[j].0@)).contains(0u8)
                && !encode_utf8(pairs[j].1@).contains(0u8),
    ensures
        ({
            let d = b1.spec_image();
            let n0 = b0.spec_metadata().len() as int;
            &&& meta_count_of(d) == n0 + pairs.len()
            &&& forall|j: int|
                0 <= j < pairs.len() ==> {
                    let e = #[trigger] metadata_entry(d, n0 + j);
                    &&& string_bytes_at(d, u64_at(e, 0)) == Some(encode_utf8(pairs[j].0@))
                    &&& string_bytes_at(d, u64_at(e, 8)) == Some(encode_utf8(pairs[j].1@))
                }
        }),
{
    b1.lemma_finished_file_parses();
    let d = b1.spec_image();
    let n0 = b0.spec_metadata().len() as int;
    assert forall|j: int| 0 <= j < pairs.len() implies {
        let e = #[trigger] metadata_entry(d, n0 + j);
        &&& string_bytes_at(d, u64_at(e, 0)) == Some(encode_utf8(pairs[j].0@))
        &&& string_bytes_at(d, u64_at(e, 8)) == Some(encode_utf8(pairs[j].1@))
    } by {
        lemma_added_pair_reads_back(b0, b1, pairs, j);
    }
}

/// Pair `j` of those added reads back (see `lemma_added_metadata_read_back`).
#[verifier::spinoff_prover]
#[verifier::rlimit(40)]
proof fn lemma_added_pair_reads_back(b0: BBFBuilder, b1: BBFBuilder, pairs: Seq<(String, String)>, j: int)
    requires
        b0.wf(),
        b1.wf(),
        metadata_added(b0, b1, pairs),
        0 <= j < pairs.len(),
        !encode_utf8(pairs[j].0@).contains(0u8),
        !encode_utf8(pairs[j].1@).contains(0u8),
    ensures
        ({
            let d = b1.spec_image();
            let e = metadata_entry(d, b0.spec_metadata().len() + j);
            &&& string_bytes_at(d, u64_at(e, 0)) == Some(encode_utf8(pairs[j].0@))
            &&& string_bytes_at(d, u64_at(e, 8)) == Some(encode_utf8(pairs[j].1@))
        }),
{
    let n0 = b0.spec_metadata().len() as int;
    let i = n0 + j;
    let m = b1.spec_metadata()[i];
    b0.lemma_string_counts();
    assert(b1.spec_meta_keys()[i] == encode_utf8(pairs[j].0@));
    assert(b1.spec_meta_values()[i] == encode_utf8(pairs[j].1@));
    b1.lemma_finished_file_strings();
    b1.lemma_finished_file_tables();
    b1.lemma_finished_file_parses();
    let d = b1.spec_image();
    let po = b1.spec_pool_offset();
    finished_metadata(m, po).lemma_layout();
    assert(entry_bytes(d, meta_offset_of(d), i, 32) == finished_metadata(m, po).encoded());
}

/// A section as `info` reports it: its title and its 1-based first page.
pub struct SectionInfo {
    pub title: String,
    pub start_page: u64,
}

/// What `info` reports of a book.
pub struct InfoOutput {
    pub version: u16,
    pub pages: u64,
    pub assets: u64,
    pub petrified: bool,
    pub sections: Vec<SectionInfo>,
    pub metadata: Vec<(String, String)>,
}

/// The characters of the string at `off`, or `default` when there is none
/// or it is not valid UTF-8.
pub open spec fn string_or(d: Seq<u8>, off: u64, default: Seq<char>) -> Seq<char> {
    match string_bytes_at(d, off) {
        Some(b) => if valid_utf8(b) {
            decode_utf8(b)
        } else {
            default
        },
        None => default,
    }
}

/// `info` shows a string exactly as the file holds it whenever it reads as
/// UTF-8, whatever its characters; only a string that cannot be read (none
/// at the offset, or not UTF-8) is shown as the default.
pub proof fn lemma_string_or_shows_string(d: Seq<u8>, off: u64, default: Seq<char>)
    ensures
        match string_bytes_at(d, off) {
            Some(b) => if valid_utf8(b) {
                encode_utf8(string_or(d, off, default)) == b
            } else {
                string_or(d, off, default) == default
            },
            None => string_or(d, off, default) == default,
        },
{
}

/// The bytes of section `i`'s entry.
pub open spec fn section_entry(d: Seq<u8>, i: int) -> Seq<u8> {
    entry_bytes(d, section_offset_of(d), i, 32)
}

/// The bytes of metadata pair `i`'s entry.
pub open spec fn metadata_entry(d: Seq<u8>, i: int) -> Seq<u8> {
    entry_bytes(d, meta_offset_of(d), i, 32)
}

/// The string at `off`, or `default`.
fn string_or_default(reader: &BBFReader, off: u64, default: &str) -> (r: String)
    requires
        reader.wf(),
    ensures
        r@ == string_or(reader.bytes(), off, default@),
{
    match reader.get_string(off) {
        Some(t) => {
            proof {
                vstd::utf8::encode_utf8_decode_utf8(t@);
            }
            t.to_owned()
        },
        None => default.to_owned(),
    }
}

/// What `info` reports: the header's version, the footer's page and asset
/// counts, whether the file is petrified (its footer right after the
/// header), each section's title (`???` when unreadable) and 1-based first
/// page (wrapping), and each metadata pair (`?` for an unreadable string).
#[verifier::spinoff_prover]
pub fn book_info(reader: &BBFReader) -> (r: InfoOutput)
    requires
        reader.wf(),
    ensures
        ({
            let d = reader.bytes();
            &&& r.version == u16_at(d, 4)
            &&& r.pages == page_count_of(d)
            &&& r.assets == asset_count_of(d)
            &&& r.petrified == (footer_pos(d) == 64)
            &&& r.sections@.len() == section_count_of(d)
            &&& forall|i: int|
                0 <= i < r.sections@.len() ==> {
                    &&& (#[trigger] r.sections@[i]).title@ == string_or(
                        d,
                        u64_at(section_entry(d, i), 0),
                        "???"@,
                    )
                    &&& r.sections@[i].start_page == wrapping_add(u64_at(section_entry(d, i), 8), 1)
                }
            &&& r.metadata@.len() == meta_count_of(d)
            &&& forall|i: int|
                0 <= i < r.metadata@.len() ==> {
                    &&& (#[trigger] r.metadata@[i]).0@ == string_or(
                        d,
                        u64_at(metadata_entry(d, i), 0),
                        "?"@,
                    )
                    &&& r.metadata@[i].1@ == string_or(d, u64_at(metadata_entry(d, i), 8), "?"@)
                }
        }),
{
    proof {
        reader.lemma_wf();
        reader.lemma_fields();
    }
    let d = Ghost(reader.bytes());
    let sections = reader.sections();
    let mut out_sections: Vec<SectionInfo> = Vec::new();
    let mut i: usize = 0;
    while i < sections.len()
        invariant
            reader.wf(),
            d@ == reader.bytes(),
            sections@.len() == section_count_of(d@),
            forall|k: int|
                0 <= k < sections@.len() ==> (#[trigger] sections@[k]).encoded() == section_entry(
                    d@,
                    k,
                ),
            0 <= i <= sections@.len(),
            out_sections@.len() == i,
            forall|k: int|
                0 <= k < i ==> {
                    &&& (#[trigger] out_sections@[k]).title@ == string_or(
                        d@,
                        u64_at(section_entry(d@, k), 0),
                        "???"@,
                    )
                    &&& out_sections@[k].start_page == wrapping_add(
                        u64_at(section_entry(d@, k), 8),
                        1,
                    )
                },
        decreases sections@.len() - i,
    {
        let s = &sections[i];
        proof {
            s.lemma_layout();
        }
        let title = string_or_default(reader, s.section_title_offset, "???");
        out_sections.push(
            SectionInfo { title, start_page: s.section_start_index.wrapping_add(1) },
        );
        i = i + 1;
    }
    let metadata = reader.metadata();
    let mut out_meta: Vec<(String, String)> = Vec::new();
    let mut i: usize = 0;
    while i < metadata.len()
        invariant
            reader.wf(),
            d@ == reader.bytes(),
            metadata@.len() == meta_count_of(d@),
            forall|k: int|
                0 <= k < metadata@.len() ==> (#[trigger] metadata@[k]).encoded() == metadata_entry(
                    d@,
                    k,
                ),
            0 <= i <= metadata@.len(),
            out_meta@.len() == i,
            forall|k: int|
                0 <= k < i ==> {
                    &&& (#[trigger] out_meta@[k]).0@ == string_or(
                        d@,
                        u64_at(metadata_entry(d@, k), 0),
                        "?"@,
                    )
                    &&& out_meta@[k].1@ == string_or(d@, u64_at(metadata_entry(d@, k), 8), "?"@)
                },
        decreases metadata@.len() - i,
    {
        let m = &metadata[i];
        proof {
            m.lemma_layout();
        }
        let k = string_or_default(reader, m.key_offset, "?");
        let v = string_or_default(reader, m.value_offset, "?");
        out_meta.push((k, v));
        i = i + 1;
    }
    InfoOutput {
        version: reader.header.version,
        pages: reader.footer.page_count,
        assets: reader.footer.asset_count,
        petrified: reader.header.footer_offset == 64,
        sections: out_sections,
        metadata: out_meta,
    }
}

/// `info` shows every section title and metadata key and value of a
/// finished book as the string it was added with, when that has no zero
/// byte, whatever its characters.
pub proof fn lemma_info_shows_added_strings(b: BBFBuilder)
    requires
        b.wf(),
    ensures
        ({
            let d = b.spec_image();
            &&& forall|i: int|
                0 <= i < b.spec_sections().len() && !b.spec_section_titles()[i].contains(0u8)
                    ==> encode_utf8(
                    string_or(d, u64_at(#[trigger] section_entry(d, i), 0), "???"@),
                ) == b.spec_section_titles()[i]
            &&& forall|i: int|
                0 <= i < b.spec_metadata().len() && !b.spec_meta_keys()[i].contains(0u8)
                    ==> encode_utf8(string_or(d, u64_at(#[trigger] metadata_entry(d, i), 0), "?"@))
                    == b.spec_meta_keys()[i]
            &&& forall|i: int|
                0 <= i < b.spec_metadata().len() && !b.spec_meta_values()[i].contains(0u8)
                    ==> encode_utf8(string_or(d, u64_at(#[trigger] metadata_entry(d, i), 8), "?"@))
                    == b.spec_meta_values()[i]
        }),
{
    b.lemma_finished_file_strings();
    b.lemma_finished_file_tables();
    b.lemma_finished_file_parses();
    let d = b.spec_image();
    let po = b.spec_pool_offset();
    assert forall|i: int|
        0 <= i < b.spec_sections().len() && !b.spec_section_titles()[i].contains(0u8)
            implies encode_utf8(string_or(d, u64_at(#[trigger] section_entry(d, i), 0), "???"@))
            == b.spec_section_titles()[i] by {
        finished_section(b.spec_sections()[i], po).lemma_layout();
        lemma_string_or_shows_string(d, u64_at(section_entry(d, i), 0), "???"@);
    }
    assert forall|i: int|
        0 <= i < b.spec_metadata().len() && !b.spec_meta_keys()[i].contains(0u8)
            implies encode_utf8(string_or(d, u64_at(#[trigger] metadata_entry(d, i), 0), "?"@))
            == b.spec_meta_keys()[i] by {
        finished_metadata(b.spec_metadata()[i], po).lemma_layout();
        lemma_string_or_shows_string(d, u64_at(metadata_entry(d, i), 0), "?"@);
    }
    assert forall|i: int|
        0 <= i < b.spec_metadata().len() && !b.spec_meta_values()[i].contains(0u8)
            implies encode_utf8(string_or(d, u64_at(#[trigger] metadata_entry(d, i), 8), "?"@))
            == b.spec_meta_values()[i] by {
        finished_metadata(b.spec_metadata()[i], po).lemma_layout();
        lemma_string_or_shows_string(d, u64_at(metadata_entry(d, i), 8), "?"@);
    }
}

/// The bytes whose XXH3-64 hash the footer stores: the asset, page, section
/// and metadata tables and the string pool, from the asset table's offset to
/// the end of the pool; `None` when the asset table starts past that end.
pub open spec fn directory_region(d: Seq<u8>) -> Option<Seq<u8>> {
    let start = asset_offset_of(d) as int;
    let end = pool_offset_of(d) + pool_size_of(d);
    if start <= end {
        Some(d.subrange(start, end))
    } else {
        None
    }
}

/// What `verify` finds of the index: whether the footer's hash is the hash
/// of the tables and pool, or `None` when their offsets give no region.
pub open spec fn directory_check(d: Seq<u8>) -> Option<bool> {
    match directory_region(d) {
        Some(r) => Some(xxh3_64_of(r) == footer_u64(d, 104)),
        None => None,
    }
}

/// Checks the hash the footer stores against the XXH3-64 hash of the tables
/// and the string pool.
pub fn directory_ok(reader: &BBFReader) -> (r: Option<bool>)
    requires
        reader.wf(),
    ensures
        r == directory_check(reader.bytes()),
{
    proof {
        reader.lemma_wf();
        reader.lemma_fields();
        assert(reader.data@.len() == reader.data.len());
    }
    let start = reader.footer.asset_offset;
    let end = reader.footer.string_pool_offset + reader.footer.string_pool_size;
    if start > end {
        return None;
    }
    let h = xxh3_64(vstd::slice::slice_subrange(reader.data, start as usize, end as usize));
    Some(h == reader.footer.footer_hash)
}

/// The index of a finished book passes `verify`'s check: the footer holds
/// the XXH3-64 hash of the tables and string pool.
pub proof fn lemma_finished_book_directory_ok(b: BBFBuilder)
    requires
        b.wf(),
    ensures
        directory_check(b.spec_image()) == Some(true),
{
    b.lemma_finished_file_parses();
    b.lemma_finished_file_layout();
    b.spec_footer().lemma_layout();
    let d = b.spec_image();
    let w = b.written().len() as int;
    let t = b.spec_tables().len() as int;
    crate::reader::lemma_u64_at_subrange(d, w + t, w + t + 256, 104);
}

/// The index of a petrified finished book passes `verify`'s check too.
pub proof fn lemma_petrified_book_directory_ok(b: BBFBuilder)
    requires
        b.wf(),
    ensures
        petrify_outcome(b.spec_image()) is Ok,
        directory_check(petrify_outcome(b.spec_image())->Ok_0) == Some(true),
{
    lemma_petrified_book(b);
}

/// What checking an asset finds.
#[derive(Debug, Clone, Copy, PartialEq, Eq, Structural)]
pub enum AssetStatus {
    /// Its bytes hash to the two halves its entry stores.
    Intact,
    /// Its bytes do not lie inside the file.
    OutOfBounds,
    /// Its bytes hash to something else.
    Corrupt,
}

/// What checking asset `k` finds: whether its bytes lie inside the file,
/// and whether their XXH3-128 hash has the two halves its entry stores.
pub open spec fn asset_status_of(d: Seq<u8>, k: int) -> AssetStatus {
    let e = entry_bytes(d, asset_offset_of(d), k, 48);
    let off = u64_at(e, 0);
    let size = u64_at(e, 24);
    if off + size > d.len() {
        AssetStatus::OutOfBounds
    } else if hash_lo(xxh3_128_of(d.subrange(off as int, off + size))) == u64_at(e, 8) && hash_hi(
        xxh3_128_of(d.subrange(off as int, off + size)),
    ) == u64_at(e, 16) {
        AssetStatus::Intact
    } else {
        AssetStatus::Corrupt
    }
}

/// Checks asset `index` against the hash its entry stores.
pub fn asset_status(reader: &BBFReader, index: u64) -> (r: AssetStatus)
    requires
        reader.wf(),
        index < asset_count_of(reader.bytes()),
    ensures
        r == asset_status_of(reader.bytes(), index as int),
{
    proof {
        reader.lemma_wf();
        reader.lemma_fields();
    }
    let assets = reader.assets();
    let asset = &assets[index as usize];
    proof {
        asset.lemma_layout();
    }
    let start = asset.file_offset;
    let len = asset.file_size;
    let end = match start.checked_add(len) {
        Some(e) => e,
        None => {
            return AssetStatus::OutOfBounds;
        },
    };
    if end > reader.data.len() as u64 {
        return AssetStatus::OutOfBounds;
    }
    let hash = xxh3_128(vstd::slice::slice_subrange(reader.data, start as usize, end as usize));
    let (lo, hi) = split_hash(hash);
    if lo == asset.asset_hash[0] && hi == asset.asset_hash[1] {
        AssetStatus::Intact
    } else {
        AssetStatus::Corrupt
    }
}

/// Checking an asset hashes all of its bytes: the check finds an asset of
/// the table out of bounds exactly when its bytes cannot be read from the
/// file, and intact exactly when they can and the XXH3-128 hash of all of
/// them has the two halves its entry stores.
pub proof fn lemma_asset_status_hashes_whole_asset(d: Seq<u8>, k: int)
    requires
        0 <= k < asset_count_of(d),
        d.len() <= u64::MAX,
    ensures
        ({
            let e = entry_bytes(d, asset_offset_of(d), k, 48);
            &&& (asset_status_of(d, k) == AssetStatus::OutOfBounds) <==> asset_outcome(d, k as u64) is Err
            &&& (asset_status_of(d, k) == AssetStatus::Intact) <==> (asset_outcome(d, k as u64) is Ok
                && hash_lo(xxh3_128_of(asset_outcome(d, k as u64)->Ok_0)) == u64_at(e, 8) && hash_hi(
                xxh3_128_of(asset_outcome(d, k as u64)->Ok_0),
            ) == u64_at(e, 16))
        }),
{
}

/// Every asset of a finished book is intact.
pub proof fn lemma_finished_book_assets_intact(b: BBFBuilder)
    requires
        b.wf(),
    ensures
        ({
            let d = b.spec_image();
            &&& asset_count_of(d) == b.spec_assets().len()
            &&& forall|k: int|
                0 <= k < asset_count_of(d) ==> #[trigger] asset_status_of(d, k) == AssetStatus::Intact
        }),
{
    b.lemma_finished_file_parses();
    b.lemma_finished_file_tables();
    b.lemma_finished_file_assets();
    b.lemma_assets();
    let d = b.spec_image();
    assert forall|k: int| 0 <= k < asset_count_of(d) implies #[trigger] asset_status_of(d, k)
        == AssetStatus::Intact by {
        let e = b.spec_assets()[k];
        e.lemma_layout();
        assert(entry_bytes(d, asset_offset_of(d), k, 48) == e.encoded());
        assert(asset_outcome(d, k as u64) == Ok::<Seq<u8>, crate::reader::BBFError>(
            b.spec_asset_data()[k],
        ));
    }
}

/// Every asset of a petrified finished book is intact too.
pub proof fn lemma_petrified_book_assets_intact(b: BBFBuilder)
    requires
        b.wf(),
    ensures
        petrify_outcome(b.spec_image()) is Ok,
        ({
            let p = petrify_outcome(b.spec_image())->Ok_0;
            forall|k: int|
                0 <= k < asset_count_of(p) ==> #[trigger] asset_status_of(p, k) == AssetStatus::Intact
        }),
{
    lemma_petrified_book(b);
    lemma_finished_book_assets_intact(b);
    let d = b.spec_image();
    let p = petrify_outcome(d)->Ok_0;
    assert forall|k: int| 0 <= k < asset_count_of(p) implies #[trigger] asset_status_of(p, k)
        == AssetStatus::Intact by {
        assert(asset_kept(p, d, k));
        assert(asset_status_of(d, k) == AssetStatus::Intact);
        b.lemma_finished_file_layout();
        lemma_asset_status_hashes_whole_asset(d, k);
        let x = asset_outcome(d, k as u64)->Ok_0;
        let ep = entry_bytes(p, asset_offset_of(p), k, 48);
        assert(asset_outcome(p, k as u64) == Ok::<Seq<u8>, crate::reader::BBFError>(x));
        assert(p.subrange(u64_at(ep, 0) as int, u64_at(ep, 0) + u64_at(ep, 24)) == x);
    }
}

/// Which assets `verify` checks.
#[derive(Debug, Clone, Copy, PartialEq, Eq, Structural)]
pub enum AssetCheck {
    /// Only the asset at this position.
    One(u64),
    /// None: the assets count as intact.
    Skip,
    /// Every asset.
    All,
}

/// What `verify` checks for the index it was given: a non-negative index
/// names one asset, `-1` skips the assets, and no index (or any other
/// negative one) asks for all of them.
pub fn asset_check_plan(index: Option<i32>) -> (r: AssetCheck)
    ensures
        r == match index {
            Some(i) => if i >= 0 {
                AssetCheck::One(i as u64)
            } else if i == -1 {
                AssetCheck::Skip
            } else {
                AssetCheck::All
            },
            None => AssetCheck::All,
        },
{
    match index {
        Some(i) => if i >= 0 {
            AssetCheck::One(i as u64)
        } else if i == -1 {
            AssetCheck::Skip
        } else {
            AssetCheck::All
        },
        None => AssetCheck::All,
    }
}

/// What `verify` concludes from the directory check and the statuses of
/// the assets it checked: whether all those assets are intact, and whether
/// the whole check passed (the directory and the assets).
pub fn verify_outcome(directory_ok: bool, statuses: &Vec<AssetStatus>) -> (r: (bool, bool))
    ensures
        r.0 == (forall|i: int| 0 <= i < statuses@.len() ==> statuses@[i] == AssetStatus::Intact),
        r.1 == (directory_ok && r.0),
{
    let mut all_ok = true;
    let mut i: usize = 0;
    while i < statuses.len()
        invariant
            0 <= i <= statuses@.len(),
            all_ok == (forall|k: int| 0 <= k < i ==> statuses@[k] == AssetStatus::Intact),
        decreases statuses@.len() - i,
    {
        if statuses[i] != AssetStatus::Intact {
            all_ok = false;
        }
        i = i + 1;
    }
    (all_ok, directory_ok && all_ok)
}

/// What `create` does with its inputs: `None` when there is no input file
/// to build from (the tool stops with an error); else whether to petrify
/// the book, which it does when asked on the command line or by the
/// manifest's options.
pub fn create_plan(cli_petrify: bool, manifest_petrify: Option<bool>, input_count: usize) -> (r:
    Option<bool>)
    ensures
        r == if input_count == 0 {
            None
        } else {
            Some(cli_petrify || manifest_petrify == Some(true))
        },
{
    if input_count == 0 {
        None
    } else {
        let from_manifest = match manifest_petrify {
            Some(p) => p,
            None => false,
        };
        Some(cli_petrify || from_manifest)
    }
}

/// The title bytes of section `i` as `extract` compares them: the string at
/// its title offset, or nothing when there is none or it is not UTF-8.
pub open spec fn section_title_or_empty(d: Seq<u8>, i: int) -> Seq<u8> {
    match string_bytes_at(d, u64_at(section_entry(d, i), 0)) {
        Some(b) => if valid_utf8(b) {
            b
        } else {
            Seq::empty()
        },
        None => Seq::empty(),
    }
}

/// The first section from `i` on titled `t`.
pub open spec fn first_section_titled(d: Seq<u8>, t: Seq<u8>, i: int) -> Option<int>
    decreases section_count_of(d) - i,
    when 0 <= i
{
    if i >= section_count_of(d) {
        None
    } else if section_title_or_empty(d, i) == t {
        Some(i)
    } else {
        first_section_titled(d, t, i + 1)
    }
}

/// The pages `extract` takes for a section: from its first page up to the
/// next section's first page, or to the end of the book for the last one.
pub open spec fn section_page_range(d: Seq<u8>, i: int) -> (u64, u64) {
    (
        u64_at(section_entry(d, i), 8),
        if i + 1 < section_count_of(d) {
            u64_at(section_entry(d, i + 1), 8)
        } else {
            page_count_of(d)
        },
    )
}

/// From section `i` on, the section found bears the title and no section
/// between `i` and it does; none is found only when no section from `i` on
/// bears it.
proof fn lemma_first_section_titled_from(d: Seq<u8>, t: Seq<u8>, i: int)
    requires
        0 <= i,
    ensures
        match first_section_titled(d, t, i) {
            Some(j) => i <= j < section_count_of(d) && section_title_or_empty(d, j) == t && forall|
                k: int,
            | i <= k < j ==> section_title_or_empty(d, k) != t,
            None => forall|k: int| i <= k < section_count_of(d) ==> section_title_or_empty(d, k) != t,
        },
    decreases section_count_of(d) - i,
{
    if i < section_count_of(d) && section_title_or_empty(d, i) != t {
        lemma_first_section_titled_from(d, t, i + 1);
    }
}

/// `extract --section` takes the first section in table order that bears
/// the title: the one found bears it and no earlier section does; none is
/// found only when no section bears it.
pub proof fn lemma_first_section_titled_is_first(d: Seq<u8>, t: Seq<u8>)
    ensures
        match first_section_titled(d, t, 0) {
            Some(i) => 0 <= i < section_count_of(d) && section_title_or_empty(d, i) == t && forall|
                k: int,
            | 0 <= k < i ==> section_title_or_empty(d, k) != t,
            None => forall|k: int| 0 <= k < section_count_of(d) ==> section_title_or_empty(d, k) != t,
        },
{
    lemma_first_section_titled_from(d, t, 0);
}

/// The page range of the first section titled `title`, if any.
#[verifier::spinoff_prover]
pub fn find_section(reader: &BBFReader, title: &str) -> (r: Option<(u64, u64)>)
    requires
        reader.wf(),
    ensures
        match first_section_titled(reader.bytes(), title.spec_bytes(), 0) {
            None => r is None,
            Some(i) => r == Some(section_page_range(reader.bytes(), i)),
        },
{
    proof {
        reader.lemma_wf();
        reader.lemma_fields();
        reveal_strlit("");
    }
    let d = Ghost(reader.bytes());
    let sections = reader.sections();
    let pages = reader.pages();
    let mut i: usize = 0;
    while i < sections.len()
        invariant
            reader.wf(),
            d@ == reader.bytes(),
            sections@.len() == section_count_of(d@),
            pages@.len() == page_count_of(d@),
            forall|k: int|
                0 <= k < sections@.len() ==> (#[trigger] sections@[k]).encoded() == section_entry(
                    d@,
                    k,
                ),
            0 <= i <= sections@.len(),
            first_section_titled(d@, title.spec_bytes(), 0) == first_section_titled(
                d@,
                title.spec_bytes(),
                i as int,
            ),
        decreases sections@.len() - i,
    {
        let s = &sections[i];
        proof {
            s.lemma_layout();
        }
        let t = match reader.get_string(s.section_title_offset) {
            Some(t) => t,
            None => "",
        };
        proof {
            lemma_encode_utf8_injective(t@, title@);
            reveal_strlit("");
            assert(""@ =~= Seq::<char>::empty());
        }
        if str_eq(t, title) {
            let end = if i + 1 < sections.len() {
                proof {
                    sections@[i + 1].lemma_layout();
                }
                sections[i + 1].section_start_index
            } else {
                pages.len() as u64
            };
            return Some((s.section_start_index, end));
        }
        i = i + 1;
    }
    None
}

/// Page `i`'s asset for `extract`: its media type, and its bytes when they
/// lie inside the file (`None` otherwise: the tool skips the page).
pub fn page_extraction<'a>(reader: &BBFReader<'a>, i: u64) -> (r: (BBFMediaType, Option<&'a [u8]>))
    requires
        reader.wf(),
        i < page_count_of(reader.bytes()),
        page_asset_index(reader.bytes(), i as int) < asset_count_of(reader.bytes()),
    ensures
        ({
            let d = reader.bytes();
            let k = page_asset_index(d, i as int) as int;
            let e = entry_bytes(d, asset_offset_of(d), k, 48);
            let off = u64_at(e, 0);
            let size = u64_at(e, 24);
            &&& r.0 == BBFMediaType::spec_from_code(asset_type_code(d, k))
            &&& match r.1 {
                Some(s) => off + size <= d.len() && s@ == d.subrange(off as int, off + size),
                None => off + size > d.len(),
            }
        }),
{
    proof {
        reader.lemma_wf();
        reader.lemma_fields();
    }
    let pages = reader.pages();
    let page = &pages[i as usize];
    proof {
        page.lemma_layout();
    }
    let assets = reader.assets();
    let asset = &assets[page.asset_index as usize];
    proof {
        asset.lemma_layout();
    }
    let media = BBFMediaType::from(asset.type_);
    let offset = asset.file_offset;
    let len = asset.file_size;
    let end = match offset.checked_add(len) {
        Some(e) => e,
        None => {
            return (media, None);
        },
    };
    if end > reader.data.len() as u64 {
        return (media, None);
    }
    (media, Some(vstd::slice::slice_subrange(reader.data, offset as usize, end as usize)))
}

} // verus!
