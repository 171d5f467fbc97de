//! Petrification: rewriting a finished file so that its footer and tables
//! come right after the header, before the page images, which lets a reader
//! parse the index from the first bytes of the file.

use vstd::prelude::*;
use vstd::bytes::*;
use vstd::slice::slice_subrange;
use vstd::wrapping::u64_specs::{wrapping_add, wrapping_sub};
use crate::builder::{
    asset_table_bytes, concat_bytes, finished_metadata, finished_section, lemma_concat_push,
    lemma_concat_uniform_index, metadata_table_bytes, page_table_bytes,
    section_table_bytes, BBFBuilder,
};
use crate::codec::{lemma_le_roundtrips, push_bytes, read_u64, u64_at};
use crate::format::{BBFAssetEntry, BBFMetadata, BBFSection, NO_PARENT};
use crate::hash::{xxh3_64, xxh3_64_of};
use crate::reader::{
    asset_count_of, asset_offset_of, asset_outcome, entry_bytes, footer_pos, footer_u64,
    lemma_u64_at_subrange,
    meta_count_of, meta_offset_of, page_count_of, page_offset_of, parse_outcome,
    pool_offset_of, pool_size_of, section_count_of, section_offset_of, string_bytes_at, BBFError,
};

verus! {

/// `b` with the little-endian `u64` at `off` replaced by `x`.
pub open spec fn set_u64(b: Seq<u8>, off: int, x: u64) -> Seq<u8> {
    b.subrange(0, off) + spec_u64_to_le_bytes(x) + b.subrange(off + 8, b.len() as int)
}

/// An asset entry's bytes with its file offset moved by `shift`.
pub open spec fn moved_asset(e: Seq<u8>, shift: u64) -> Seq<u8> {
    set_u64(e, 0, wrapping_add(u64_at(e, 0), shift))
}

/// A section entry's bytes with its title offset, and its parent offset
/// unless it is "no parent", moved by `diff`.
pub open spec fn moved_section(e: Seq<u8>, diff: u64) -> Seq<u8> {
    let e1 = set_u64(e, 0, wrapping_add(u64_at(e, 0), diff));
    if u64_at(e, 16) != NO_PARENT {
        set_u64(e1, 16, wrapping_add(u64_at(e, 16), diff))
    } else {
        e1
    }
}

/// A metadata entry's bytes with its key and value offsets, and its parent
/// offset unless it is "no parent", moved by `diff`.
pub open spec fn moved_metadata(e: Seq<u8>, diff: u64) -> Seq<u8> {
    let e1 = set_u64(e, 0, wrapping_add(u64_at(e, 0), diff));
    let e2 = set_u64(e1, 8, wrapping_add(u64_at(e, 8), diff));
    if u64_at(e, 16) != NO_PARENT {
        set_u64(e2, 16, wrapping_add(u64_at(e, 16), diff))
    } else {
        e2
    }
}

/// The asset table at the start of `t`, each entry's offset moved by `shift`.
pub open spec fn moved_asset_table(t: Seq<u8>, n: nat, shift: u64) -> Seq<u8> {
    concat_bytes(Seq::new(n, |i: int| moved_asset(t.subrange(48 * i, 48 * i + 48), shift)))
}

/// The section table at `start` in `t`, each entry's offsets moved by `diff`.
pub open spec fn moved_section_table(t: Seq<u8>, start: int, n: nat, diff: u64) -> Seq<u8> {
    concat_bytes(
        Seq::new(n, |i: int| moved_section(t.subrange(start + 32 * i, start + 32 * i + 32), diff)),
    )
}

/// The metadata table at `start` in `t`, each entry's offsets moved by `diff`.
pub open spec fn moved_metadata_table(t: Seq<u8>, start: int, n: nat, diff: u64) -> Seq<u8> {
    concat_bytes(
        Seq::new(
            n,
            |i: int| moved_metadata(t.subrange(start + 32 * i, start + 32 * i + 32), diff),
        ),
    )
}

/// What petrifying the file `f` gives. The footer is read where the header
/// says; the asset, page, section and metadata tables and the string pool
/// are read as one run starting at the asset table. The new file is the
/// header (its footer offset now 64), the footer (table and pool offsets for
/// their new places and the hash of the new tables), the tables (asset
/// offsets moved by the footer and tables' size, string offsets by the
/// pool's move, both wrapping) and then everything that lay between header
/// and old footer; anything of the old file beyond that stays.
pub open spec fn petrify_outcome(f: Seq<u8>) -> Result<Seq<u8>, BBFError> {
    if f.len() < 64 {
        Err(BBFError::FileTooShort)
    } else if u64_at(f, 16) + 256 > f.len() {
        Err(BBFError::FileTooShort)
    } else {
        let ofo = u64_at(f, 16) as int;
        let foot = f.subrange(ofo, ofo + 256);
        let ao = u64_at(foot, 0);
        let old_pool = u64_at(foot, 40);
        let ps = u64_at(foot, 48);
        let na = u64_at(foot, 56);
        let np = u64_at(foot, 64);
        let ns = u64_at(foot, 72);
        let nm = u64_at(foot, 80);
        let la = 48 * na;
        let lp = 16 * np;
        let ls = 32 * ns;
        let lm = 32 * nm;
        let tsize = la + lp + ls + lm + ps;
        if tsize + 320 > u64::MAX {
            Err(BBFError::TableError)
        } else if ao + tsize > f.len() {
            Err(BBFError::FileTooShort)
        } else {
            let t0 = f.subrange(ao as int, ao + tsize);
            let shift = (256 + tsize) as u64;
            let new_pool = (320 + la + lp + ls + lm) as u64;
            let diff = wrapping_sub(new_pool, old_pool);
            let t1 = moved_asset_table(t0, na as nat, shift) + t0.subrange(la, la + lp)
                + moved_section_table(t0, la + lp, ns as nat, diff) + moved_metadata_table(
                t0,
                la + lp + ls,
                nm as nat,
                diff,
            ) + t0.subrange(la + lp + ls + lm, tsize);
            let foot1 = set_u64(
                set_u64(
                    set_u64(
                        set_u64(
                            set_u64(set_u64(foot, 0, 320), 8, (320 + la) as u64),
                            16,
                            (320 + la + lp) as u64,
                        ),
                        24,
                        (320 + la + lp + ls) as u64,
                    ),
                    40,
                    new_pool,
                ),
                104,
                xxh3_64_of(t1),
            );
            let head1 = set_u64(f.subrange(0, 64), 16, 64);
            let region = if ofo > 64 {
                f.subrange(64, ofo)
            } else {
                Seq::empty()
            };
            let front = head1 + foot1 + t1 + region;
            if f.len() > front.len() {
                Ok(front + f.subrange(front.len() as int, f.len() as int))
            } else {
                Ok(front)
            }
        }
    }
}

/// Writing a `u64` into bytes: the length stays, the value reads back, and
/// everything before and after is untouched.
#[verifier::spinoff_prover]
pub proof fn lemma_set_u64(b: Seq<u8>, off: int, x: u64)
    requires
        0 <= off,
        off + 8 <= b.len(),
    ensures
        set_u64(b, off, x).len() == b.len(),
        u64_at(set_u64(b, off, x), off) == x,
        set_u64(b, off, x).subrange(0, off) == b.subrange(0, off),
        set_u64(b, off, x).subrange(off + 8, b.len() as int) == b.subrange(off + 8, b.len() as int),
{
    lemma_le_roundtrips();
    let r = set_u64(b, off, x);
    assert(r.subrange(off, off + 8) =~= spec_u64_to_le_bytes(x));
    assert(r.subrange(0, off) =~= b.subrange(0, off));
    assert(r.subrange(off + 8, b.len() as int) =~= b.subrange(off + 8, b.len() as int));
}

/// Writing a `u64` leaves the `u64`s that do not overlap it.
#[verifier::spinoff_prover]
pub proof fn lemma_set_u64_other(b: Seq<u8>, off: int, x: u64, k: int)
    requires
        0 <= off,
        off + 8 <= b.len(),
        0 <= k,
        k + 8 <= b.len(),
        k + 8 <= off || off + 8 <= k,
    ensures
        u64_at(set_u64(b, off, x), k) == u64_at(b, k),
{
    lemma_set_u64(b, off, x);
    let r = set_u64(b, off, x);
    if k + 8 <= off {
        assert(r.subrange(k, k + 8) =~= r.subrange(0, off).subrange(k, k + 8));
        assert(b.subrange(k, k + 8) =~= b.subrange(0, off).subrange(k, k + 8));
    } else {
        let n = b.len() as int;
        assert(r.subrange(k, k + 8) =~= r.subrange(off + 8, n).subrange(k - off - 8, k - off));
        assert(b.subrange(k, k + 8) =~= b.subrange(off + 8, n).subrange(k - off - 8, k - off));
    }
}

/// Adding `diff`, the wrapped move from `from` to `to`, to `x + from` gives
/// `x + to` when neither overflows.
#[verifier::spinoff_prover]
pub proof fn lemma_wrapping_move(x: int, from: u64, to: u64)
    requires
        0 <= x,
        x + from <= u64::MAX,
        x + to <= u64::MAX,
    ensures
        wrapping_add((x + from) as u64, wrapping_sub(to, from)) == x + to,
{
}

/// An asset entry with its file offset moved by `shift`, wrapping.
pub open spec fn shifted_asset(e: BBFAssetEntry, shift: u64) -> BBFAssetEntry {
    BBFAssetEntry { file_offset: wrapping_add(e.file_offset, shift), ..e }
}

/// Moving an asset entry's bytes is moving the entry.
#[verifier::spinoff_prover]
pub proof fn lemma_moved_asset(e: BBFAssetEntry, shift: u64)
    ensures
        moved_asset(e.encoded(), shift) == shifted_asset(e, shift).encoded(),
{
    e.lemma_layout();
    shifted_asset(e, shift).lemma_layout();
    lemma_le_roundtrips();
    assert(moved_asset(e.encoded(), shift) =~= shifted_asset(e, shift).encoded());
}

/// Moving the bytes of a section, finished for a pool at `from`, by the
/// wrapped difference to `to` gives the section finished for a pool at `to`.
#[verifier::spinoff_prover]
pub proof fn lemma_moved_section(s: BBFSection, from: u64, to: u64)
    requires
        s.section_title_offset + from <= u64::MAX,
        s.section_title_offset + to <= u64::MAX,
        s.section_parent_offset != NO_PARENT ==> s.section_parent_offset + from < u64::MAX,
        s.section_parent_offset != NO_PARENT ==> s.section_parent_offset + to < u64::MAX,
    ensures
        moved_section(finished_section(s, from).encoded(), wrapping_sub(to, from))
            == finished_section(s, to).encoded(),
{
    let a = finished_section(s, from);
    let b = finished_section(s, to);
    let diff = wrapping_sub(to, from);
    a.lemma_layout();
    b.lemma_layout();
    lemma_le_roundtrips();
    lemma_wrapping_move(s.section_title_offset as int, from, to);
    let e = a.encoded();
    let e1 = set_u64(e, 0, wrapping_add(u64_at(e, 0), diff));
    lemma_set_u64(e, 0, wrapping_add(u64_at(e, 0), diff));
    lemma_set_u64_other(e, 0, wrapping_add(u64_at(e, 0), diff), 16);
    if s.section_parent_offset != NO_PARENT {
        lemma_wrapping_move(s.section_parent_offset as int, from, to);
        assert(moved_section(e, diff) =~= b.encoded());
    } else {
        assert(moved_section(e, diff) =~= b.encoded());
    }
}

/// Moving the bytes of a metadata pair without parent, finished for a pool
/// at `from`, by the wrapped difference to `to` gives it finished for `to`.
#[verifier::spinoff_prover]
pub proof fn lemma_moved_metadata(m: BBFMetadata, from: u64, to: u64)
    requires
        m.key_offset + from <= u64::MAX,
        m.key_offset + to <= u64::MAX,
        m.value_offset + from <= u64::MAX,
        m.value_offset + to <= u64::MAX,
        m.parent_offset == NO_PARENT,
    ensures
        moved_metadata(finished_metadata(m, from).encoded(), wrapping_sub(to, from))
            == finished_metadata(m, to).encoded(),
{
    let a = finished_metadata(m, from);
    let b = finished_metadata(m, to);
    let diff = wrapping_sub(to, from);
    a.lemma_layout();
    b.lemma_layout();
    lemma_le_roundtrips();
    lemma_wrapping_move(m.key_offset as int, from, to);
    lemma_wrapping_move(m.value_offset as int, from, to);
    let e = a.encoded();
    let x0 = wrapping_add(u64_at(e, 0), diff);
    let e1 = set_u64(e, 0, x0);
    lemma_set_u64(e, 0, x0);
    lemma_set_u64_other(e, 0, x0, 8);
    lemma_set_u64_other(e, 0, x0, 16);
    assert(moved_metadata(e, diff) =~= b.encoded());
}

/// Runs concatenated with known lengths: the run at a known position.
#[verifier::spinoff_prover]
proof fn lemma_concat5_parts(a: Seq<u8>, b: Seq<u8>, c: Seq<u8>, d: Seq<u8>, e: Seq<u8>)
    ensures
        ({
            let t = a + b + c + d + e;
            let la = a.len() as int;
            let lb = b.len() as int;
            let lc = c.len() as int;
            let ld = d.len() as int;
            &&& t.subrange(0, la) == a
            &&& t.subrange(la, la + lb) == b
            &&& t.subrange(la + lb, la + lb + lc) == c
            &&& t.subrange(la + lb + lc, la + lb + lc + ld) == d
            &&& t.subrange(la + lb + lc + ld, t.len() as int) == e
        }),
{
    let t = a + b + c + d + e;
    let la = a.len() as int;
    let lb = b.len() as int;
    let lc = c.len() as int;
    let ld = d.len() as int;
    assert(t.subrange(0, la) =~= a);
    assert(t.subrange(la, la + lb) =~= b);
    assert(t.subrange(la + lb, la + lb + lc) =~= c);
    assert(t.subrange(la + lb + lc, la + lb + lc + ld) =~= d);
    assert(t.subrange(la + lb + lc + ld, t.len() as int) =~= e);
}

/// The tables that petrifying a finished file writes: asset entries moved
/// by `shift`, page entries as they were, section and metadata entries
/// finished for the pool at `new_pool`, and the pool as it was.
#[verifier::spinoff_prover]
#[verifier::rlimit(50)]
proof fn lemma_petrified_tables(b: BBFBuilder, shift: u64, new_pool: u64)
    requires
        b.wf(),
        shift == 256 + b.spec_tables().len(),
        new_pool == 320 + 48 * b.spec_assets().len() + 16 * b.spec_pages().len() + 32
            * b.spec_sections().len() + 32 * b.spec_metadata().len(),
    ensures
        ({
            let t0 = b.spec_tables();
            let na = b.spec_assets().len() as int;
            let np = b.spec_pages().len() as int;
            let ns = b.spec_sections().len() as int;
            let nm = b.spec_metadata().len() as int;
            let diff = wrapping_sub(new_pool, b.spec_pool_offset());
            &&& moved_asset_table(t0, na as nat, shift) == asset_table_bytes(
                b.spec_assets().map_values(|e: BBFAssetEntry| shifted_asset(e, shift)),
            )
            &&& t0.subrange(48 * na, 48 * na + 16 * np) == page_table_bytes(b.spec_pages())
            &&& moved_section_table(t0, 48 * na + 16 * np, ns as nat, diff) == section_table_bytes(
                b.spec_sections(),
                new_pool,
            )
            &&& moved_metadata_table(t0, 48 * na + 16 * np + 32 * ns, nm as nat, diff)
                == metadata_table_bytes(b.spec_metadata(), new_pool)
            &&& t0.subrange(48 * na + 16 * np + 32 * ns + 32 * nm, t0.len() as int)
                == b.spec_pool()
        }),
{
    b.lemma_finished_file_layout();
    let t0 = b.spec_tables();
    let a = b.spec_assets();
    let p = b.spec_pages();
    let sc = b.spec_sections();
    let m = b.spec_metadata();
    let po = b.spec_pool_offset();
    let na = a.len() as int;
    let np = p.len() as int;
    let ns = sc.len() as int;
    let nm = m.len() as int;
    let diff = wrapping_sub(new_pool, po);
    crate::builder::lemma_table_lengths(a, p, sc, m, po);
    let at = asset_table_bytes(a);
    let pt = page_table_bytes(p);
    let st = section_table_bytes(sc, po);
    let mt = metadata_table_bytes(m, po);
    lemma_concat5_parts(at, pt, st, mt, b.spec_pool());
    let fa = |e: BBFAssetEntry| e.encoded();
    let fs = |e: BBFSection| finished_section(e, po).encoded();
    let fm = |e: BBFMetadata| finished_metadata(e, po).encoded();
    assert forall|j: int| 0 <= j < na implies (#[trigger] a.map_values(fa)[j]).len() == 48 by {
        a[j].lemma_layout();
    }
    assert forall|j: int| 0 <= j < ns implies (#[trigger] sc.map_values(fs)[j]).len() == 32 by {
        finished_section(sc[j], po).lemma_layout();
    }
    assert forall|j: int| 0 <= j < nm implies (#[trigger] m.map_values(fm)[j]).len() == 32 by {
        finished_metadata(m[j], po).lemma_layout();
    }
    // Assets.
    let ga = |i: int| moved_asset(t0.subrange(48 * i, 48 * i + 48), shift);
    let ha = |e: BBFAssetEntry| shifted_asset(e, shift).encoded();
    assert forall|i: int| 0 <= i < na implies #[trigger] Seq::new(na as nat, ga)[i] == a.map_values(
        |e: BBFAssetEntry| shifted_asset(e, shift),
    ).map_values(fa)[i] by {
        lemma_concat_uniform_index(a.map_values(fa), 48, i);
        assert(t0.subrange(48 * i, 48 * i + 48) =~= at.subrange(48 * i, 48 * i + 48));
        lemma_moved_asset(a[i], shift);
    }
    assert(Seq::new(na as nat, ga) =~= a.map_values(|e: BBFAssetEntry| shifted_asset(e, shift)).map_values(
        fa,
    ));
    // Sections.
    let start_s = 48 * na + 16 * np;
    let gs = |i: int| moved_section(t0.subrange(start_s + 32 * i, start_s + 32 * i + 32), diff);
    let hs = |e: BBFSection| finished_section(e, new_pool).encoded();
    assert forall|i: int| 0 <= i < ns implies #[trigger] Seq::new(ns as nat, gs)[i] == sc.map_values(
        hs,
    )[i] by {
        lemma_concat_uniform_index(sc.map_values(fs), 32, i);
        assert(t0.subrange(start_s + 32 * i, start_s + 32 * i + 32) =~= st.subrange(
            32 * i,
            32 * i + 32,
        ));
        let sec = sc[i];
        assert(crate::builder::pool_holds(b.spec_pool(), sec.section_title_offset as int, b.spec_section_titles()[i]));
        lemma_moved_section(sec, po, new_pool);
    }
    assert(Seq::new(ns as nat, gs) =~= sc.map_values(hs));
    // Metadata.
    let start_m = 48 * na + 16 * np + 32 * ns;
    let gm = |i: int| moved_metadata(t0.subrange(start_m + 32 * i, start_m + 32 * i + 32), diff);
    let hm = |e: BBFMetadata| finished_metadata(e, new_pool).encoded();
    assert forall|i: int| 0 <= i < nm implies #[trigger] Seq::new(nm as nat, gm)[i] == m.map_values(
        hm,
    )[i] by {
        lemma_concat_uniform_index(m.map_values(fm), 32, i);
        assert(t0.subrange(start_m + 32 * i, start_m + 32 * i + 32) =~= mt.subrange(
            32 * i,
            32 * i + 32,
        ));
        let md = m[i];
        assert(crate::builder::pool_holds(b.spec_pool(), md.key_offset as int, b.spec_meta_keys()[i]));
        assert(crate::builder::pool_holds(b.spec_pool(), md.value_offset as int, b.spec_meta_values()[i]));
        lemma_moved_metadata(md, po, new_pool);
    }
    assert(Seq::new(nm as nat, gm) =~= m.map_values(hm));
}

/// The footer bytes petrification writes, field by field.
#[verifier::spinoff_prover]
proof fn lemma_new_footer_fields(
    foot: Seq<u8>,
    a0: u64,
    a1: u64,
    a2: u64,
    a3: u64,
    pool: u64,
    hash: u64,
)
    requires
        foot.len() == 256,
    ensures
        ({
            let f = set_u64(
                set_u64(
                    set_u64(set_u64(set_u64(set_u64(foot, 0, a0), 8, a1), 16, a2), 24, a3),
                    40,
                    pool,
                ),
                104,
                hash,
            );
            &&& f.len() == 256
            &&& u64_at(f, 0) == a0
            &&& u64_at(f, 8) == a1
            &&& u64_at(f, 16) == a2
            &&& u64_at(f, 24) == a3
            &&& u64_at(f, 40) == pool
            &&& u64_at(f, 104) == hash
            &&& u64_at(f, 48) == u64_at(foot, 48)
            &&& u64_at(f, 56) == u64_at(foot, 56)
            &&& u64_at(f, 64) == u64_at(foot, 64)
            &&& u64_at(f, 72) == u64_at(foot, 72)
            &&& u64_at(f, 80) == u64_at(foot, 80)
        }),
{
    let f1 = set_u64(foot, 0, a0);
    let f2 = set_u64(f1, 8, a1);
    let f3 = set_u64(f2, 16, a2);
    let f4 = set_u64(f3, 24, a3);
    let f5 = set_u64(f4, 40, pool);
    let f6 = set_u64(f5, 104, hash);
    lemma_set_u64(foot, 0, a0);
    lemma_set_u64(f1, 8, a1);
    lemma_set_u64(f2, 16, a2);
    lemma_set_u64(f3, 24, a3);
    lemma_set_u64(f4, 40, pool);
    lemma_set_u64(f5, 104, hash);
    // a0
    lemma_set_u64_other(f1, 8, a1, 0);
    lemma_set_u64_other(f2, 16, a2, 0);
    lemma_set_u64_other(f3, 24, a3, 0);
    lemma_set_u64_other(f4, 40, pool, 0);
    lemma_set_u64_other(f5, 104, hash, 0);
    // a1
    lemma_set_u64_other(f2, 16, a2, 8);
    lemma_set_u64_other(f3, 24, a3, 8);
    lemma_set_u64_other(f4, 40, pool, 8);
    lemma_set_u64_other(f5, 104, hash, 8);
    // a2
    lemma_set_u64_other(f3, 24, a3, 16);
    lemma_set_u64_other(f4, 40, pool, 16);
    lemma_set_u64_other(f5, 104, hash, 16);
    // a3
    lemma_set_u64_other(f4, 40, pool, 24);
    lemma_set_u64_other(f5, 104, hash, 24);
    // pool
    lemma_set_u64_other(f5, 104, hash, 40);
    // untouched fields
    let ks = seq![48int, 56, 64, 72, 80];
    assert forall|j: int| 0 <= j < 5 implies u64_at(f6, #[trigger] ks[j]) == u64_at(foot, ks[j]) by {
        let k = ks[j];
        lemma_set_u64_other(foot, 0, a0, k);
        lemma_set_u64_other(f1, 8, a1, k);
        lemma_set_u64_other(f2, 16, a2, k);
        lemma_set_u64_other(f3, 24, a3, k);
        lemma_set_u64_other(f4, 40, pool, k);
        lemma_set_u64_other(f5, 104, hash, k);
    }
    assert(ks[0] == 48 && ks[1] == 56 && ks[2] == 64 && ks[3] == 72 && ks[4] == 80);
}

/// The tables a petrified finished file holds, right after its footer.
pub open spec fn petrified_tables(b: BBFBuilder) -> Seq<u8> {
    let new_pool = (320 + 48 * b.spec_assets().len() + 16 * b.spec_pages().len() + 32
        * b.spec_sections().len() + 32 * b.spec_metadata().len()) as u64;
    let shift = (256 + b.spec_tables().len()) as u64;
    asset_table_bytes(b.spec_assets().map_values(|e: BBFAssetEntry| shifted_asset(e, shift)))
        + page_table_bytes(b.spec_pages()) + section_table_bytes(b.spec_sections(), new_pool)
        + metadata_table_bytes(b.spec_metadata(), new_pool) + b.spec_pool()
}

/// Petrifying a finished file: header (footer offset 64), footer (tables
/// laid out from byte 320 on), the moved tables, then the old file from
/// byte 64 to its old footer.
#[verifier::spinoff_prover]
#[verifier::rlimit(80)]
proof fn lemma_petrify_finished(b: BBFBuilder)
    requires
        b.wf(),
    ensures
        petrify_outcome(b.spec_image()) is Ok,
        ({
            let d = b.spec_image();
            let p = petrify_outcome(d)->Ok_0;
            let w = b.written().len() as int;
            let t = b.spec_tables().len() as int;
            let na = b.spec_assets().len() as int;
            let np = b.spec_pages().len() as int;
            let ns = b.spec_sections().len() as int;
            let nm = b.spec_metadata().len() as int;
            &&& p.len() == w + 2 * t + 256
            &&& p.subrange(0, 4) == d.subrange(0, 4)
            &&& u64_at(p, 16) == 64
            &&& u64_at(p, 64) == 320
            &&& u64_at(p, 72) == 320 + 48 * na
            &&& u64_at(p, 80) == 320 + 48 * na + 16 * np
            &&& u64_at(p, 88) == 320 + 48 * na + 16 * np + 32 * ns
            &&& u64_at(p, 104) == 320 + 48 * na + 16 * np + 32 * ns + 32 * nm
            &&& u64_at(p, 112) == b.spec_pool().len()
            &&& u64_at(p, 120) == na
            &&& u64_at(p, 128) == np
            &&& u64_at(p, 136) == ns
            &&& u64_at(p, 144) == nm
            &&& u64_at(p, 168) == xxh3_64_of(petrified_tables(b))
            &&& p.subrange(320, 320 + t) == petrified_tables(b)
            &&& p.subrange(320 + t, p.len() as int) == d.subrange(64, w + t)
        }),
{
    b.lemma_finished_file_layout();
    lemma_le_roundtrips();
    let d = b.spec_image();
    let w = b.written().len() as int;
    let t = b.spec_tables().len() as int;
    let a = b.spec_assets();
    let na = a.len() as int;
    let np = b.spec_pages().len() as int;
    let ns = b.spec_sections().len() as int;
    let nm = b.spec_metadata().len() as int;
    let ps = b.spec_pool().len() as int;
    let f = b.spec_footer();
    f.lemma_layout();
    let ofo = w + t;
    assert(u64_at(d, 16) == ofo);
    let foot = d.subrange(ofo, ofo + 256);
    assert(foot == f.encoded());
    let t0 = d.subrange(w, w + t);
    let shift = (256 + t) as u64;
    let new_pool = (320 + 48 * na + 16 * np + 32 * ns + 32 * nm) as u64;
    let po = b.spec_pool_offset();
    assert(po == w + 48 * na + 16 * np + 32 * ns + 32 * nm);
    lemma_petrified_tables(b, shift, new_pool);
    let diff = wrapping_sub(new_pool, po);
    let t1 = moved_asset_table(t0, na as nat, shift) + t0.subrange(48 * na, 48 * na + 16 * np)
        + moved_section_table(t0, 48 * na + 16 * np, ns as nat, diff) + moved_metadata_table(
        t0,
        48 * na + 16 * np + 32 * ns,
        nm as nat,
        diff,
    ) + t0.subrange(48 * na + 16 * np + 32 * ns + 32 * nm, t);
    assert(t1 =~= petrified_tables(b));
    crate::builder::lemma_table_lengths(a, b.spec_pages(), b.spec_sections(), b.spec_metadata(), new_pool);
    crate::builder::lemma_table_lengths(
        a.map_values(|e: BBFAssetEntry| shifted_asset(e, shift)),
        b.spec_pages(),
        b.spec_sections(),
        b.spec_metadata(),
        new_pool,
    );
    assert(t1.len() == t);
    let h = xxh3_64_of(t1);
    lemma_new_footer_fields(
        foot,
        320,
        (320 + 48 * na) as u64,
        (320 + 48 * na + 16 * np) as u64,
        (320 + 48 * na + 16 * np + 32 * ns) as u64,
        new_pool,
        h,
    );
    let foot1 = set_u64(
        set_u64(
            set_u64(
                set_u64(
                    set_u64(set_u64(foot, 0, 320), 8, (320 + 48 * na) as u64),
                    16,
                    (320 + 48 * na + 16 * np) as u64,
                ),
                24,
                (320 + 48 * na + 16 * np + 32 * ns) as u64,
            ),
            40,
            new_pool,
        ),
        104,
        h,
    );
    let head1 = set_u64(d.subrange(0, 64), 16, 64);
    lemma_set_u64(d.subrange(0, 64), 16, 64);
    assert(head1.subrange(0, 4) =~= d.subrange(0, 64).subrange(0, 16).subrange(0, 4));
    assert(d.subrange(0, 64).subrange(0, 16).subrange(0, 4) =~= d.subrange(0, 4));
    let region = if ofo > 64 {
        d.subrange(64, ofo)
    } else {
        Seq::empty()
    };
    assert(region =~= d.subrange(64, ofo));
    let front = head1 + foot1 + t1 + region;
    assert(petrify_outcome(d) == Ok::<Seq<u8>, BBFError>(front));
    let p = front;
    assert(p.subrange(0, 64) =~= head1);
    assert(p.subrange(64, 320) =~= foot1);
    assert(p.subrange(320, 320 + t) =~= t1);
    assert(p.subrange(320 + t, p.len() as int) =~= region);
    assert(p.subrange(0, 4) =~= head1.subrange(0, 4));
    crate::reader::lemma_u64_at_subrange(p, 0, 64, 16);
    crate::reader::lemma_u64_at_subrange(p, 64, 320, 0);
    crate::reader::lemma_u64_at_subrange(p, 64, 320, 8);
    crate::reader::lemma_u64_at_subrange(p, 64, 320, 16);
    crate::reader::lemma_u64_at_subrange(p, 64, 320, 24);
    crate::reader::lemma_u64_at_subrange(p, 64, 320, 40);
    crate::reader::lemma_u64_at_subrange(p, 64, 320, 48);
    crate::reader::lemma_u64_at_subrange(p, 64, 320, 56);
    crate::reader::lemma_u64_at_subrange(p, 64, 320, 64);
    crate::reader::lemma_u64_at_subrange(p, 64, 320, 72);
    crate::reader::lemma_u64_at_subrange(p, 64, 320, 80);
    crate::reader::lemma_u64_at_subrange(p, 64, 320, 104);
}

/// A prefix of a petrified finished file that holds its header, footer and
/// tables parses, and its footer is the file's.
#[verifier::spinoff_prover]
#[verifier::rlimit(40)]
proof fn lemma_petrified_prefix_parses(b: BBFBuilder, n: int)
    requires
        b.wf(),
        320 + b.spec_tables().len() <= n <= petrify_outcome(b.spec_image())->Ok_0.len(),
    ensures
        ({
            let p = petrify_outcome(b.spec_image())->Ok_0;
            let q = p.take(n);
            &&& parse_outcome(q) is Ok
            &&& footer_pos(q) == 64
            &&& asset_offset_of(q) == asset_offset_of(p)
            &&& page_offset_of(q) == page_offset_of(p)
            &&& section_offset_of(q) == section_offset_of(p)
            &&& meta_offset_of(q) == meta_offset_of(p)
            &&& pool_offset_of(q) == pool_offset_of(p)
            &&& pool_size_of(q) == pool_size_of(p)
            &&& asset_count_of(q) == asset_count_of(p)
            &&& page_count_of(q) == page_count_of(p)
            &&& section_count_of(q) == section_count_of(p)
            &&& meta_count_of(q) == meta_count_of(p)
        }),
{
    lemma_petrify_finished(b);
    b.lemma_finished_file_layout();
    let p = petrify_outcome(b.spec_image())->Ok_0;
    let q = p.take(n);
    assert(q.subrange(0, 4) =~= p.subrange(0, 4));
    lemma_take_u64(p, n, 16);
    lemma_take_u64(p, n, 64);
    lemma_take_u64(p, n, 72);
    lemma_take_u64(p, n, 80);
    lemma_take_u64(p, n, 88);
    lemma_take_u64(p, n, 104);
    lemma_take_u64(p, n, 112);
    lemma_take_u64(p, n, 120);
    lemma_take_u64(p, n, 128);
    lemma_take_u64(p, n, 136);
    lemma_take_u64(p, n, 144);
}

/// The first `n` bytes hold the same `u64`s as the whole.
proof fn lemma_take_u64(p: Seq<u8>, n: int, k: int)
    requires
        0 <= k,
        k + 8 <= n <= p.len(),
    ensures
        u64_at(p.take(n), k) == u64_at(p, k),
{
    assert(p.take(n).subrange(k, k + 8) =~= p.subrange(k, k + 8));
}

/// Where the parts of a petrified finished file lie: header, footer at 64,
/// the moved tables from 320 on, then the old file from byte 64 to its old
/// footer; and the footer's offsets and counts.
#[verifier::spinoff_prover]
#[verifier::rlimit(40)]
proof fn lemma_petrified_frame(b: BBFBuilder)
    requires
        b.wf(),
    ensures
        petrify_outcome(b.spec_image()) is Ok,
        ({
            let d = b.spec_image();
            let p = petrify_outcome(d)->Ok_0;
            let w = b.written().len() as int;
            let t = b.spec_tables().len() as int;
            let na = b.spec_assets().len() as int;
            let np = b.spec_pages().len() as int;
            let ns = b.spec_sections().len() as int;
            let nm = b.spec_metadata().len() as int;
            &&& p.len() == w + 2 * t + 256
            &&& parse_outcome(p) is Ok
            &&& footer_pos(p) == 64
            &&& asset_offset_of(p) == 320
            &&& page_offset_of(p) == 320 + 48 * na
            &&& section_offset_of(p) == 320 + 48 * na + 16 * np
            &&& meta_offset_of(p) == 320 + 48 * na + 16 * np + 32 * ns
            &&& pool_offset_of(p) == 320 + 48 * na + 16 * np + 32 * ns + 32 * nm
            &&& pool_size_of(p) == b.spec_pool().len()
            &&& asset_count_of(p) == na
            &&& page_count_of(p) == np
            &&& section_count_of(p) == ns
            &&& meta_count_of(p) == nm
            &&& footer_u64(p, 104) == xxh3_64_of(petrified_tables(b))
            &&& p.subrange(320, 320 + t) == petrified_tables(b)
            &&& p.subrange(320 + t, p.len() as int) == d.subrange(64, w + t)
        }),
{
    lemma_petrify_finished(b);
    b.lemma_finished_file_layout();
    let p = petrify_outcome(b.spec_image())->Ok_0;
    lemma_petrified_prefix_parses(b, p.len() as int);
    assert(p.take(p.len() as int) =~= p);
}

/// The page entries of a petrified finished file are the old ones.
#[verifier::spinoff_prover]
#[verifier::rlimit(40)]
proof fn lemma_petrified_pages(b: BBFBuilder)
    requires
        b.wf(),
    ensures
        petrify_outcome(b.spec_image()) is Ok,
        ({
            let d = b.spec_image();
            let p = petrify_outcome(d)->Ok_0;
            forall|j: int|
                0 <= j < page_count_of(d) ==> #[trigger] entry_bytes(p, page_offset_of(p), j, 16)
                    == entry_bytes(d, page_offset_of(d), j, 16)
        }),
{
    lemma_petrified_frame(b);
    b.lemma_finished_file_layout();
    b.lemma_finished_file_parses();
    b.lemma_finished_file_tables();
    let d = b.spec_image();
    let p = petrify_outcome(d)->Ok_0;
    let t = b.spec_tables().len() as int;
    let a = b.spec_assets();
    let pg = b.spec_pages();
    let sc = b.spec_sections();
    let m = b.spec_metadata();
    let na = a.len() as int;
    let np = pg.len() as int;
    let shift = (256 + t) as u64;
    let new_pool = (320 + 48 * na + 16 * np + 32 * sc.len() + 32 * m.len()) as u64;
    let sa = a.map_values(|e: BBFAssetEntry| shifted_asset(e, shift));
    crate::builder::lemma_table_lengths(sa, pg, sc, m, new_pool);
    let pt = petrified_tables(b);
    let at = asset_table_bytes(sa);
    let ptb = page_table_bytes(pg);
    let st = section_table_bytes(sc, new_pool);
    let mt = metadata_table_bytes(m, new_pool);
    lemma_concat5_parts(at, ptb, st, mt, b.spec_pool());
    let fp = |e: crate::format::BBFPageEntry| e.encoded();
    assert forall|j: int| 0 <= j < np implies (#[trigger] pg.map_values(fp)[j]).len() == 16 by {
        pg[j].lemma_layout();
    }
    assert forall|j: int| 0 <= j < page_count_of(d) implies #[trigger] entry_bytes(
        p,
        page_offset_of(p),
        j,
        16,
    ) == entry_bytes(d, page_offset_of(d), j, 16) by {
        lemma_concat_uniform_index(pg.map_values(fp), 16, j);
        let x = 320 + 48 * na + 16 * j;
        assert(p.subrange(x, x + 16) =~= p.subrange(320, 320 + t).subrange(x - 320, x - 320 + 16));
        assert(pt.subrange(x - 320, x - 320 + 16) =~= ptb.subrange(16 * j, 16 * j + 16));
        assert(pg[j] == b.spec_pages()[j]);
    }
}

/// Asset `k` of `p` is asset `k` of `d`: its bytes read back the same, and
/// its entry holds the same hash halves and media-type byte.
pub open spec fn asset_kept(p: Seq<u8>, d: Seq<u8>, k: int) -> bool {
    let ep = entry_bytes(p, asset_offset_of(p), k, 48);
    let ed = entry_bytes(d, asset_offset_of(d), k, 48);
    &&& asset_outcome(p, k as u64) == asset_outcome(d, k as u64)
    &&& u64_at(ep, 8) == u64_at(ed, 8)
    &&& u64_at(ep, 16) == u64_at(ed, 16)
    &&& ep[38] == ed[38]
}

/// Asset `k` of a petrified finished file reads back as before.
#[verifier::spinoff_prover]
#[verifier::rlimit(80)]
proof fn lemma_petrified_asset(b: BBFBuilder, k: int)
    requires
        b.wf(),
        0 <= k < b.spec_assets().len(),
    ensures
        petrify_outcome(b.spec_image()) is Ok,
        asset_kept(petrify_outcome(b.spec_image())->Ok_0, b.spec_image(), k),
{
    lemma_petrified_frame(b);
    b.lemma_finished_file_layout();
    b.lemma_finished_file_parses();
    b.lemma_finished_file_tables();
    b.lemma_assets();
    let d = b.spec_image();
    let p = petrify_outcome(d)->Ok_0;
    let w = b.written().len() as int;
    let t = b.spec_tables().len() as int;
    let a = b.spec_assets();
    let pg = b.spec_pages();
    let sc = b.spec_sections();
    let m = b.spec_metadata();
    let na = a.len() as int;
    let shift = (256 + t) as u64;
    let new_pool = (320 + 48 * na + 16 * pg.len() + 32 * sc.len() + 32 * m.len()) as u64;
    let sa = a.map_values(|e: BBFAssetEntry| shifted_asset(e, shift));
    lemma_petrified_parts(b);
    let pt = petrified_tables(b);
    let at = asset_table_bytes(sa);
    let fa = |e: BBFAssetEntry| e.encoded();
    assert forall|j: int| 0 <= j < na implies (#[trigger] sa.map_values(fa)[j]).len() == 48 by {
        sa[j].lemma_layout();
    }
    lemma_concat_uniform_index(sa.map_values(fa), 48, k);
    let x = 320 + 48 * k;
    assert(p.subrange(x, x + 48) =~= p.subrange(320, 320 + t).subrange(x - 320, x - 320 + 48));
    assert(pt.subrange(x - 320, x - 320 + 48) =~= pt.subrange(0, 48 * na).subrange(48 * k, 48 * k + 48));
    let e = a[k];
    let e2 = shifted_asset(e, shift);
    e.lemma_layout();
    e2.lemma_layout();
    let off = e.file_offset as int;
    let size = e.file_size as int;
    assert(e2.file_offset == off + shift);
    let y = off + shift;
    assert(p.subrange(y, y + size) =~= p.subrange(320 + t, p.len() as int).subrange(
        y - 320 - t,
        y - 320 - t + size,
    ));
    assert(d.subrange(64, w + t).subrange(off - 64, off - 64 + size) =~= d.subrange(
        off,
        off + size,
    ));
    assert(entry_bytes(d, asset_offset_of(d), k, 48) == e.encoded());
    assert(entry_bytes(p, asset_offset_of(p), k, 48) == e2.encoded());
}

/// Every asset of a petrified finished file reads back as before.
#[verifier::spinoff_prover]
#[verifier::rlimit(40)]
proof fn lemma_petrified_assets(b: BBFBuilder)
    requires
        b.wf(),
    ensures
        petrify_outcome(b.spec_image()) is Ok,
        ({
            let d = b.spec_image();
            let p = petrify_outcome(d)->Ok_0;
            forall|k: int| 0 <= k < asset_count_of(d) ==> #[trigger] asset_kept(p, d, k)
        }),
{
    lemma_petrified_frame(b);
    b.lemma_finished_file_parses();
    let d = b.spec_image();
    let p = petrify_outcome(d)->Ok_0;
    assert forall|k: int| 0 <= k < asset_count_of(d) implies #[trigger] asset_kept(p, d, k) by {
        lemma_petrified_asset(b, k);
    }
}

/// Every string of the pool of a petrified finished file reads back as the
/// string at the same place in the old pool.
#[verifier::spinoff_prover]
#[verifier::rlimit(40)]
proof fn lemma_petrified_pool(b: BBFBuilder)
    requires
        b.wf(),
    ensures
        petrify_outcome(b.spec_image()) is Ok,
        ({
            let d = b.spec_image();
            let p = petrify_outcome(d)->Ok_0;
            let np = pool_offset_of(p);
            let po = pool_offset_of(d);
            forall|y: u64|
                np <= y < np + pool_size_of(d) ==> #[trigger] string_bytes_at(p, y)
                    == string_bytes_at(d, (y - np + po) as u64)
        }),
{
    lemma_petrified_frame(b);
    b.lemma_finished_file_layout();
    b.lemma_finished_file_parses();
    let d = b.spec_image();
    let p = petrify_outcome(d)->Ok_0;
    let w = b.written().len() as int;
    let t = b.spec_tables().len() as int;
    let a = b.spec_assets();
    let pg = b.spec_pages();
    let sc = b.spec_sections();
    let m = b.spec_metadata();
    let pool = b.spec_pool();
    let ps = pool.len() as int;
    let shift = (256 + t) as u64;
    let new_pool = (320 + 48 * a.len() + 16 * pg.len() + 32 * sc.len() + 32 * m.len()) as u64;
    let po = b.spec_pool_offset();
    let sa = a.map_values(|e: BBFAssetEntry| shifted_asset(e, shift));
    crate::builder::lemma_table_lengths(sa, pg, sc, m, new_pool);
    let pt = petrified_tables(b);
    lemma_concat5_parts(
        asset_table_bytes(sa),
        page_table_bytes(pg),
        section_table_bytes(sc, new_pool),
        metadata_table_bytes(m, new_pool),
        pool,
    );
    assert(p.subrange(new_pool as int, new_pool + ps) =~= pt.subrange(
        new_pool - 320,
        new_pool - 320 + ps,
    ));
    assert(d.subrange(po as int, po + ps) =~= d.subrange(w, w + t).subrange(po - w, po - w + ps));
    assert forall|y: u64| new_pool <= y < new_pool + ps implies #[trigger] string_bytes_at(p, y)
        == string_bytes_at(d, (y - new_pool + po) as u64) by {
        let x = y - new_pool;
        assert(p.subrange(y as int, new_pool + ps) =~= pool.subrange(x, ps));
        assert(d.subrange(x + po, po + ps) =~= pool.subrange(x, ps));
    }
}

/// The table bytes of a petrified finished file, part by part.
#[verifier::spinoff_prover]
#[verifier::rlimit(40)]
proof fn lemma_petrified_parts(b: BBFBuilder)
    requires
        b.wf(),
    ensures
        ({
            let t = b.spec_tables().len() as int;
            let na = b.spec_assets().len() as int;
            let np = b.spec_pages().len() as int;
            let ns = b.spec_sections().len() as int;
            let nm = b.spec_metadata().len() as int;
            let shift = (256 + t) as u64;
            let new_pool = (320 + 48 * na + 16 * np + 32 * ns + 32 * nm) as u64;
            let pt = petrified_tables(b);
            let sa = b.spec_assets().map_values(|e: BBFAssetEntry| shifted_asset(e, shift));
            &&& pt.subrange(0, 48 * na) == asset_table_bytes(sa)
            &&& pt.subrange(48 * na, 48 * na + 16 * np) == page_table_bytes(b.spec_pages())
            &&& pt.subrange(48 * na + 16 * np, 48 * na + 16 * np + 32 * ns) == section_table_bytes(
                b.spec_sections(),
                new_pool,
            )
            &&& pt.subrange(48 * na + 16 * np + 32 * ns, 48 * na + 16 * np + 32 * ns + 32 * nm)
                == metadata_table_bytes(b.spec_metadata(), new_pool)
            &&& asset_table_bytes(sa).len() == 48 * na
            &&& section_table_bytes(b.spec_sections(), new_pool).len() == 32 * ns
            &&& metadata_table_bytes(b.spec_metadata(), new_pool).len() == 32 * nm
        }),
{
    b.lemma_finished_file_layout();
    let t = b.spec_tables().len() as int;
    let a = b.spec_assets();
    let pg = b.spec_pages();
    let sc = b.spec_sections();
    let m = b.spec_metadata();
    let shift = (256 + t) as u64;
    let new_pool = (320 + 48 * a.len() + 16 * pg.len() + 32 * sc.len() + 32 * m.len()) as u64;
    let sa = a.map_values(|e: BBFAssetEntry| shifted_asset(e, shift));
    crate::builder::lemma_table_lengths(sa, pg, sc, m, new_pool);
    lemma_concat5_parts(
        asset_table_bytes(sa),
        page_table_bytes(pg),
        section_table_bytes(sc, new_pool),
        metadata_table_bytes(m, new_pool),
        b.spec_pool(),
    );
}

/// Section `i` of `p` is section `i` of `d`: its title reads the same, it
/// starts at the same page, and it has a parent exactly when it has one in
/// `d`, stored at the same place relative to the string pool.
pub open spec fn section_kept(p: Seq<u8>, d: Seq<u8>, i: int) -> bool {
    let ep = entry_bytes(p, section_offset_of(p), i, 32);
    let ed = entry_bytes(d, section_offset_of(d), i, 32);
    &&& string_bytes_at(p, u64_at(ep, 0)) == string_bytes_at(d, u64_at(ed, 0))
    &&& u64_at(ep, 8) == u64_at(ed, 8)
    &&& (u64_at(ep, 16) == NO_PARENT) == (u64_at(ed, 16) == NO_PARENT)
    &&& (u64_at(ep, 16) != NO_PARENT ==> u64_at(ep, 16) - pool_offset_of(p) == u64_at(ed, 16)
        - pool_offset_of(d))
}

/// Metadata pair `i` of `p` is pair `i` of `d`: key and value read the same,
/// and it has a parent exactly when it has one in `d`.
pub open spec fn metadata_kept(p: Seq<u8>, d: Seq<u8>, i: int) -> bool {
    let ep = entry_bytes(p, meta_offset_of(p), i, 32);
    let ed = entry_bytes(d, meta_offset_of(d), i, 32);
    &&& string_bytes_at(p, u64_at(ep, 0)) == string_bytes_at(d, u64_at(ed, 0))
    &&& string_bytes_at(p, u64_at(ep, 8)) == string_bytes_at(d, u64_at(ed, 8))
    &&& (u64_at(ep, 16) == NO_PARENT) == (u64_at(ed, 16) == NO_PARENT)
}

/// The title of section `i` of a petrified finished file reads back as
/// before.
#[verifier::spinoff_prover]
#[verifier::rlimit(40)]
proof fn lemma_petrified_section(b: BBFBuilder, i: int)
    requires
        b.wf(),
        0 <= i < b.spec_sections().len(),
    ensures
        petrify_outcome(b.spec_image()) is Ok,
        ({
            let d = b.spec_image();
            let p = petrify_outcome(d)->Ok_0;
            section_kept(p, d, i)
        }),
{
    lemma_petrified_frame(b);
    lemma_petrified_pool(b);
    lemma_petrified_parts(b);
    b.lemma_finished_file_layout();
    b.lemma_finished_file_parses();
    b.lemma_finished_file_tables();
    let d = b.spec_image();
    let p = petrify_outcome(d)->Ok_0;
    let t = b.spec_tables().len() as int;
    let sc = b.spec_sections();
    let na = b.spec_assets().len() as int;
    let np = b.spec_pages().len() as int;
    let ns = sc.len() as int;
    let nm = b.spec_metadata().len() as int;
    let new_pool = (320 + 48 * na + 16 * np + 32 * ns + 32 * nm) as u64;
    let po = b.spec_pool_offset();
    let pt = petrified_tables(b);
    let st = section_table_bytes(sc, new_pool);
    let fs = |e: BBFSection| finished_section(e, new_pool).encoded();
    assert forall|j: int| 0 <= j < ns implies (#[trigger] sc.map_values(fs)[j]).len() == 32 by {
        finished_section(sc[j], new_pool).lemma_layout();
    }
    lemma_concat_uniform_index(sc.map_values(fs), 32, i);
    let x = 320 + 48 * na + 16 * np + 32 * i;
    assert(p.subrange(x, x + 32) =~= p.subrange(320, 320 + t).subrange(x - 320, x - 320 + 32));
    assert(pt.subrange(x - 320, x - 320 + 32) =~= pt.subrange(
        48 * na + 16 * np,
        48 * na + 16 * np + 32 * ns,
    ).subrange(32 * i, 32 * i + 32));
    let sec = sc[i];
    finished_section(sec, new_pool).lemma_layout();
    finished_section(sec, po).lemma_layout();
    assert(crate::builder::pool_holds(b.spec_pool(), sec.section_title_offset as int, b.spec_section_titles()[i]));
    let y = finished_section(sec, new_pool).section_title_offset;
    assert(string_bytes_at(p, y) == string_bytes_at(d, (y - new_pool + po) as u64));
    assert(entry_bytes(d, section_offset_of(d), i, 32) == finished_section(sec, po).encoded());
    assert(sec.section_parent_offset == NO_PARENT || sec.section_parent_offset <= u32::MAX);
}

/// The key and value of metadata entry `i` of a petrified finished file
/// read back as before.
#[verifier::spinoff_prover]
#[verifier::rlimit(40)]
proof fn lemma_petrified_meta(b: BBFBuilder, i: int)
    requires
        b.wf(),
        0 <= i < b.spec_metadata().len(),
    ensures
        petrify_outcome(b.spec_image()) is Ok,
        ({
            let d = b.spec_image();
            let p = petrify_outcome(d)->Ok_0;
            metadata_kept(p, d, i)
        }),
{
    lemma_petrified_frame(b);
    lemma_petrified_pool(b);
    lemma_petrified_parts(b);
    b.lemma_finished_file_layout();
    b.lemma_finished_file_parses();
    b.lemma_finished_file_tables();
    let d = b.spec_image();
    let p = petrify_outcome(d)->Ok_0;
    let t = b.spec_tables().len() as int;
    let m = b.spec_metadata();
    let na = b.spec_assets().len() as int;
    let np = b.spec_pages().len() as int;
    let ns = b.spec_sections().len() as int;
    let nm = m.len() as int;
    let new_pool = (320 + 48 * na + 16 * np + 32 * ns + 32 * nm) as u64;
    let po = b.spec_pool_offset();
    let pt = petrified_tables(b);
    let fm = |e: BBFMetadata| finished_metadata(e, new_pool).encoded();
    assert forall|j: int| 0 <= j < nm implies (#[trigger] m.map_values(fm)[j]).len() == 32 by {
        finished_metadata(m[j], new_pool).lemma_layout();
    }
    lemma_concat_uniform_index(m.map_values(fm), 32, i);
    let x = 320 + 48 * na + 16 * np + 32 * ns + 32 * i;
    assert(p.subrange(x, x + 32) =~= p.subrange(320, 320 + t).subrange(x - 320, x - 320 + 32));
    assert(pt.subrange(x - 320, x - 320 + 32) =~= pt.subrange(
        48 * na + 16 * np + 32 * ns,
        48 * na + 16 * np + 32 * ns + 32 * nm,
    ).subrange(32 * i, 32 * i + 32));
    let md = m[i];
    finished_metadata(md, new_pool).lemma_layout();
    finished_metadata(md, po).lemma_layout();
    assert(crate::builder::pool_holds(b.spec_pool(), md.key_offset as int, b.spec_meta_keys()[i]));
    assert(crate::builder::pool_holds(b.spec_pool(), md.value_offset as int, b.spec_meta_values()[i]));
    let yk = finished_metadata(md, new_pool).key_offset;
    let yv = finished_metadata(md, new_pool).value_offset;
    assert(string_bytes_at(p, yk) == string_bytes_at(d, (yk - new_pool + po) as u64));
    assert(string_bytes_at(p, yv) == string_bytes_at(d, (yv - new_pool + po) as u64));
    assert(entry_bytes(d, meta_offset_of(d), i, 32) == finished_metadata(md, po).encoded());
}

/// Every section title and metadata key and value of a petrified finished
/// file reads back as before.
#[verifier::spinoff_prover]
#[verifier::rlimit(40)]
proof fn lemma_petrified_strings(b: BBFBuilder)
    requires
        b.wf(),
    ensures
        petrify_outcome(b.spec_image()) is Ok,
        ({
            let d = b.spec_image();
            let p = petrify_outcome(d)->Ok_0;
            &&& forall|i: int| 0 <= i < section_count_of(d) ==> #[trigger] section_kept(p, d, i)
            &&& forall|i: int| 0 <= i < meta_count_of(d) ==> #[trigger] metadata_kept(p, d, i)
        }),
{
    lemma_petrified_frame(b);
    b.lemma_finished_file_parses();
    let d = b.spec_image();
    let p = petrify_outcome(d)->Ok_0;
    assert forall|i: int| 0 <= i < section_count_of(d) implies #[trigger] section_kept(p, d, i) by {
        lemma_petrified_section(b, i);
    }
    assert forall|i: int| 0 <= i < meta_count_of(d) implies #[trigger] metadata_kept(p, d, i) by {
        lemma_petrified_meta(b, i);
    }
}

/// Petrifying a finished book keeps the book: petrification succeeds; the
/// petrified file's footer follows the header; it has the same page, asset,
/// section and metadata counts and page entries; every asset reads back the
/// same bytes; every section keeps its title, first page and parent, and
/// every metadata pair its key, value and parent; and the footer holds the
/// XXH3-64 hash of the moved tables and string pool, which lie from byte 320
/// to the end of the pool.
#[verifier::spinoff_prover]
#[verifier::rlimit(40)]
pub proof fn lemma_petrified_book(b: BBFBuilder)
    requires
        b.wf(),
    ensures
        petrify_outcome(b.spec_image()) is Ok,
        ({
            let d = b.spec_image();
            let p = petrify_outcome(d)->Ok_0;
            let t = b.spec_tables().len() as int;
            &&& footer_pos(p) == 64
            &&& parse_outcome(p) is Ok
            &&& asset_offset_of(p) == 320
            &&& pool_offset_of(p) + pool_size_of(p) == 320 + t
            &&& footer_u64(p, 104) == xxh3_64_of(p.subrange(320, 320 + t))
            &&& asset_count_of(p) == asset_count_of(d)
            &&& page_count_of(p) == page_count_of(d)
            &&& section_count_of(p) == section_count_of(d)
            &&& meta_count_of(p) == meta_count_of(d)
            &&& forall|j: int|
                0 <= j < page_count_of(d) ==> #[trigger] entry_bytes(p, page_offset_of(p), j, 16)
                    == entry_bytes(d, page_offset_of(d), j, 16)
            &&& forall|k: int|
                0 <= k < asset_count_of(d) ==> #[trigger] asset_outcome(p, k as u64) == asset_outcome(
                    d,
                    k as u64,
                )
            &&& forall|k: int| 0 <= k < asset_count_of(d) ==> #[trigger] asset_kept(p, d, k)
            &&& forall|i: int| 0 <= i < section_count_of(d) ==> #[trigger] section_kept(p, d, i)
            &&& forall|i: int| 0 <= i < meta_count_of(d) ==> #[trigger] metadata_kept(p, d, i)
        }),
{
    lemma_petrified_frame(b);
    b.lemma_finished_file_parses();
    b.lemma_finished_file_layout();
    lemma_petrified_pages(b);
    lemma_petrified_assets(b);
    lemma_petrified_strings(b);
    let d = b.spec_image();
    let p = petrify_outcome(d)->Ok_0;
    assert forall|k: int| 0 <= k < asset_count_of(d) implies #[trigger] asset_outcome(p, k as u64)
        == asset_outcome(d, k as u64) by {
        assert(asset_kept(p, d, k));
    }
}

/// Every section title and metadata key and value of a petrified finished
/// book reads back as the bytes it was added with, when those hold no zero
/// byte.
#[verifier::spinoff_prover]
#[verifier::rlimit(40)]
pub proof fn lemma_petrified_strings_read_back(b: BBFBuilder)
    requires
        b.wf(),
    ensures
        petrify_outcome(b.spec_image()) is Ok,
        ({
            let p = petrify_outcome(b.spec_image())->Ok_0;
            &&& forall|i: int|
                0 <= i < b.spec_sections().len() && !b.spec_section_titles()[i].contains(0u8)
                    ==> string_bytes_at(
                    p,
                    u64_at(#[trigger] entry_bytes(p, section_offset_of(p), i, 32), 0),
                ) == Some(b.spec_section_titles()[i])
            &&& forall|i: int|
                0 <= i < b.spec_metadata().len() && !b.spec_meta_keys()[i].contains(0u8)
                    ==> string_bytes_at(
                    p,
                    u64_at(#[trigger] entry_bytes(p, meta_offset_of(p), i, 32), 0),
                ) == Some(b.spec_meta_keys()[i])
            &&& forall|i: int|
                0 <= i < b.spec_metadata().len() && !b.spec_meta_values()[i].contains(0u8)
                    ==> string_bytes_at(
                    p,
                    u64_at(#[trigger] entry_bytes(p, meta_offset_of(p), i, 32), 8),
                ) == Some(b.spec_meta_values()[i])
        }),
{
    lemma_petrified_book(b);
    b.lemma_finished_file_parses();
    b.lemma_finished_file_strings();
    b.lemma_finished_file_tables();
    let d = b.spec_image();
    let p = petrify_outcome(d)->Ok_0;
    let po = b.spec_pool_offset();
    assert forall|i: int|
        0 <= i < b.spec_sections().len() && !b.spec_section_titles()[i].contains(0u8)
            implies string_bytes_at(
            p,
            u64_at(#[trigger] entry_bytes(p, section_offset_of(p), i, 32), 0),
        ) == Some(b.spec_section_titles()[i]) by {
        assert(section_kept(p, d, i));
        let sec = b.spec_sections()[i];
        finished_section(sec, po).lemma_layout();
    }
    assert forall|i: int|
        0 <= i < b.spec_metadata().len() && !b.spec_meta_keys()[i].contains(0u8)
            implies string_bytes_at(
            p,
            u64_at(#[trigger] entry_bytes(p, meta_offset_of(p), i, 32), 0),
        ) == Some(b.spec_meta_keys()[i]) by {
        assert(metadata_kept(p, d, i));
        let m = b.spec_metadata()[i];
        finished_metadata(m, po).lemma_layout();
    }
    assert forall|i: int|
        0 <= i < b.spec_metadata().len() && !b.spec_meta_values()[i].contains(0u8)
            implies string_bytes_at(
            p,
            u64_at(#[trigger] entry_bytes(p, meta_offset_of(p), i, 32), 8),
        ) == Some(b.spec_meta_values()[i]) by {
        assert(metadata_kept(p, d, i));
        let m = b.spec_metadata()[i];
        finished_metadata(m, po).lemma_layout();
    }
}

/// A petrified finished book holds a page for each page added, an asset for
/// each distinct image, and a section and a metadata pair for each added.
pub proof fn lemma_petrified_counts(b: BBFBuilder)
    requires
        b.wf(),
    ensures
        petrify_outcome(b.spec_image()) is Ok,
        ({
            let p = petrify_outcome(b.spec_image())->Ok_0;
            &&& parse_outcome(p) is Ok
            &&& page_count_of(p) == b.spec_payloads().len()
            &&& asset_count_of(p) == b.page_hashes().to_set().len()
            &&& section_count_of(p) == b.spec_section_titles().len()
            &&& meta_count_of(p) == b.spec_meta_keys().len()
        }),
{
    lemma_petrified_book(b);
    b.lemma_finished_file_counts();
}

/// A petrified finished book can be read from its first bytes: a prefix of
/// it parses exactly when it reaches the end of the string pool, that is,
/// holds header, footer and all the tables; no page data is needed.
#[verifier::spinoff_prover]
#[verifier::rlimit(40)]
pub proof fn lemma_petrified_ready_exactly(b: BBFBuilder)
    requires
        b.wf(),
    ensures
        petrify_outcome(b.spec_image()) is Ok,
        ({
            let p = petrify_outcome(b.spec_image())->Ok_0;
            let t = b.spec_tables().len() as int;
            &&& 320 + t <= p.len()
            &&& pool_offset_of(p) + pool_size_of(p) == 320 + t
            &&& forall|n: int|
                0 <= n <= p.len() ==> (parse_outcome(#[trigger] p.take(n)) is Ok <==> n >= 320 + t)
        }),
{
    lemma_petrified_frame(b);
    b.lemma_finished_file_layout();
    let p = petrify_outcome(b.spec_image())->Ok_0;
    let t = b.spec_tables().len() as int;
    assert forall|n: int| 0 <= n <= p.len() implies (parse_outcome(#[trigger] p.take(n)) is Ok
        <==> n >= 320 + t) by {
        if n >= 320 + t {
            lemma_petrified_prefix_parses(b, n);
        } else if n >= 320 {
            let q = p.take(n);
            lemma_take_u64(p, n, 16);
            lemma_take_u64(p, n, 104);
            lemma_take_u64(p, n, 112);
            assert(pool_offset_of(q) + pool_size_of(q) > q.len());
        }
    }
}

/// Replaces the little-endian `u64` at `off`.
fn put_u64(v: &mut Vec<u8>, off: usize, x: u64)
    requires
        off + 8 <= old(v).len(),
    ensures
        final(v)@ == set_u64(old(v)@, off as int, x),
        final(v)@.len() == old(v)@.len(),
{
    let b = u64_to_le_bytes(x);
    let mut j: usize = 0;
    while j < 8
        invariant
            0 <= j <= 8,
            b@.len() == 8,
            b@ == spec_u64_to_le_bytes(x),
            off + 8 <= v.len(),
            v@.len() == old(v)@.len(),
            forall|k: int|
                0 <= k < v@.len() && !(off <= k < off + j) ==> v@[k] == old(v)@[k],
            forall|k: int| off <= k < off + j ==> v@[k] == b@[k - off],
        decreases 8 - j,
    {
        v.set(off + j, b[j]);
        j = j + 1;
    }
    assert(v@ =~= set_u64(old(v)@, off as int, x));
}

/// Copies a run of bytes into a new vector.
fn to_vec(s: &[u8]) -> (r: Vec<u8>)
    ensures
        r@ == s@,
{
    let mut v: Vec<u8> = Vec::new();
    push_bytes(&mut v, s);
    v
}

/// The asset, page, section and metadata tables of `t0`, moved (see
/// `petrify_outcome`).
#[verifier::spinoff_prover]
fn moved_tables(
    t0: &[u8],
    na: u64,
    ns: u64,
    nm: u64,
    la: u64,
    lp: u64,
    ls: u64,
    lm: u64,
    shift: u64,
    diff: u64,
) -> (t1: Vec<u8>)
    requires
        la == 48 * na,
        lp % 16 == 0,
        ls == 32 * ns,
        lm == 32 * nm,
        la + lp + ls + lm <= t0@.len(),
    ensures
        t1@ == moved_asset_table(t0@, na as nat, shift) + t0@.subrange(la as int, la + lp)
            + moved_section_table(t0@, la + lp, ns as nat, diff) + moved_metadata_table(
            t0@,
            la + lp + ls,
            nm as nat,
            diff,
        ),
{
    proof {
        lemma_le_roundtrips();
    }
    // Asset table: every asset moves by `shift`.
    let mut t1: Vec<u8> = Vec::new();
    let mut i: u64 = 0;
    while i < na
        invariant
            0 <= i <= na,
            la == 48 * na,
            la <= t0@.len(),
            t0@.len() == t0.len(),
            t1@ == moved_asset_table(t0@, i as nat, shift),
        decreases na - i,
    {
        let mut e = to_vec(slice_subrange(t0, (48 * i) as usize, (48 * i + 48) as usize));
        let off = read_u64(e.as_slice(), 0);
        put_u64(&mut e, 0, off.wrapping_add(shift));
        push_bytes(&mut t1, e.as_slice());
        proof {
            let f = |k: int| moved_asset(t0@.subrange(48 * k, 48 * k + 48), shift);
            assert(Seq::new((i + 1) as nat, f) =~= Seq::new(i as nat, f).push(f(i as int)));
            lemma_concat_push(Seq::new(i as nat, f), f(i as int));
        }
        i = i + 1;
    }
    // Page table: unchanged.
    push_bytes(&mut t1, slice_subrange(t0, la as usize, (la + lp) as usize));
    let ghost t1a = t1@;
    // Section table: title and parent offsets move with the pool.
    let start = la + lp;
    let mut i: u64 = 0;
    while i < ns
        invariant
            0 <= i <= ns,
            ls == 32 * ns,
            start + ls <= t0@.len(),
            t0@.len() == t0.len(),
            t1@ == t1a + moved_section_table(t0@, start as int, i as nat, diff),
        decreases ns - i,
    {
        let mut e = to_vec(
            slice_subrange(t0, (start + 32 * i) as usize, (start + 32 * i + 32) as usize),
        );
        let title = read_u64(e.as_slice(), 0);
        let parent = read_u64(e.as_slice(), 16);
        put_u64(&mut e, 0, title.wrapping_add(diff));
        if parent != NO_PARENT {
            put_u64(&mut e, 16, parent.wrapping_add(diff));
        }
        push_bytes(&mut t1, e.as_slice());
        proof {
            let f = |k: int| moved_section(t0@.subrange(start + 32 * k, start + 32 * k + 32), diff);
            assert(Seq::new((i + 1) as nat, f) =~= Seq::new(i as nat, f).push(f(i as int)));
            lemma_concat_push(Seq::new(i as nat, f), f(i as int));
        }
        i = i + 1;
    }
    let ghost t1b = t1@;
    // Metadata table: key, value and parent offsets move with the pool.
    let start = la + lp + ls;
    let mut i: u64 = 0;
    while i < nm
        invariant
            0 <= i <= nm,
            lm == 32 * nm,
            start + lm <= t0@.len(),
            t0@.len() == t0.len(),
            t1@ == t1b + moved_metadata_table(t0@, start as int, i as nat, diff),
        decreases nm - i,
    {
        let mut e = to_vec(
            slice_subrange(t0, (start + 32 * i) as usize, (start + 32 * i + 32) as usize),
        );
        let key = read_u64(e.as_slice(), 0);
        let value = read_u64(e.as_slice(), 8);
        let parent = read_u64(e.as_slice(), 16);
        put_u64(&mut e, 0, key.wrapping_add(diff));
        put_u64(&mut e, 8, value.wrapping_add(diff));
        if parent != NO_PARENT {
            put_u64(&mut e, 16, parent.wrapping_add(diff));
        }
        push_bytes(&mut t1, e.as_slice());
        proof {
            let f = |k: int| moved_metadata(t0@.subrange(start + 32 * k, start + 32 * k + 32), diff);
            assert(Seq::new((i + 1) as nat, f) =~= Seq::new(i as nat, f).push(f(i as int)));
            lemma_concat_push(Seq::new(i as nat, f), f(i as int));
        }
        i = i + 1;
    }
    t1
}

/// Rewrites the file in `file` into its petrified form (see
/// `petrify_outcome`); on an error the file is left as it was.
#[verifier::spinoff_prover]
pub fn petrify(file: &mut Vec<u8>) -> (r: Result<(), BBFError>)
    ensures
        match petrify_outcome(old(file)@) {
            Ok(n) => r is Ok && final(file)@ == n,
            Err(e) => r == Err::<(), BBFError>(e) && final(file)@ == old(file)@,
        },
{
    let len = file.len();
    if len < 64 {
        return Err(BBFError::FileTooShort);
    }
    let ofo = read_u64(file.as_slice(), 16);
    if len < 256 || ofo > (len - 256) as u64 {
        return Err(BBFError::FileTooShort);
    }
    let ofo_u = ofo as usize;
    let foot = slice_subrange(file.as_slice(), ofo_u, ofo_u + 256);
    let ao = read_u64(foot, 0);
    let old_pool = read_u64(foot, 40);
    let ps = read_u64(foot, 48);
    let na = read_u64(foot, 56);
    let np = read_u64(foot, 64);
    let ns = read_u64(foot, 72);
    let nm = read_u64(foot, 80);
    let la = match na.checked_mul(48) {
        Some(x) => x,
        None => {
            return Err(BBFError::TableError);
        },
    };
    let lp = match np.checked_mul(16) {
        Some(x) => x,
        None => {
            return Err(BBFError::TableError);
        },
    };
    let ls = match ns.checked_mul(32) {
        Some(x) => x,
        None => {
            return Err(BBFError::TableError);
        },
    };
    let lm = match nm.checked_mul(32) {
        Some(x) => x,
        None => {
            return Err(BBFError::TableError);
        },
    };
    let tsize = match la.checked_add(lp) {
        Some(x) => match x.checked_add(ls) {
            Some(y) => match y.checked_add(lm) {
                Some(z) => match z.checked_add(ps) {
                    Some(w) => w,
                    None => {
                        return Err(BBFError::TableError);
                    },
                },
                None => {
                    return Err(BBFError::TableError);
                },
            },
            None => {
                return Err(BBFError::TableError);
            },
        },
        None => {
            return Err(BBFError::TableError);
        },
    };
    if tsize > u64::MAX - 320 {
        return Err(BBFError::TableError);
    }
    if ao > len as u64 || tsize > len as u64 - ao {
        return Err(BBFError::FileTooShort);
    }
    let t0 = slice_subrange(file.as_slice(), ao as usize, (ao + tsize) as usize);
    let shift = 256 + tsize;
    let new_pool = 320 + la + lp + ls + lm;
    let diff = new_pool.wrapping_sub(old_pool);
    let mut t1 = moved_tables(t0, na, ns, nm, la, lp, ls, lm, shift, diff);
    // String pool: unchanged.
    push_bytes(&mut t1, slice_subrange(t0, (la + lp + ls + lm) as usize, tsize as usize));
    let footer_hash = xxh3_64(t1.as_slice());
    let mut foot1 = to_vec(foot);
    put_u64(&mut foot1, 0, 320);
    put_u64(&mut foot1, 8, 320 + la);
    put_u64(&mut foot1, 16, 320 + la + lp);
    put_u64(&mut foot1, 24, 320 + la + lp + ls);
    put_u64(&mut foot1, 40, new_pool);
    put_u64(&mut foot1, 104, footer_hash);
    let mut result = to_vec(slice_subrange(file.as_slice(), 0, 64));
    put_u64(&mut result, 16, 64);
    push_bytes(&mut result, foot1.as_slice());
    push_bytes(&mut result, t1.as_slice());
    if ofo_u > 64 {
        push_bytes(&mut result, slice_subrange(file.as_slice(), 64, ofo_u));
    }
    if len > result.len() {
        let rl = result.len();
        push_bytes(&mut result, slice_subrange(file.as_slice(), rl, len));
    }
    proof {
        lemma_le_roundtrips();

    }
    *file = result;
    Ok(())
}

} // verus!
