//! Reading a book while it downloads: bytes arrive in chunks, and the index
//! and each page become readable as soon as their bytes are there.

use vstd::prelude::*;
use vstd::string::*;
use crate::format::BBFMediaType;
use crate::codec::u64_at;
use crate::reader::{
    asset_count_of, asset_offset_of, asset_outcome, asset_type_code, entry_bytes, footer_pos,
    page_asset_index, page_count_of, page_offset_of, parse_outcome, BBFReader,
};
use crate::codec::push_bytes;
use crate::text::str_eq;
use crate::builder::BBFBuilder;
use crate::petrify::{lemma_petrified_book, petrify_outcome};

verus! {

/// Why a streamed page could not be given.
#[derive(Debug, Clone, Copy, PartialEq, Eq, Structural)]
pub enum StreamError {
    IndexNotReady,
    PageOutOfBounds,
    PageNotDownloaded,
}

impl StreamError {
    /// The human-readable description of the error.
    pub fn message(&self) -> (r: &'static str)
        ensures
            r@ == match self {
                StreamError::IndexNotReady => "Index not ready yet"@,
                StreamError::PageOutOfBounds => "Page index out of bounds"@,
                StreamError::PageNotDownloaded => "Page data has not fully downloaded yet"@,
            },
    {
        match self {
            StreamError::IndexNotReady => "Index not ready yet",
            StreamError::PageOutOfBounds => "Page index out of bounds",
            StreamError::PageNotDownloaded => "Page data has not fully downloaded yet",
        }
    }
}

/// The MIME type served for a file extension.
pub open spec fn mime_for_extension(ext: Seq<char>) -> Seq<char> {
    if ext == ".png"@ {
        "image/png"@
    } else if ext == ".jpg"@ || ext == ".jpeg"@ {
        "image/jpeg"@
    } else if ext == ".avif"@ {
        "image/avif"@
    } else if ext == ".webp"@ {
        "image/webp"@
    } else {
        "application/octet-stream"@
    }
}

/// What `is_page_ready` answers for page `j` of the bytes `d`.
pub open spec fn page_ready_outcome(d: Seq<u8>, j: u32) -> Result<bool, StreamError> {
    if parse_outcome(d) is Err {
        Err(StreamError::IndexNotReady)
    } else if j >= page_count_of(d) {
        Err(StreamError::PageOutOfBounds)
    } else {
        Ok(asset_outcome(d, page_asset_index(d, j as int)) is Ok)
    }
}

/// The bytes of a file up to `b` do not change when more bytes follow.
proof fn lemma_prefix_subrange(q: Seq<u8>, more: Seq<u8>, a: int, b: int)
    requires
        0 <= a <= b <= q.len(),
    ensures
        (q + more).subrange(a, b) == q.subrange(a, b),
{
    assert((q + more).subrange(a, b) =~= q.subrange(a, b));
}

/// Bytes that arrive later never take back what could already be read:
/// once the index parses it still parses, with the same page and asset
/// counts, page entries and media types; every asset that could be read
/// reads the same; so every page that was ready stays ready.
pub proof fn lemma_more_bytes_keep_pages(q: Seq<u8>, more: Seq<u8>)
    requires
        parse_outcome(q) is Ok,
    ensures
        parse_outcome(q + more) is Ok,
        page_count_of(q + more) == page_count_of(q),
        asset_count_of(q + more) == asset_count_of(q),
        forall|j: int|
            0 <= j < page_count_of(q) ==> #[trigger] page_asset_index(q + more, j)
                == page_asset_index(q, j),
        forall|k: int|
            0 <= k < asset_count_of(q) ==> #[trigger] asset_type_code(q + more, k)
                == asset_type_code(q, k),
        forall|k: u64|
            (#[trigger] asset_outcome(q, k)) is Ok ==> asset_outcome(q + more, k) == asset_outcome(
                q,
                k,
            ),
        forall|j: u32|
            #[trigger] page_ready_outcome(q, j) == Ok::<bool, StreamError>(true)
                ==> page_ready_outcome(q + more, j) == Ok::<bool, StreamError>(true),
{
    let d = q + more;
    lemma_prefix_subrange(q, more, 0, 4);
    lemma_prefix_subrange(q, more, 16, 24);
    let fp = footer_pos(q);
    assert(footer_pos(d) == fp);
    lemma_prefix_subrange(q, more, fp, fp + 8);
    lemma_prefix_subrange(q, more, fp + 8, fp + 16);
    lemma_prefix_subrange(q, more, fp + 16, fp + 24);
    lemma_prefix_subrange(q, more, fp + 24, fp + 32);
    lemma_prefix_subrange(q, more, fp + 40, fp + 48);
    lemma_prefix_subrange(q, more, fp + 48, fp + 56);
    lemma_prefix_subrange(q, more, fp + 56, fp + 64);
    lemma_prefix_subrange(q, more, fp + 64, fp + 72);
    lemma_prefix_subrange(q, more, fp + 72, fp + 80);
    lemma_prefix_subrange(q, more, fp + 80, fp + 88);
    assert(parse_outcome(d) is Ok);
    assert forall|j: int| 0 <= j < page_count_of(q) implies #[trigger] page_asset_index(d, j)
        == page_asset_index(q, j) by {
        let o = page_offset_of(q) as int;
        lemma_prefix_subrange(q, more, o + j * 16, o + (j + 1) * 16);
    }
    assert forall|k: int| 0 <= k < asset_count_of(q) implies #[trigger] asset_type_code(d, k)
        == asset_type_code(q, k) by {
        let o = asset_offset_of(q) as int;
        lemma_prefix_subrange(q, more, o + k * 48, o + (k + 1) * 48);
    }
    assert forall|k: u64| (#[trigger] asset_outcome(q, k)) is Ok implies asset_outcome(d, k)
        == asset_outcome(q, k) by {
        let o = asset_offset_of(q) as int;
        lemma_prefix_subrange(q, more, o + k * 48, o + (k + 1) * 48);
        let e = entry_bytes(q, asset_offset_of(q), k as int, 48);
        let off = u64_at(e, 0);
        let size = u64_at(e, 24);
        lemma_prefix_subrange(q, more, off as int, off + size);
    }
    assert forall|j: u32| #[trigger] page_ready_outcome(q, j) == Ok::<bool, StreamError>(true)
        implies page_ready_outcome(d, j) == Ok::<bool, StreamError>(true) by {
        let o = page_offset_of(q) as int;
        lemma_prefix_subrange(q, more, o + j * 16, o + (j + 1) * 16);
        let k = page_asset_index(q, j as int);
        let ao = asset_offset_of(q) as int;
        lemma_prefix_subrange(q, more, ao + k * 48, ao + (k + 1) * 48);
        let e = entry_bytes(q, asset_offset_of(q), k as int, 48);
        lemma_prefix_subrange(q, more, u64_at(e, 0) as int, u64_at(e, 0) + u64_at(e, 24));
    }
}

/// A page is ready exactly when the index has arrived, the page exists, and
/// its image's bytes can be read from what has arrived, wherever the footer
/// lies; asking about a page is an error exactly when the index has not
/// arrived or the page does not exist.
pub proof fn lemma_page_ready_iff_readable(d: Seq<u8>, j: u32)
    ensures
        (page_ready_outcome(d, j) == Ok::<bool, StreamError>(true)) <==> (parse_outcome(d) is Ok
            && j < page_count_of(d) && asset_outcome(d, page_asset_index(d, j as int)) is Ok),
        (page_ready_outcome(d, j) is Err) <==> (parse_outcome(d) is Err || j >= page_count_of(d)),
        page_ready_outcome(d, j) is Err ==> page_ready_outcome(d, j) == Err::<bool, StreamError>(
            if parse_outcome(d) is Err {
                StreamError::IndexNotReady
            } else {
                StreamError::PageOutOfBounds
            },
        ),
{
}

/// Every page of a finished book whose bytes have all arrived is ready, and
/// its image reads back as the asset stored for it (with the hash of the
/// image the page was added with).
pub proof fn lemma_finished_book_pages_ready(b: BBFBuilder)
    requires
        b.wf(),
        b.spec_assets().len() <= 0x1_0000_0000,
    ensures
        ({
            let d = b.spec_image();
            &&& parse_outcome(d) is Ok
            &&& page_count_of(d) == b.spec_pages().len()
            &&& forall|j: u32|
                j < b.spec_pages().len() ==> {
                    let k = b.spec_page_assets()[j as int];
                    &&& #[trigger] page_ready_outcome(d, j) == Ok::<bool, StreamError>(true)
                    &&& page_asset_index(d, j as int) == k
                    &&& asset_outcome(d, k as u64) == Ok::<Seq<u8>, crate::reader::BBFError>(
                        b.spec_asset_data()[k],
                    )
                }
        }),
{
    b.lemma_finished_file_pages();
    b.lemma_finished_file_parses();
    let d = b.spec_image();
    assert forall|j: u32| j < b.spec_pages().len() implies {
        let k = b.spec_page_assets()[j as int];
        &&& #[trigger] page_ready_outcome(d, j) == Ok::<bool, StreamError>(true)
        &&& page_asset_index(d, j as int) == k
        &&& asset_outcome(d, k as u64) == Ok::<Seq<u8>, crate::reader::BBFError>(
            b.spec_asset_data()[k],
        )
    } by {
        let k = b.spec_page_assets()[j as int];
        assert(u64_at(entry_bytes(d, page_offset_of(d), j as int, 16), 0) == k);
        lemma_page_ready_iff_readable(d, j);
    }
}

/// Every page of a petrified finished book whose bytes have all arrived is
/// ready too, and reads back the same image as before petrification.
pub proof fn lemma_petrified_book_pages_ready(b: BBFBuilder)
    requires
        b.wf(),
        b.spec_assets().len() <= 0x1_0000_0000,
    ensures
        petrify_outcome(b.spec_image()) is Ok,
        ({
            let p = petrify_outcome(b.spec_image())->Ok_0;
            forall|j: u32|
                j < b.spec_pages().len() ==> {
                    let k = b.spec_page_assets()[j as int];
                    &&& #[trigger] page_ready_outcome(p, j) == Ok::<bool, StreamError>(true)
                    &&& page_asset_index(p, j as int) == k
                    &&& asset_outcome(p, k as u64) == Ok::<Seq<u8>, crate::reader::BBFError>(
                        b.spec_asset_data()[k],
                    )
                }
        }),
{
    lemma_petrified_book(b);
    lemma_finished_book_pages_ready(b);
    b.lemma_finished_file_parses();
    b.lemma_pages();
    let d = b.spec_image();
    let p = petrify_outcome(d)->Ok_0;
    assert forall|j: u32| j < b.spec_pages().len() implies {
        let k = b.spec_page_assets()[j as int];
        &&& #[trigger] page_ready_outcome(p, j) == Ok::<bool, StreamError>(true)
        &&& page_asset_index(p, j as int) == k
        &&& asset_outcome(p, k as u64) == Ok::<Seq<u8>, crate::reader::BBFError>(
            b.spec_asset_data()[k],
        )
    } by {
        let k = b.spec_page_assets()[j as int];
        assert(page_ready_outcome(d, j) == Ok::<bool, StreamError>(true));
        assert(entry_bytes(p, page_offset_of(p), j as int, 16) == entry_bytes(
            d,
            page_offset_of(d),
            j as int,
            16,
        ));
        assert(asset_outcome(p, k as u64) == asset_outcome(d, k as u64));
        lemma_page_ready_iff_readable(p, j);
    }
}

/// The MIME type served for a stored media-type byte: PNG (2), JPEG (9),
/// AVIF (1) and WebP (3) by name, every other byte, JPEG XL among them, as
/// an octet stream.
pub proof fn lemma_mime_for_code(c: u8)
    ensures
        mime_for_extension(BBFMediaType::spec_from_code(c).spec_extension()) == (if c == 2 {
            "image/png"@
        } else if c == 9 {
            "image/jpeg"@
        } else if c == 1 {
            "image/avif"@
        } else if c == 3 {
            "image/webp"@
        } else {
            "application/octet-stream"@
        }),
{
    reveal_strlit(".png");
    reveal_strlit(".jpg");
    reveal_strlit(".jpeg");
    reveal_strlit(".avif");
    reveal_strlit(".webp");
    reveal_strlit(".jxl");
    reveal_strlit(".bmp");
    reveal_strlit(".gif");
    reveal_strlit(".tiff");
    reveal_strlit(".bin");
    let e = BBFMediaType::spec_from_code(c).spec_extension();
    assert(".jxl"@[2] != ".jpg"@[2]);
    assert(".jxl"@[1] != ".png"@[1]);
    assert(".bmp"@[1] != ".png"@[1] && ".bmp"@[1] != ".jpg"@[1]);
    assert(".gif"@[1] != ".png"@[1] && ".gif"@[1] != ".jpg"@[1]);
    assert(".bin"@[1] != ".png"@[1] && ".bin"@[1] != ".jpg"@[1]);
    assert(".tiff"@[1] != ".jpeg"@[1] && ".tiff"@[1] != ".avif"@[1] && ".tiff"@[1]
        != ".webp"@[1]);
    assert(".avif"@[1] != ".jpeg"@[1]);
    assert(".webp"@[1] != ".jpeg"@[1] && ".webp"@[1] != ".avif"@[1]);
}

/// The bytes of a book received so far.
pub struct WasmBBFStreamer {
    buffer: Vec<u8>,
}

impl WasmBBFStreamer {
    /// The bytes received so far.
    pub closed spec fn received(&self) -> Seq<u8> {
        self.buffer@
    }

    /// A streamer that has received nothing.
    pub fn new() -> (r: Self)
        ensures
            r.received() == Seq::<u8>::empty(),
    {
        WasmBBFStreamer { buffer: Vec::new() }
    }

    /// Appends a newly received chunk.
    pub fn append_chunk(&mut self, chunk: &[u8])
        ensures
            final(self).received() == old(self).received() + chunk@,
    {
        push_bytes(&mut self.buffer, chunk);
    }

    /// Whether the index (header, footer and tables) has arrived and parses;
    /// for a petrified book this is so as soon as its first bytes are there.
    pub fn is_ready(&self) -> (r: bool)
        ensures
            r == (parse_outcome(self.received()) is Ok),
    {
        BBFReader::new(self.buffer.as_slice()).is_ok()
    }

    /// The number of pages (as a `u32`), once the index has arrived.
    pub fn page_count(&self) -> (r: Result<u32, StreamError>)
        ensures
            match r {
                Ok(n) => parse_outcome(self.received()) is Ok && n == page_count_of(
                    self.received(),
                ) as u32,
                Err(e) => parse_outcome(self.received()) is Err && e == StreamError::IndexNotReady,
            },
    {
        let reader = match BBFReader::new(self.buffer.as_slice()) {
            Ok(r) => r,
            Err(_) => {
                return Err(StreamError::IndexNotReady);
            },
        };
        proof {
            reader.lemma_wf();
        }
        let pages = reader.pages();
        Ok(#[verifier::truncate] (pages.len() as u32))
    }

    /// Whether the bytes of page `page_index`'s image have all arrived.
    pub fn is_page_ready(&self, page_index: u32) -> (r: Result<bool, StreamError>)
        ensures
            r == page_ready_outcome(self.received(), page_index),
    {
        let reader = match BBFReader::new(self.buffer.as_slice()) {
            Ok(r) => r,
            Err(_) => {
                return Err(StreamError::IndexNotReady);
            },
        };
        proof {
            reader.lemma_wf();
        }
        let pages = reader.pages();
        if page_index as usize >= pages.len() {
            return Err(StreamError::PageOutOfBounds);
        }
        let asset_idx = pages[page_index as usize].asset_index;
        proof {
            pages@[page_index as int].lemma_layout();
        }
        Ok(reader.get_asset(asset_idx).is_ok())
    }

    /// The bytes of page `page_index`'s image, once they have all arrived.
    #[verifier::spinoff_prover]
    pub fn get_page(&self, page_index: u32) -> (r: Result<&[u8], StreamError>)
        ensures
            match r {
                Ok(data) => page_ready_outcome(self.received(), page_index) == Ok::<
                    bool,
                    StreamError,
                >(true) && asset_outcome(
                    self.received(),
                    page_asset_index(self.received(), page_index as int),
                ) == Ok::<Seq<u8>, crate::reader::BBFError>(data@),
                Err(e) => match page_ready_outcome(self.received(), page_index) {
                    Err(e2) => e == e2,
                    Ok(ready) => !ready && e == StreamError::PageNotDownloaded,
                },
            },
    {
        let reader = match BBFReader::new(self.buffer.as_slice()) {
            Ok(r) => r,
            Err(_) => {
                return Err(StreamError::IndexNotReady);
            },
        };
        proof {
            reader.lemma_wf();
        }
        let pages = reader.pages();
        if page_index as usize >= pages.len() {
            return Err(StreamError::PageOutOfBounds);
        }
        let asset_idx = pages[page_index as usize].asset_index;
        proof {
            pages@[page_index as int].lemma_layout();
        }
        match reader.get_asset(asset_idx) {
            Ok(data) => Ok(data),
            Err(_) => Err(StreamError::PageNotDownloaded),
        }
    }

    /// Whether the entry of page `page_index` names an asset of the table, or
    /// the index or the page is not there to ask about (what `get_page_mime`
    /// needs of its caller).
    pub fn page_names_asset(&self, page_index: u32) -> (r: bool)
        ensures
            r == (parse_outcome(self.received()) is Ok && page_index < page_count_of(
                self.received(),
            ) ==> page_asset_index(self.received(), page_index as int) < asset_count_of(
                self.received(),
            )),
    {
        let reader = match BBFReader::new(self.buffer.as_slice()) {
            Ok(r) => r,
            Err(_) => {
                return true;
            },
        };
        proof {
            reader.lemma_wf();
            reader.lemma_fields();
        }
        let pages = reader.pages();
        if page_index as usize >= pages.len() {
            return true;
        }
        proof {
            pages@[page_index as int].lemma_layout();
        }
        pages[page_index as usize].asset_index < reader.footer.asset_count
    }

    /// The MIME type of page `page_index`'s image, from its asset's media
    /// type: PNG, JPEG, AVIF and WebP by name, anything else as an octet
    /// stream. The page's entry must name an asset of the table.
    #[verifier::spinoff_prover]
    pub fn get_page_mime(&self, page_index: u32) -> (r: Result<&'static str, StreamError>)
        requires
            parse_outcome(self.received()) is Ok && page_index < page_count_of(self.received())
                ==> page_asset_index(self.received(), page_index as int) < asset_count_of(
                self.received(),
            ),
        ensures
            match r {
                Ok(m) => parse_outcome(self.received()) is Ok && page_index < page_count_of(
                    self.received(),
                ) && m@ == mime_for_extension(
                    BBFMediaType::spec_from_code(
                        asset_type_code(
                            self.received(),
                            page_asset_index(self.received(), page_index as int) as int,
                        ),
                    ).spec_extension(),
                ),
                Err(e) => if parse_outcome(self.received()) is Err {
                    e == StreamError::IndexNotReady
                } else {
                    page_index >= page_count_of(self.received()) && e
                        == StreamError::PageOutOfBounds
                },
            },
    {
        let reader = match BBFReader::new(self.buffer.as_slice()) {
            Ok(r) => r,
            Err(_) => {
                return Err(StreamError::IndexNotReady);
            },
        };
        proof {
            reader.lemma_wf();
        }
        let pages = reader.pages();
        if page_index as usize >= pages.len() {
            return Err(StreamError::PageOutOfBounds);
        }
        let asset_idx = pages[page_index as usize].asset_index;
        let assets = reader.assets();
        proof {
            pages@[page_index as int].lemma_layout();
            assets@[asset_idx as int].lemma_layout();
        }
        let asset = &assets[asset_idx as usize];
        let media = BBFMediaType::from(asset.type_);
        let ext = media.as_extension();
        let mime = if str_eq(ext, ".png") {
            "image/png"
        } else if str_eq(ext, ".jpg") || str_eq(ext, ".jpeg") {
            "image/jpeg"
        } else if str_eq(ext, ".avif") {
            "image/avif"
        } else if str_eq(ext, ".webp") {
            "image/webp"
        } else {
            "application/octet-stream"
        };
        Ok(mime)
    }
}

} // verus!
