use vstd::prelude::*;

use crate::embedding::{decimal, decimal_exec};
use crate::ingest::IngestResult;
use crate::ingest_engine::{is_safe_ingest_path, parse_file_blocks, parse_stream, safe_ingest_path, ParsedFileBlock};
use crate::page_text::views_of;
use crate::text::{append_chars, chars_of, owned, string_of};

verus! {

/// Where an ingest of FILE blocks stands: the pages it read, the chunks it stored,
/// and its warnings so far. The caller chunks, embeds and stores each block, and
/// asks this record at each step whether to go on with the block.
pub struct IngestProgress {
    pub warnings: Vec<String>,
    pub chunks_created: usize,
    pub pages_processed: usize,
}

impl IngestProgress {
    /// Starts an ingest of a stream of FILE blocks: the blocks, and a record holding
    /// the parser's warnings and the number of blocks.
    pub fn start(content: &str) -> (r: (Vec<ParsedFileBlock>, IngestProgress))
        ensures
            (crate::ingest_engine::blocks_view(r.0@), views_of(r.1.warnings@)) == parse_stream(content@),
            r.1.pages_processed == r.0.len(),
            r.1.chunks_created == 0,
    {
        let parsed = parse_file_blocks(content);
        let n = parsed.blocks.len();
        proof {
            assert(crate::ingest_engine::strings_view(parsed.warnings@) =~= views_of(parsed.warnings@));
        }
        (parsed.blocks, IngestProgress { warnings: parsed.warnings, chunks_created: 0, pages_processed: n })
    }

    /// Whether a block's path may be ingested; an unsafe one is skipped with the
    /// warning `Skipping unsafe path: ` and the path.
    pub fn admit_block(&mut self, path: &str) -> (r: bool)
        ensures
            r == safe_ingest_path(path@),
            final(self).chunks_created == old(self).chunks_created,
            final(self).pages_processed == old(self).pages_processed,
            views_of(final(self).warnings@) == if r {
                views_of(old(self).warnings@)
            } else {
                views_of(old(self).warnings@).push("Skipping unsafe path: "@ + path@)
            },
    {
        if is_safe_ingest_path(path) {
            return true;
        }
        let mut w = chars_of("Skipping unsafe path: ");
        append_chars(&mut w, &chars_of(path));
        self.warn(string_of(&w));
        false
    }

    fn warn(&mut self, w: String)
        ensures
            final(self).chunks_created == old(self).chunks_created,
            final(self).pages_processed == old(self).pages_processed,
            views_of(final(self).warnings@) == views_of(old(self).warnings@).push(w@),
    {
        let ghost before = self.warnings@;
        self.warnings.push(w);
        proof {
            crate::page_text::lemma_views_push(before, w);
        }
    }

    /// Whether the chunker gave any chunks for a page; none is a warning
    /// `No chunks generated for page: ` and the page id.
    pub fn check_chunks(&mut self, page_id: &str, n_chunks: usize) -> (r: bool)
        ensures
            r == (n_chunks > 0),
            final(self).chunks_created == old(self).chunks_created,
            final(self).pages_processed == old(self).pages_processed,
            views_of(final(self).warnings@) == if r {
                views_of(old(self).warnings@)
            } else {
                views_of(old(self).warnings@).push("No chunks generated for page: "@ + page_id@)
            },
    {
        if n_chunks > 0 {
            return true;
        }
        let mut w = chars_of("No chunks generated for page: ");
        append_chars(&mut w, &chars_of(page_id));
        self.warn(string_of(&w));
        false
    }

    /// Whether a page got one embedding per chunk; otherwise a warning
    /// `Embedding count mismatch for page <id>: expected <n>, got <m>`.
    pub fn check_embeddings(&mut self, page_id: &str, expected: usize, got: usize) -> (r: bool)
        ensures
            r == (expected == got),
            final(self).chunks_created == old(self).chunks_created,
            final(self).pages_processed == old(self).pages_processed,
            views_of(final(self).warnings@) == if r {
                views_of(old(self).warnings@)
            } else {
                views_of(old(self).warnings@).push(
                    "Embedding count mismatch for page "@ + page_id@ + ": expected "@ + decimal(expected as nat)
                        + ", got "@ + decimal(got as nat),
                )
            },
    {
        if expected == got {
            return true;
        }
        let mut w = chars_of("Embedding count mismatch for page ");
        append_chars(&mut w, &chars_of(page_id));
        append_chars(&mut w, &chars_of(": expected "));
        append_chars(&mut w, &decimal_exec(expected));
        append_chars(&mut w, &chars_of(", got "));
        append_chars(&mut w, &decimal_exec(got));
        self.warn(string_of(&w));
        false
    }

    /// Counts the chunks stored for a page.
    pub fn record_stored(&mut self, n_chunks: usize)
        requires
            old(self).chunks_created + n_chunks <= usize::MAX,
        ensures
            final(self).chunks_created == old(self).chunks_created + n_chunks,
            final(self).pages_processed == old(self).pages_processed,
            views_of(final(self).warnings@) == views_of(old(self).warnings@),
    {
        self.chunks_created = self.chunks_created + n_chunks;
    }

    /// The result of the ingest.
    pub fn finish(self) -> (r: IngestResult)
        ensures
            r.pages_processed == self.pages_processed,
            r.chunks_created == self.chunks_created,
            views_of(r.warnings@) == views_of(self.warnings@),
    {
        IngestResult {
            pages_processed: self.pages_processed,
            chunks_created: self.chunks_created,
            warnings: self.warnings,
        }
    }
}

/// Checks the path of a single page before it is ingested.
pub fn check_page_path(page_id: &str) -> (r: Result<(), String>)
    ensures
        match r {
            Ok(()) => safe_ingest_path(page_id@),
            Err(e) => !safe_ingest_path(page_id@) && e@ == "Unsafe page path: "@ + page_id@,
        },
{
    if is_safe_ingest_path(page_id) {
        Ok(())
    } else {
        let mut e = chars_of("Unsafe page path: ");
        append_chars(&mut e, &chars_of(page_id));
        Err(string_of(&e))
    }
}

/// Checks that a single page got one embedding per chunk.
pub fn check_page_embeddings(expected: usize, got: usize) -> (r: Result<(), String>)
    ensures
        match r {
            Ok(()) => expected == got,
            Err(e) => expected != got && e@ == "Embedding count mismatch: expected "@ + decimal(expected as nat)
                + ", got "@ + decimal(got as nat),
        },
{
    if expected == got {
        Ok(())
    } else {
        let mut e = chars_of("Embedding count mismatch: expected ");
        append_chars(&mut e, &decimal_exec(expected));
        append_chars(&mut e, &chars_of(", got "));
        append_chars(&mut e, &decimal_exec(got));
        Err(string_of(&e))
    }
}

/// The result of ingesting a single page that gave `n_chunks` chunks, all stored;
/// a page without chunks is one page with the warning `No chunks generated`.
pub fn page_result(n_chunks: usize) -> (r: IngestResult)
    ensures
        r.pages_processed == 1,
        r.chunks_created == n_chunks,
        views_of(r.warnings@) == if n_chunks == 0 {
            seq!["No chunks generated"@]
        } else {
            Seq::<Seq<char>>::empty()
        },
{
    let mut warnings: Vec<String> = Vec::new();
    if n_chunks == 0 {
        warnings.push(owned("No chunks generated"));
    }
    proof {
        if n_chunks == 0 {
            assert(views_of(warnings@) =~= seq!["No chunks generated"@]);
        } else {
            assert(views_of(warnings@) =~= Seq::<Seq<char>>::empty());
        }
    }
    IngestResult { pages_processed: 1, chunks_created: n_chunks, warnings }
}

} // verus!
