use vstd::prelude::*;

use crate::markdown::{
    atom_end, atom_view, atoms_from, atoms_spec, atoms_view, lemma_atoms_bounds, lemma_sections_bounded, lemma_split_span,
    section_view, sections_spec, sections_view, split_into_sections, strip_frontmatter_chars, strip_frontmatter_spec,
    atoms_defined, tokenize_atoms, total_span, Atom, Section,
};
use crate::pieces::{
    lemma_contiguous_ordered, lemma_within_last, lemma_overlap_within, apply_overlap, apply_overlap_spec, concat, contiguous, end_of, lemma_concat_take_len, lemma_merge_small,
    lemma_overlap_is_suffix, lemma_recursive_split_keeps_text, lemma_size_pieces_keeps_text, merge_small,
    merge_small_spec, ordered, piece_view, pieces_view, recursive_split, recursive_split_spec, size_pieces,
    size_pieces_spec, snap_overlap_spec, tail_of, texts_of, within, Piece, pieces_fit, listed, short_or_listed,
    lemma_recursive_split_fits, lemma_size_pieces_bound, lemma_merge_small_bound, lemma_overlap_respects_limit,
};
use crate::text::{all_ws, all_ws_exec, chars_of, copy_of, string_of};
use crate::tokenizer::{bpe_ok, bpe_tokens, Tokenizer};

verus! {

/// Configuration for markdown chunking, in characters.
#[derive(Clone, Copy)]
pub struct ChunkingConfig {
    /// Target characters per chunk (soft limit).
    pub target_chars: usize,
    /// Maximum characters per chunk (hard limit for text that can be cut).
    pub max_chars: usize,
    /// Chunks shorter than this are merged with the next.
    pub min_chars: usize,
    /// Characters of overlap between neighbouring chunks, cut where a chunk would
    /// otherwise go over `max_chars`.
    pub overlap_chars: usize,
}

impl Default for ChunkingConfig {
    fn default() -> (r: Self)
        ensures
            r.target_chars == 1000,
            r.max_chars == 1500,
            r.min_chars == 200,
            r.overlap_chars == 200,
    {
        ChunkingConfig { target_chars: 1000, max_chars: 1500, min_chars: 200, overlap_chars: 200 }
    }
}

/// One chunk of markdown content.
pub struct Chunk {
    /// 0-based position in emission order.
    pub index: usize,
    /// The visible content of the chunk.
    pub text: String,
    /// Heading breadcrumb, e.g. `## Intro > ### Usage`.
    pub heading_path: String,
    /// Character offset into the original input.
    pub char_start: usize,
    /// Character offset (exclusive) into the original input.
    pub char_end: usize,
    /// The chunk is longer than `max_chars` because its text could not be cut.
    pub oversized: bool,
    /// Token ids, when a tokenizer is set.
    pub token_ids: Option<Vec<u32>>,
    /// Token count, when a tokenizer is set.
    pub token_count: Option<u32>,
}

/// What a chunk says: index, text, heading path, start, end, oversized, token ids and
/// token count.
pub open spec fn chunk_view(c: Chunk) -> (int, Seq<char>, Seq<char>, int, int, bool, Option<Seq<u32>>, Option<u32>) {
    (
        c.index as int,
        c.text@,
        c.heading_path@,
        c.char_start as int,
        c.char_end as int,
        c.oversized,
        match c.token_ids {
            Some(v) => Some(v@),
            None => None,
        },
        c.token_count,
    )
}

pub open spec fn chunks_view(v: Seq<Chunk>) -> Seq<(int, Seq<char>, Seq<char>, int, int, bool, Option<Seq<u32>>, Option<u32>)> {
    v.map_values(|c: Chunk| chunk_view(c))
}

/// The pieces of one block: a block that may not be cut, or that fits, stays whole;
/// a longer one is cut by `recursive_split_spec`.
pub open spec fn atom_pieces(a: (Seq<char>, int, bool), target: int) -> Seq<(Seq<char>, int)> {
    if a.2 || a.0.len() <= target {
        seq![(a.0, a.1)]
    } else {
        recursive_split_spec(a.0, a.1, target)
    }
}

pub open spec fn atoms_pieces(atoms: Seq<(Seq<char>, int, bool)>, target: int) -> Seq<(Seq<char>, int)>
    decreases atoms.len(),
{
    if atoms.len() == 0 {
        Seq::empty()
    } else {
        atoms_pieces(atoms.drop_last(), target) + atom_pieces(atoms.last(), target)
    }
}

/// The configuration in force: `max_chars` at least `target_chars`, and an overlap of at
/// least `target_chars` cut to half of it.
pub open spec fn effective(c: ChunkingConfig) -> ChunkingConfig {
    ChunkingConfig {
        target_chars: c.target_chars,
        max_chars: if c.max_chars < c.target_chars { c.target_chars } else { c.max_chars },
        min_chars: c.min_chars,
        overlap_chars: if c.overlap_chars >= c.target_chars { (c.target_chars / 2) as usize } else { c.overlap_chars },
    }
}

/// The pieces of a long section text: blocks, cut where needed, packed to the target,
/// small ones merged, and overlap added where it keeps a piece within `max_chars`.
pub open spec fn section_pieces(text: Seq<char>, c: ChunkingConfig) -> Seq<(Seq<char>, int)> {
    apply_overlap_spec(
        merge_small_spec(
            size_pieces_spec(atoms_pieces(atoms_spec(text)->0, c.target_chars as int), c.target_chars as int),
            c.min_chars as int,
            c.max_chars as int,
        ),
        c.overlap_chars as int,
        c.max_chars as int,
    )
}

/// The chunks of one section, without index and tokens: text, heading path, start, end,
/// oversized. A section that fits is one chunk.
pub open spec fn section_chunks(sec: (Seq<char>, int, Seq<char>), c: ChunkingConfig) -> Seq<(Seq<char>, Seq<char>, int, int, bool)> {
    if sec.0.len() <= c.target_chars {
        seq![(sec.0, sec.2, sec.1, sec.1 + sec.0.len(), false)]
    } else {
        section_pieces(sec.0, c).map_values(
            |p: (Seq<char>, int)| (p.0, sec.2, sec.1 + p.1, sec.1 + p.1 + p.0.len(), p.0.len() > c.max_chars),
        )
    }
}

pub open spec fn all_section_chunks(secs: Seq<(Seq<char>, int, Seq<char>)>, c: ChunkingConfig) -> Seq<(Seq<char>, Seq<char>, int, int, bool)>
    decreases secs.len(),
{
    if secs.len() == 0 {
        Seq::empty()
    } else {
        all_section_chunks(secs.drop_last(), c) + section_chunks(secs.last(), c)
    }
}

/// The tokens of a chunk text under an optional tokenizer model.
pub open spec fn tokens_of(model: Option<Seq<char>>, text: Seq<char>) -> (Option<Seq<u32>>, Option<u32>) {
    match model {
        Some(m) => (Some(bpe_tokens(m, text)), Some(bpe_tokens(m, text).len() as u32)),
        None => (None, None),
    }
}

/// The tokenizer in use cannot split a chunk text (see `bpe_ok`).
pub open spec fn tokens_fail(model: Option<Seq<char>>, text: Seq<char>) -> bool {
    model matches Some(m) && !bpe_ok(m, text)
}

/// The tokenizer in use cannot split the text of some chunk of the sections.
pub open spec fn sections_fail(secs: Seq<(Seq<char>, int, Seq<char>)>, c: ChunkingConfig, model: Option<Seq<char>>) -> bool {
    exists|q: int, j: int|
        0 <= q < secs.len() && 0 <= j < section_chunks(secs[q], c).len() && #[trigger] tokens_fail(
            model,
            section_chunks(secs[q], c)[j].0,
        )
}

/// The body of a document after front matter, when it is not blank.
pub open spec fn body_sections(content: Seq<char>) -> Seq<(Seq<char>, int, Seq<char>)> {
    let (body, off) = strip_frontmatter_spec(content);
    if all_ws(body) {
        Seq::empty()
    } else {
        sections_spec(body, off)
    }
}

/// The chunks of a markdown document: front matter is skipped, the body is cut into
/// sections at headings, each section into chunks; chunks are numbered in order and
/// carry their tokens when a tokenizer is set.
pub open spec fn chunks_spec(content: Seq<char>, c: ChunkingConfig, model: Option<Seq<char>>) -> Seq<(int, Seq<char>, Seq<char>, int, int, bool, Option<Seq<u32>>, Option<u32>)> {
    let parts = all_section_chunks(body_sections(content), effective(c));
    Seq::new(
        parts.len(),
        |i: int|
            {
                let p = parts[i];
                let t = tokens_of(model, p.0);
                (i, p.0, p.1, p.2, p.3, p.4, t.0, t.1)
            },
    )
}

/// Every section longer than the target can be cut: its block scan ends, and with a
/// target of 0 no block would need cutting.
pub open spec fn chunkable(content: Seq<char>, c: ChunkingConfig) -> bool {
    forall|q: int|
        0 <= q < body_sections(content).len() ==> {
            let t = (#[trigger] body_sections(content)[q]).0;
            t.len() > c.target_chars ==> {
                &&& atoms_spec(t) is Some
                &&& c.target_chars == 0 ==> forall|k: int|
                    0 <= k < atoms_spec(t)->0.len() ==> (#[trigger] atoms_spec(t)->0[k]).2 || atoms_spec(t)->0[k].0.len() == 0
            }
        }
}

/// Service that cuts markdown documents into embedding-sized chunks.
pub struct ChunkingService {
    config: ChunkingConfig,
    tokenizer: Option<Tokenizer>,
}

impl ChunkingService {
    pub closed spec fn config(self) -> ChunkingConfig {
        self.config
    }

    /// The model of the tokenizer, when one is set.
    pub closed spec fn token_model(self) -> Option<Seq<char>> {
        match self.tokenizer {
            Some(t) => Some(t.model()),
            None => None,
        }
    }

    /// A service with the default configuration and no tokenizer.
    pub fn new() -> (r: Self)
        ensures
            r.config() == (ChunkingConfig { target_chars: 1000, max_chars: 1500, min_chars: 200, overlap_chars: 200 }),
            (r.token_model() is None),
    {
        ChunkingService { config: ChunkingConfig::default(), tokenizer: None }
    }

    /// A service with the given configuration and no tokenizer.
    pub fn with_config(config: ChunkingConfig) -> (r: Self)
        ensures
            r.config() == config,
            (r.token_model() is None),
    {
        ChunkingService { config, tokenizer: None }
    }

    /// The same service, counting tokens with `tokenizer`.
    pub fn with_tokenizer(self, tokenizer: Tokenizer) -> (r: Self)
        ensures
            r.config() == self.config(),
            r.token_model() == Some(tokenizer.model()),
    {
        ChunkingService { config: self.config, tokenizer: Some(tokenizer) }
    }
}

pub proof fn lemma_atoms_pieces(atoms: Seq<(Seq<char>, int, bool)>, target: int, hi: int)
    requires
        target >= 0,
        forall|q: int| 0 <= q < atoms.len() ==> 0 <= #[trigger] atoms[q].1 && atom_end(atoms[q]) <= hi,
        forall|a: int, b: int| 0 <= a < b < atoms.len() ==> atom_end(#[trigger] atoms[a]) <= #[trigger] atoms[b].1,
        target > 0 || forall|k: int| 0 <= k < atoms.len() ==> (#[trigger] atoms[k]).2 || atoms[k].0.len() == 0,
    ensures
        ordered(atoms_pieces(atoms, target)),
        within(atoms_pieces(atoms, target), 0, if atoms.len() > 0 { atom_end(atoms.last()) } else { 0 }),
    decreases atoms.len(),
{
    if atoms.len() > 0 {
        let pre = atoms.drop_last();
        let a = atoms.last();
        assert forall|a1: int, b1: int| 0 <= a1 < b1 < pre.len() implies atom_end(#[trigger] pre[a1]) <= #[trigger] pre[b1].1 by {
            assert(pre[a1] == atoms[a1]);
            assert(pre[b1] == atoms[b1]);
        }
        assert forall|k: int| 0 <= k < pre.len() implies 0 <= #[trigger] pre[k].1 && atom_end(pre[k]) <= hi by {
            assert(pre[k] == atoms[k]);
        }
        if target <= 0 {
            assert forall|k: int| 0 <= k < pre.len() implies (#[trigger] pre[k]).2 || pre[k].0.len() == 0 by {
                assert(pre[k] == atoms[k]);
            }
            assert(a.2 || a.0.len() == 0) by {
                assert(atoms[atoms.len() - 1] == a);
            }
        }
        lemma_atoms_pieces(pre, target, hi);
        let p = atoms_pieces(pre, target);
        let e = if pre.len() > 0 { atom_end(pre.last()) } else { 0 };
        if pre.len() > 0 {
            assert(atom_end(atoms[pre.len() - 1]) <= atoms[atoms.len() - 1].1);
        }
        assert(e <= a.1);
        let qq = atom_pieces(a, target);
        if a.2 || a.0.len() <= target {
            assert(ordered(qq));
            assert(within(qq, a.1, atom_end(a)));
        } else {
            lemma_recursive_split_keeps_text(a.0, a.1, target);
            lemma_contiguous_ordered(qq, a.1);
        }
        let all = p + qq;
        assert forall|x: int, y: int| 0 <= x < y < all.len() implies end_of(#[trigger] all[x]) <= #[trigger] all[y].1 by {
            if y < p.len() {
                assert(all[x] == p[x]);
                assert(all[y] == p[y]);
            } else if x >= p.len() {
                assert(all[x] == qq[x - p.len()]);
                assert(all[y] == qq[y - p.len()]);
            } else {
                assert(all[x] == p[x]);
                assert(all[y] == qq[y - p.len()]);
            }
        }
        assert forall|q: int| 0 <= q < all.len() implies 0 <= #[trigger] all[q].1 && end_of(all[q]) <= atom_end(a) by {
            if q < p.len() {
                assert(all[q] == p[q]);
            } else {
                assert(all[q] == qq[q - p.len()]);
            }
        }
    }
}

/// The pieces of a long section text lie, in order, inside the text.
pub proof fn lemma_section_pieces_bounded(t: Seq<char>, c: ChunkingConfig)
    requires
        atoms_spec(t) is Some,
        c.target_chars > 0 || forall|k: int| 0 <= k < atoms_spec(t)->0.len() ==> (#[trigger] atoms_spec(t)->0[k]).2 || atoms_spec(t)->0[k].0.len() == 0,
    ensures
        within(section_pieces(t, c), 0, t.len() as int),
        ordered(merge_small_spec(
            size_pieces_spec(atoms_pieces(atoms_spec(t)->0, c.target_chars as int), c.target_chars as int),
            c.min_chars as int,
            c.max_chars as int,
        )),
{
    let lines = crate::text::split_on(t, '\n');
    let atoms = atoms_spec(t)->0;
    lemma_atoms_bounds(lines, 0);
    lemma_split_span(t);
    assert(lines.take(0) =~= Seq::<Seq<char>>::empty());
    assert(total_span(Seq::<Seq<char>>::empty()) == 0);
    let target = c.target_chars as int;
    lemma_atoms_pieces(atoms, target, t.len() as int);
    let p0 = atoms_pieces(atoms, target);
    let e0 = if atoms.len() > 0 { atom_end(atoms.last()) } else { 0 };
    if atoms.len() > 0 {
        assert(atom_end(atoms[atoms.len() - 1]) <= t.len());
    }
    lemma_within_last(p0, 0, e0);
    lemma_size_pieces_keeps_text(p0, target, 0);
    let p1 = size_pieces_spec(p0, target);
    let e1 = if p0.len() > 0 { end_of(p0.last()) } else { 0 };
    lemma_within_last(p1, 0, e1);
    lemma_merge_small(p1, c.min_chars as int, c.max_chars as int, 0);
    let p2 = merge_small_spec(p1, c.min_chars as int, c.max_chars as int);
    let e2 = if p1.len() > 0 { end_of(p1.last()) } else { 0 };
    lemma_overlap_within(p2, c.overlap_chars as int, c.max_chars as int, 0, e2);
}

/// `p` is the whole of one of the blocks `atoms` that may not be cut (a code block or a
/// table), at its place.
pub open spec fn whole_block(atoms: Seq<(Seq<char>, int, bool)>, p: (Seq<char>, int)) -> bool {
    exists|k: int| #![trigger atoms[k]] 0 <= k < atoms.len() && atoms[k].2 && atoms[k].0 == p.0 && atoms[k].1 == p.1
}

proof fn lemma_atoms_pieces_bound(atoms: Seq<(Seq<char>, int, bool)>, target: int)
    requires
        target >= 0,
        target > 0 || forall|k: int| 0 <= k < atoms.len() ==> (#[trigger] atoms[k]).2 || atoms[k].0.len() == 0,
    ensures
        forall|q: int|
            0 <= q < atoms_pieces(atoms, target).len() ==> (#[trigger] atoms_pieces(atoms, target)[q]).0.len() <= target
                || whole_block(atoms, atoms_pieces(atoms, target)[q]),
    decreases atoms.len(),
{
    if atoms.len() > 0 {
        let pre = atoms.drop_last();
        let a = atoms.last();
        assert(atoms[atoms.len() - 1] == a);
        if target <= 0 {
            assert forall|k: int| 0 <= k < pre.len() implies (#[trigger] pre[k]).2 || pre[k].0.len() == 0 by {
                assert(pre[k] == atoms[k]);
            }
        }
        lemma_atoms_pieces_bound(pre, target);
        let x = atoms_pieces(pre, target);
        let y = atom_pieces(a, target);
        if !(a.2 || a.0.len() <= target) {
            lemma_recursive_split_fits(a.0, a.1, target);
        }
        let r = atoms_pieces(atoms, target);
        assert(r == x + y);
        assert forall|q: int| 0 <= q < r.len() implies (#[trigger] r[q]).0.len() <= target || whole_block(atoms, r[q]) by {
            if q < x.len() {
                assert(r[q] == x[q]);
                if !(x[q].0.len() <= target) {
                    let k = choose|k: int| #![trigger pre[k]] 0 <= k < pre.len() && pre[k].2 && pre[k].0 == x[q].0 && pre[k].1 == x[q].1;
                    assert(atoms[k] == pre[k]);
                }
            } else {
                assert(r[q] == y[q - x.len()]);
            }
        }
    }
}

/// Law: of the pieces of a long section, only the whole of one block that may not be
/// cut (a code block or a table) is longer than `max_chars`; overlap never takes a piece
/// over it.
pub proof fn lemma_section_pieces_within_limit(t: Seq<char>, c: ChunkingConfig)
    requires
        atoms_spec(t) is Some,
        c.max_chars >= c.target_chars,
        c.target_chars > 0 || forall|k: int| 0 <= k < atoms_spec(t)->0.len() ==> (#[trigger] atoms_spec(t)->0[k]).2 || atoms_spec(t)->0[k].0.len() == 0,
    ensures
        forall|q: int|
            0 <= q < section_pieces(t, c).len() ==> (#[trigger] section_pieces(t, c)[q]).0.len() <= c.max_chars
                || whole_block(atoms_spec(t)->0, section_pieces(t, c)[q]),
{
    let atoms = atoms_spec(t)->0;
    let target = c.target_chars as int;
    let max = c.max_chars as int;
    lemma_atoms_pieces_bound(atoms, target);
    let p0 = atoms_pieces(atoms, target);
    lemma_size_pieces_bound(p0, target);
    let p1 = size_pieces_spec(p0, target);
    lemma_merge_small_bound(p1, c.min_chars as int, max);
    let p2 = merge_small_spec(p1, c.min_chars as int, max);
    lemma_overlap_respects_limit(p2, c.overlap_chars as int, max);
    let p3 = section_pieces(t, c);
    assert(p3 == apply_overlap_spec(p2, c.overlap_chars as int, max));
    assert forall|q: int| 0 <= q < p3.len() implies (#[trigger] p3[q]).0.len() <= max || whole_block(atoms, p3[q]) by {
        if !(p3[q].0.len() <= max) {
            assert(!(p2[q].0.len() <= max));
            assert(p3[q] == p2[q]);
            let j = choose|j: int| 0 <= j < p1.len() && #[trigger] p1[j] == p2[q];
            assert(!(p1[j].0.len() <= target));
            let i = choose|i: int| 0 <= i < p0.len() && #[trigger] p0[i] == p1[j];
            assert(!(p0[i].0.len() <= target));
        }
    }
}

/// The text `x` is the whole of a block that may not be cut in one of the sections `secs`.
pub open spec fn block_in_sections(secs: Seq<(Seq<char>, int, Seq<char>)>, x: Seq<char>) -> bool {
    exists|q: int, k: int|
        #![trigger secs[q], atoms_spec(secs[q].0)->0[k]]
        0 <= q < secs.len() && atoms_spec(secs[q].0) is Some && 0 <= k < atoms_spec(secs[q].0)->0.len()
            && atoms_spec(secs[q].0)->0[k].2 && atoms_spec(secs[q].0)->0[k].0 == x
}

/// A chunk is marked oversized exactly when it is longer than `max`, and then it is the
/// whole of a block that may not be cut.
pub open spec fn chunk_within_limit(
    secs: Seq<(Seq<char>, int, Seq<char>)>,
    max: int,
    part: (Seq<char>, Seq<char>, int, int, bool),
) -> bool {
    &&& part.4 <==> part.0.len() > max
    &&& part.4 ==> block_in_sections(secs, part.0)
}

proof fn lemma_all_section_chunks_limit(secs: Seq<(Seq<char>, int, Seq<char>)>, c: ChunkingConfig)
    requires
        c.max_chars >= c.target_chars,
        forall|q: int|
            0 <= q < secs.len() ==> {
                let t = (#[trigger] secs[q]).0;
                t.len() > c.target_chars ==> {
                    &&& atoms_spec(t) is Some
                    &&& c.target_chars == 0 ==> forall|k: int|
                        0 <= k < atoms_spec(t)->0.len() ==> (#[trigger] atoms_spec(t)->0[k]).2 || atoms_spec(t)->0[k].0.len() == 0
                }
            },
    ensures
        forall|i: int|
            0 <= i < all_section_chunks(secs, c).len() ==> chunk_within_limit(secs, c.max_chars as int, #[trigger] all_section_chunks(secs, c)[i]),
    decreases secs.len(),
{
    if secs.len() > 0 {
        let pre = secs.drop_last();
        let sec = secs.last();
        assert(secs[secs.len() - 1] == sec);
        assert forall|q: int| 0 <= q < pre.len() implies {
            let t = (#[trigger] pre[q]).0;
            t.len() > c.target_chars ==> {
                &&& atoms_spec(t) is Some
                &&& c.target_chars == 0 ==> forall|k: int|
                    0 <= k < atoms_spec(t)->0.len() ==> (#[trigger] atoms_spec(t)->0[k]).2 || atoms_spec(t)->0[k].0.len() == 0
            }
        } by {
            assert(pre[q] == secs[q]);
        }
        lemma_all_section_chunks_limit(pre, c);
        let a = all_section_chunks(pre, c);
        let b = section_chunks(sec, c);
        let r = all_section_chunks(secs, c);
        assert(r == a + b);
        if sec.0.len() > c.target_chars {
            lemma_section_pieces_within_limit(sec.0, c);
        }
        assert forall|i: int| 0 <= i < r.len() implies chunk_within_limit(secs, c.max_chars as int, #[trigger] r[i]) by {
            if i < a.len() {
                assert(r[i] == a[i]);
                assert(chunk_within_limit(pre, c.max_chars as int, a[i]));
                if a[i].4 {
                    let (q, k) = choose|q: int, k: int|
                        #![trigger pre[q], atoms_spec(pre[q].0)->0[k]]
                        0 <= q < pre.len() && atoms_spec(pre[q].0) is Some && 0 <= k < atoms_spec(pre[q].0)->0.len()
                            && atoms_spec(pre[q].0)->0[k].2 && atoms_spec(pre[q].0)->0[k].0 == a[i].0;
                    assert(pre[q] == secs[q]);
                    assert(atoms_spec(secs[q].0)->0[k].0 == a[i].0);
                }
            } else {
                let j = i - a.len();
                assert(r[i] == b[j]);
                if sec.0.len() > c.target_chars {
                    let ps = section_pieces(sec.0, c);
                    assert(b[j] == (ps[j].0, sec.2, sec.1 + ps[j].1, sec.1 + ps[j].1 + ps[j].0.len(), ps[j].0.len() > c.max_chars));
                    if ps[j].0.len() > c.max_chars {
                        let atoms = atoms_spec(sec.0)->0;
                        let k = choose|k: int| #![trigger atoms[k]] 0 <= k < atoms.len() && atoms[k].2 && atoms[k].0 == ps[j].0 && atoms[k].1 == ps[j].1;
                        assert(atoms_spec(secs[secs.len() - 1].0)->0[k].0 == b[j].0);
                    }
                }
            }
        }
    }
}

/// Law: `max_chars` (in force, see `effective`) is a hard limit for text that can be cut:
/// a chunk is marked oversized exactly when it is longer than the limit, and an oversized
/// chunk is the whole of one block that may not be cut, a code block or a table.
pub proof fn lemma_chunks_within_limit(content: Seq<char>, c: ChunkingConfig, model: Option<Seq<char>>)
    requires
        chunkable(content, effective(c)),
    ensures
        forall|i: int|
            0 <= i < chunks_spec(content, c, model).len() ==> {
                &&& (#[trigger] chunks_spec(content, c, model)[i]).5 <==> chunks_spec(content, c, model)[i].1.len()
                    > effective(c).max_chars
                &&& chunks_spec(content, c, model)[i].5 ==> block_in_sections(
                    body_sections(content),
                    chunks_spec(content, c, model)[i].1,
                )
            },
{
    let secs = body_sections(content);
    let e = effective(c);
    assert forall|q: int| 0 <= q < secs.len() implies {
        let t = (#[trigger] secs[q]).0;
        t.len() > e.target_chars ==> {
            &&& atoms_spec(t) is Some
            &&& e.target_chars == 0 ==> forall|k: int|
                0 <= k < atoms_spec(t)->0.len() ==> (#[trigger] atoms_spec(t)->0[k]).2 || atoms_spec(t)->0[k].0.len() == 0
        }
    } by {
        assert(chunkable(content, e));
    }
    lemma_all_section_chunks_limit(secs, e);
    let parts = all_section_chunks(secs, e);
    assert forall|i: int| 0 <= i < chunks_spec(content, c, model).len() implies {
        &&& (#[trigger] chunks_spec(content, c, model)[i]).5 <==> chunks_spec(content, c, model)[i].1.len() > e.max_chars
        &&& chunks_spec(content, c, model)[i].5 ==> block_in_sections(secs, chunks_spec(content, c, model)[i].1)
    } by {
        assert(chunk_within_limit(secs, e.max_chars as int, parts[i]));
    }
}

/// The body after front matter ends where the document ends.
pub proof fn lemma_body_bounds(content: Seq<char>)
    ensures
        strip_frontmatter_spec(content).1 >= 0,
        strip_frontmatter_spec(content).1 + strip_frontmatter_spec(content).0.len() == content.len(),
{
    if has_at_any_open(content) {
        let rest = content.subrange(4, content.len() as int);
        crate::markdown::lemma_fm_close_from(rest, 0);
    }
}

pub open spec fn has_at_any_open(content: Seq<char>) -> bool {
    crate::text::has_at(content, 0, seq!['-', '-', '-', '\n']) || crate::text::has_at(content, 0, seq!['-', '-', '-', '\r', '\n'])
}

/// The pieces of the blocks of a section (see `atoms_pieces`).
pub fn split_atoms_to_pieces(atoms: &Vec<Atom>, target: usize) -> (r: Vec<Piece>)
    requires
        forall|q: int| 0 <= q < atoms.len() ==> #[trigger] atoms@[q].offset + atoms@[q].text.len() <= usize::MAX,
        target > 0 || forall|k: int| 0 <= k < atoms.len() ==> (#[trigger] atoms@[k]).indivisible || atoms@[k].text.len() == 0,
    ensures
        pieces_view(r@) == atoms_pieces(atoms_view(atoms@), target as int),
{
    let ghost av = atoms_view(atoms@);
    let mut out: Vec<Piece> = Vec::new();
    let mut i: usize = 0;
    proof {
        assert(av.take(0) =~= Seq::<(Seq<char>, int, bool)>::empty());
        assert(pieces_view(out@) =~= Seq::<(Seq<char>, int)>::empty());
    }
    while i < atoms.len()
        invariant
            i <= atoms.len(),
            av == atoms_view(atoms@),
            forall|q: int| 0 <= q < atoms.len() ==> #[trigger] atoms@[q].offset + atoms@[q].text.len() <= usize::MAX,
            target > 0 || forall|k: int| 0 <= k < atoms.len() ==> (#[trigger] atoms@[k]).indivisible || atoms@[k].text.len() == 0,
            pieces_view(out@) == atoms_pieces(av.take(i as int), target as int),
        decreases atoms.len() - i,
    {
        let a = &atoms[i];
        proof {
            assert(av.take(i + 1).drop_last() =~= av.take(i as int));
            assert(av.take(i + 1).last() == av[i as int]);
            assert(av[i as int] == atom_view(*a));
        }
        let ghost before = pieces_view(out@);
        if a.indivisible || a.text.len() <= target {
            out.push(Piece { text: copy_of(&a.text), offset: a.offset });
            proof {
                assert(pieces_view(out@) =~= before + seq![(a.text@, a.offset as int)]);
            }
        } else {
            let ps = recursive_split(&a.text, a.offset, target);
            let mut k: usize = 0;
            while k < ps.len()
                invariant
                    k <= ps.len(),
                    pieces_view(out@) == before + pieces_view(ps@).take(k as int),
                decreases ps.len() - k,
            {
                let ghost mid = pieces_view(out@);
                out.push(Piece { text: copy_of(&ps[k].text), offset: ps[k].offset });
                proof {
                    assert(pieces_view(ps@)[k as int] == piece_view(ps@[k as int]));
                    assert(pieces_view(out@) =~= mid.push(pieces_view(ps@)[k as int]));
                    assert(pieces_view(ps@).take(k + 1) =~= pieces_view(ps@).take(k as int).push(pieces_view(ps@)[k as int]));
                    assert(pieces_view(out@) =~= before + pieces_view(ps@).take(k + 1));
                }
                k = k + 1;
            }
            proof {
                assert(pieces_view(ps@).take(ps.len() as int) =~= pieces_view(ps@));
                assert(pieces_view(out@) == before + atom_pieces(av[i as int], target as int));
            }
        }
        i = i + 1;
    }
    proof {
        assert(av.take(atoms.len() as int) =~= av);
    }
    out
}

pub open spec fn chunk_part(c: Chunk) -> (Seq<char>, Seq<char>, int, int, bool) {
    (c.text@, c.heading_path@, c.char_start as int, c.char_end as int, c.oversized)
}

pub open spec fn chunk_tokens(c: Chunk) -> (Option<Seq<u32>>, Option<u32>) {
    (
        match c.token_ids {
            Some(v) => Some(v@),
            None => None,
        },
        c.token_count,
    )
}

/// Whether the chunker can cut `content` with configuration `config` (see
/// `chunkable`): every section longer than the target has blocks that can be told
/// apart, and with a target of zero each of them is one that may not be cut, or empty.
pub fn is_chunkable(content: &str, config: ChunkingConfig) -> (r: bool)
    requires
        content@.len() < usize::MAX,
    ensures
        r == chunkable(content@, effective(config)),
{
    let mut c = config;
    if c.max_chars < c.target_chars {
        c.max_chars = c.target_chars;
    }
    if c.overlap_chars >= c.target_chars {
        c.overlap_chars = c.target_chars / 2;
    }
    proof {
        assert(c == effective(config));
    }
    let chars = chars_of(content);
    let (body, body_offset) = strip_frontmatter_chars(&chars);
    proof {
        lemma_body_bounds(content@);
    }
    if all_ws_exec(&body) {
        return true;
    }
    let sections = split_into_sections(&body, body_offset);
    let ghost secs = sections_view(sections@);
    proof {
        lemma_sections_bounded(body@, body_offset as int);
        assert(secs == body_sections(content@));
    }
    let mut s: usize = 0;
    while s < sections.len()
        invariant
            s <= sections.len(),
            secs == sections_view(sections@),
            secs == body_sections(content@),
            c == effective(config),
            body_offset + body@.len() == content@.len(),
            content@.len() < usize::MAX,
            forall|q: int| 0 <= q < secs.len() ==> body_offset <= #[trigger] secs[q].1
                && secs[q].1 + secs[q].0.len() <= body_offset + body@.len(),
            forall|q: int|
                0 <= q < s ==> {
                    let t = (#[trigger] secs[q]).0;
                    t.len() > c.target_chars ==> {
                        &&& atoms_spec(t) is Some
                        &&& c.target_chars == 0 ==> forall|k: int|
                            0 <= k < atoms_spec(t)->0.len() ==> (#[trigger] atoms_spec(t)->0[k]).2 || atoms_spec(t)->0[k].0.len() == 0
                    }
                },
        decreases sections.len() - s,
    {
        let t = &sections[s].text;
        proof {
            assert(secs[s as int] == section_view(sections@[s as int]));
            assert(secs[s as int].0 == t@);
        }
        if t.len() > c.target_chars {
            if !atoms_defined(t) {
                return false;
            }
            if c.target_chars == 0 {
                proof {
                    assert(body_offset <= secs[s as int].1);
                    assert(t@.len() < usize::MAX);
                }
                let atoms = tokenize_atoms(t);
                let mut k: usize = 0;
                while k < atoms.len()
                    invariant
                        k <= atoms.len(),
                        atoms_view(atoms@) == atoms_spec(t@)->0,
                        secs == body_sections(content@),
                        s < secs.len(),
                        secs[s as int].0 == t@,
                        t@.len() > c.target_chars,
                        c.target_chars == 0,
                        c == effective(config),
                        forall|m: int| 0 <= m < k ==> (#[trigger] atoms_spec(t@)->0[m]).2 || atoms_spec(t@)->0[m].0.len() == 0,
                    decreases atoms.len() - k,
                {
                    proof {
                        assert(atoms_spec(t@)->0[k as int] == atom_view(atoms@[k as int]));
                    }
                    if !atoms[k].indivisible && atoms[k].text.len() > 0 {
                        proof {
                            let tt = secs[s as int].0;
                            assert(!((atoms_spec(tt)->0[k as int]).2 || atoms_spec(tt)->0[k as int].0.len() == 0));
                            assert(body_sections(content@)[s as int] == secs[s as int]);
                        }
                        return false;
                    }
                    k = k + 1;
                }
            }
        }
        s = s + 1;
    }
    true
}

impl ChunkingService {
    /// Sets the token ids and count of a chunk when a tokenizer is set; an error where the
    /// tokenizer cannot split the chunk's text.
    pub fn compute_tokens(&self, chunk: &mut Chunk) -> (r: Result<(), String>)
        ensures
            chunk_part(*final(chunk)) == chunk_part(*old(chunk)),
            final(chunk).index == old(chunk).index,
            r is Err <==> tokens_fail(self.token_model(), old(chunk).text@),
            r is Ok && self.token_model() is None ==> chunk_tokens(*final(chunk)) == chunk_tokens(*old(chunk)),
            r is Ok && self.token_model() is Some ==> chunk_tokens(*final(chunk)) == tokens_of(
                self.token_model(),
                old(chunk).text@,
            ),
    {
        match &self.tokenizer {
            Some(t) => {
                let tokens = match t.encode(chunk.text.as_str()) {
                    Ok(v) => v,
                    Err(e) => {
                        return Err(e);
                    },
                };
                let n = tokens.len();
                chunk.token_count = Some(n as u32);
                chunk.token_ids = Some(tokens);
                Ok(())
            },
            None => Ok(()),
        }
    }

    fn chunk_section(&self, section: &Section, config: &ChunkingConfig) -> (r: Result<Vec<Chunk>, String>)
        requires
            section.body_start + section.text.len() < usize::MAX,
            section.text.len() > config.target_chars ==> {
                &&& atoms_spec(section.text@) is Some
                &&& config.target_chars == 0 ==> forall|k: int|
                    0 <= k < atoms_spec(section.text@)->0.len() ==> (#[trigger] atoms_spec(section.text@)->0[k]).2
                        || atoms_spec(section.text@)->0[k].0.len() == 0
            },
        ensures
            r is Err <==> exists|j: int|
                0 <= j < section_chunks(section_view(*section), *config).len() && #[trigger] tokens_fail(
                    self.token_model(),
                    section_chunks(section_view(*section), *config)[j].0,
                ),
            r matches Ok(v) ==> v.len() == section_chunks(section_view(*section), *config).len(),
            r matches Ok(v) ==> forall|j: int|
                0 <= j < v.len() ==> chunk_part(#[trigger] v@[j]) == section_chunks(section_view(*section), *config)[j]
                    && chunk_tokens(v@[j]) == tokens_of(self.token_model(), v@[j].text@),
    {
        let ghost want = section_chunks(section_view(*section), *config);
        let text = &section.text;
        let body_start = section.body_start;
        if text.len() <= config.target_chars {
            let mut chunk = Chunk {
                index: 0,
                text: string_of(text),
                heading_path: string_of(&section.heading_path),
                char_start: body_start,
                char_end: body_start + text.len(),
                oversized: false,
                token_ids: None,
                token_count: None,
            };
            match self.compute_tokens(&mut chunk) {
                Ok(()) => {},
                Err(e) => {
                    proof {
                        assert(tokens_fail(self.token_model(), want[0].0));
                    }
                    return Err(e);
                },
            }
            let mut v: Vec<Chunk> = Vec::new();
            v.push(chunk);
            proof {
                assert forall|j: int| 0 <= j < want.len() implies !#[trigger] tokens_fail(self.token_model(), want[j].0) by {
                    assert(j == 0);
                }
            }
            return Ok(v);
        }
        let atoms = tokenize_atoms(text);
        proof {
            lemma_section_pieces_bounded(text@, *config);
            lemma_atoms_bounds(crate::text::split_on(text@, '\n'), 0);
            lemma_split_span(text@);
            assert forall|q: int| 0 <= q < atoms.len() implies #[trigger] atoms@[q].offset + atoms@[q].text.len() <= usize::MAX by {
                assert(atoms_view(atoms@)[q] == atom_view(atoms@[q]));
            }
            assert(config.target_chars > 0 || forall|k: int| 0 <= k < atoms.len() ==> (#[trigger] atoms@[k]).indivisible || atoms@[k].text.len() == 0) by {
                if config.target_chars == 0 {
                    assert forall|k: int| 0 <= k < atoms.len() implies (#[trigger] atoms@[k]).indivisible || atoms@[k].text.len() == 0 by {
                        assert(atoms_view(atoms@)[k] == atom_view(atoms@[k]));
                    }
                }
            }
        }
        let pieces = split_atoms_to_pieces(&atoms, config.target_chars);
        let sized = size_pieces(&pieces, config.target_chars);
        let merged = merge_small(&sized, config.min_chars, config.max_chars);
        proof {
            let mv = pieces_view(merged@);
            assert(atoms_view(atoms@) == atoms_spec(text@)->0);
            assert(ordered(mv));
            assert forall|a: int, b: int| 0 <= a < b < merged.len() implies #[trigger] merged@[a].offset + merged@[a].text.len() <= #[trigger] merged@[b].offset by {
                assert(mv[a] == piece_view(merged@[a]));
                assert(mv[b] == piece_view(merged@[b]));
                assert(end_of(mv[a]) <= mv[b].1);
            }
        }
        let with_overlap = apply_overlap(&merged, config.overlap_chars, config.max_chars);
        let ghost pv = pieces_view(with_overlap@);
        proof {
            assert(pv == section_pieces(text@, *config));
        }
        let mut chunks: Vec<Chunk> = Vec::new();
        let mut k: usize = 0;
        while k < with_overlap.len()
            invariant
                k <= with_overlap.len(),
                pv == pieces_view(with_overlap@),
                within(pv, 0, text.len() as int),
                body_start + text.len() < usize::MAX,
                section.text.len() > config.target_chars,
                text@ == section.text@,
                body_start == section.body_start,
                want == section_chunks(section_view(*section), *config),
                want == pv.map_values(
                    |p: (Seq<char>, int)| (p.0, section.heading_path@, section.body_start + p.1, section.body_start + p.1 + p.0.len(), p.0.len() > config.max_chars),
                ),
                chunks.len() == k,
                want.len() == with_overlap.len(),
                forall|j: int| 0 <= j < k ==> chunk_part(#[trigger] chunks@[j]) == want[j]
                    && chunk_tokens(chunks@[j]) == tokens_of(self.token_model(), chunks@[j].text@),
                forall|j: int| 0 <= j < k ==> !#[trigger] tokens_fail(self.token_model(), want[j].0),
            decreases with_overlap.len() - k,
        {
            let piece = &with_overlap[k];
            proof {
                assert(pv[k as int] == piece_view(*piece));
                assert(0 <= pv[k as int].1 && end_of(pv[k as int]) <= text.len());
            }
            let mut chunk = Chunk {
                index: 0,
                text: string_of(&piece.text),
                heading_path: string_of(&section.heading_path),
                char_start: body_start + piece.offset,
                char_end: body_start + piece.offset + piece.text.len(),
                oversized: piece.text.len() > config.max_chars,
                token_ids: None,
                token_count: None,
            };
            match self.compute_tokens(&mut chunk) {
                Ok(()) => {},
                Err(e) => {
                    proof {
                        assert(tokens_fail(self.token_model(), want[k as int].0));
                    }
                    return Err(e);
                },
            }
            let ghost before = chunks@;
            chunks.push(chunk);
            proof {
                assert forall|j: int| 0 <= j < k + 1 implies chunk_part(#[trigger] chunks@[j]) == want[j]
                    && chunk_tokens(chunks@[j]) == tokens_of(self.token_model(), chunks@[j].text@) by {
                    if j < k {
                        assert(chunks@[j] == before[j]);
                    }
                }
            }
            k = k + 1;
        }
        Ok(chunks)
    }
}

pub open spec fn chunk_tuple(i: int, p: (Seq<char>, Seq<char>, int, int, bool), model: Option<Seq<char>>) -> (int, Seq<char>, Seq<char>, int, int, bool, Option<Seq<u32>>, Option<u32>) {
    let t = tokens_of(model, p.0);
    (i, p.0, p.1, p.2, p.3, p.4, t.0, t.1)
}

impl ChunkingService {
    /// Cuts a markdown document into chunks (see `chunks_spec`).
    pub fn chunk_markdown(&self, content: &str) -> (r: Result<Vec<Chunk>, String>)
        requires
            content@.len() < usize::MAX,
            chunkable(content@, effective(self.config())),
        ensures
            r is Err <==> sections_fail(body_sections(content@), effective(self.config()), self.token_model()),
            r matches Ok(v) ==> chunks_view(v@) == chunks_spec(content@, self.config(), self.token_model()),
    {
        let mut config = self.config;
        if config.max_chars < config.target_chars {
            config.max_chars = config.target_chars;
        }
        if config.overlap_chars >= config.target_chars {
            config.overlap_chars = config.target_chars / 2;
        }
        proof {
            assert(config == effective(self.config()));
        }
        let ghost model = self.token_model();
        let ghost want = chunks_spec(content@, self.config(), model);
        let chars = chars_of(content);
        let (body, body_offset) = strip_frontmatter_chars(&chars);
        proof {
            lemma_body_bounds(content@);
        }
        if all_ws_exec(&body) {
            proof {
                assert(want =~= Seq::<(int, Seq<char>, Seq<char>, int, int, bool, Option<Seq<u32>>, Option<u32>)>::empty());
            }
            let v: Vec<Chunk> = Vec::new();
            proof {
                assert(chunks_view(v@) =~= want);
                assert(body_sections(content@) =~= Seq::<(Seq<char>, int, Seq<char>)>::empty());
            }
            return Ok(v);
        }
        let sections = split_into_sections(&body, body_offset);
        let ghost secs = sections_view(sections@);
        proof {
            lemma_sections_bounded(body@, body_offset as int);
            assert(secs == body_sections(content@));
            assert(secs.take(0) =~= Seq::<(Seq<char>, int, Seq<char>)>::empty());
        }
        let mut chunks: Vec<Chunk> = Vec::new();
        let mut s: usize = 0;
        while s < sections.len()
            invariant
                s <= sections.len(),
                secs == sections_view(sections@),
                secs == body_sections(content@),
                config == effective(self.config()),
                model == self.token_model(),
                content@.len() < usize::MAX,
                body_offset + body@.len() == content@.len(),
                chunkable(content@, config),
                forall|q: int| 0 <= q < secs.len() ==> body_offset <= #[trigger] secs[q].1
                    && secs[q].1 + secs[q].0.len() <= body_offset + body@.len(),
                chunks.len() == all_section_chunks(secs.take(s as int), config).len(),
                forall|q: int, j: int|
                    0 <= q < s && 0 <= j < section_chunks(secs[q], config).len() ==> !#[trigger] tokens_fail(
                        model,
                        section_chunks(secs[q], config)[j].0,
                    ),
                forall|j: int| 0 <= j < chunks.len() ==> #[trigger] chunk_view(chunks@[j]) == chunk_tuple(
                    j,
                    all_section_chunks(secs.take(s as int), config)[j],
                    model,
                ),
            decreases sections.len() - s,
        {
            let section = &sections[s];
            proof {
                assert(secs[s as int] == section_view(*section));
                assert(secs.take(s + 1).drop_last() =~= secs.take(s as int));
                assert(secs.take(s + 1).last() == secs[s as int]);
                assert(body_offset <= secs[s as int].1 && secs[s as int].1 + secs[s as int].0.len() <= body_offset + body@.len());
                let t = (body_sections(content@)[s as int]).0;
                assert(t == section.text@);
            }
            let part = match self.chunk_section(section, &config) {
                Ok(v) => v,
                Err(e) => {
                    proof {
                        let j = choose|j: int|
                            0 <= j < section_chunks(secs[s as int], config).len() && #[trigger] tokens_fail(
                                model,
                                section_chunks(secs[s as int], config)[j].0,
                            );
                        assert(sections_fail(body_sections(content@), effective(self.config()), self.token_model()));
                    }
                    return Err(e);
                },
            };
            let ghost pre = all_section_chunks(secs.take(s as int), config);
            let ghost now = all_section_chunks(secs.take(s + 1), config);
            let mut k: usize = 0;
            while k < part.len()
                invariant
                    k <= part.len(),
                    part.len() == section_chunks(secs[s as int], config).len(),
                    forall|j: int| 0 <= j < part.len() ==> chunk_part(#[trigger] part@[j]) == section_chunks(secs[s as int], config)[j]
                        && chunk_tokens(part@[j]) == tokens_of(model, part@[j].text@),
                    now == pre + section_chunks(secs[s as int], config),
                    chunks.len() == pre.len() + k,
                    forall|q: int, j: int|
                        0 <= q < s && 0 <= j < section_chunks(secs[q], config).len() ==> !#[trigger] tokens_fail(
                            model,
                            section_chunks(secs[q], config)[j].0,
                        ),
                    forall|j: int| 0 <= j < part.len() ==> !#[trigger] tokens_fail(model, section_chunks(secs[s as int], config)[j].0),
                    forall|j: int| 0 <= j < chunks.len() ==> #[trigger] chunk_view(chunks@[j]) == chunk_tuple(j, now[j], model),
                decreases part.len() - k,
            {
                let c = &part[k];
                let chunk = Chunk {
                    index: chunks.len(),
                    text: c.text.clone(),
                    heading_path: c.heading_path.clone(),
                    char_start: c.char_start,
                    char_end: c.char_end,
                    oversized: c.oversized,
                    token_ids: match &c.token_ids {
                        Some(v) => Some(v.clone()),
                        None => None,
                    },
                    token_count: c.token_count,
                };
                let ghost before = chunks@;
                chunks.push(chunk);
                proof {
                    assert(now[pre.len() + k] == section_chunks(secs[s as int], config)[k as int]);
                    assert forall|j: int| 0 <= j < chunks.len() implies #[trigger] chunk_view(chunks@[j]) == chunk_tuple(j, now[j], model) by {
                        if j < chunks.len() - 1 {
                            assert(chunks@[j] == before[j]);
                        }
                    }
                }
                k = k + 1;
            }
            s = s + 1;
        }
        proof {
            assert(secs.take(sections.len() as int) =~= secs);
            assert(chunks_view(chunks@) =~= want);
            assert(!sections_fail(body_sections(content@), effective(self.config()), self.token_model()));
        }
        Ok(chunks)
    }
}

} // verus!
