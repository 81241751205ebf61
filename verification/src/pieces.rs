use vstd::prelude::*;

use crate::text::{append_chars, is_ws, is_ws_exec, slice_range};

verus! {

/// A run of text cut from a section, with its character offset in the section.
pub struct Piece {
    pub text: Vec<char>,
    pub offset: usize,
}

pub open spec fn piece_view(p: Piece) -> (Seq<char>, int) {
    (p.text@, p.offset as int)
}

pub open spec fn pieces_view(ps: Seq<Piece>) -> Seq<(Seq<char>, int)> {
    ps.map_values(|p: Piece| piece_view(p))
}

/// The separators by which long text is cut, finest last.
#[derive(Clone, Copy, PartialEq, Eq)]
pub enum SepKind {
    /// Two or more line breaks in a row.
    Paragraphs,
    /// One or more line breaks in a row.
    Lines,
    /// Sentence-ending punctuation and the white space after it.
    Sentences,
    /// White space.
    Spaces,
}

/// Punctuation that ends a sentence in running text, Latin or CJK.
pub open spec fn is_stop(c: char) -> bool {
    c == '。' || c == '！' || c == '？' || c == '!' || c == '?' || c == '；' || c == ';'
}

pub fn is_stop_exec(c: char) -> (r: bool)
    ensures
        r == is_stop(c),
{
    c == '。' || c == '！' || c == '？' || c == '!' || c == '?' || c == '；' || c == ';'
}

/// The number of characters from `s` on that satisfy `p`, before one that does not.
pub open spec fn run_while(t: Seq<char>, s: int, p: spec_fn(char) -> bool) -> nat
    decreases t.len() - s,
{
    if 0 <= s < t.len() && p(t[s]) {
        1 + run_while(t, s + 1, p)
    } else {
        0
    }
}

pub open spec fn nl_p() -> spec_fn(char) -> bool {
    |c: char| c == '\n'
}

pub open spec fn ws_p() -> spec_fn(char) -> bool {
    |c: char| is_ws(c)
}

pub open spec fn stop_p() -> spec_fn(char) -> bool {
    |c: char| is_stop(c)
}

pub proof fn lemma_run_bounds(t: Seq<char>, s: int, p: spec_fn(char) -> bool)
    requires
        0 <= s <= t.len(),
    ensures
        s + run_while(t, s, p) <= t.len(),
        forall|k: int| s <= k < s + run_while(t, s, p) ==> p(#[trigger] t[k]),
        s + run_while(t, s, p) < t.len() ==> !p(t[s + run_while(t, s, p)]),
    decreases t.len() - s,
{
    if s < t.len() && p(t[s]) {
        lemma_run_bounds(t, s + 1, p);
    }
}

/// Where a match of the separator starting at `s` ends, if one starts there.
pub open spec fn match_at(t: Seq<char>, k: SepKind, s: int) -> Option<int> {
    if s < 0 || s >= t.len() {
        None
    } else {
        match k {
            SepKind::Paragraphs => if run_while(t, s, nl_p()) >= 2 {
                Some(s + run_while(t, s, nl_p()))
            } else {
                None
            },
            SepKind::Lines => if t[s] == '\n' {
                Some(s + run_while(t, s, nl_p()))
            } else {
                None
            },
            SepKind::Spaces => if is_ws(t[s]) {
                Some(s + run_while(t, s, ws_p()))
            } else {
                None
            },
            SepKind::Sentences => if is_stop(t[s]) {
                let e = s + run_while(t, s, stop_p());
                Some(e + run_while(t, e, ws_p()))
            } else if t[s] == '.' && s + 1 < t.len() && is_ws(t[s + 1]) {
                Some(s + 1 + run_while(t, s + 1, ws_p()))
            } else {
                None
            },
        }
    }
}

/// The pieces of `t` from `last` on, searching for separators from `s` on: each piece
/// runs up to the end of a separator match, and the rest after the last match is a
/// piece of its own when it is not empty.
pub open spec fn split_keep_from(t: Seq<char>, k: SepKind, last: int, s: int) -> Seq<Seq<char>>
    decreases t.len() - s,
{
    if s >= t.len() {
        if last < t.len() {
            seq![t.subrange(last, t.len() as int)]
        } else {
            Seq::empty()
        }
    } else {
        match match_at(t, k, s) {
            Some(e) => if s < e <= t.len() {
                seq![t.subrange(last, e)] + split_keep_from(t, k, e, e)
            } else {
                split_keep_from(t, k, last, s + 1)
            },
            None => split_keep_from(t, k, last, s + 1),
        }
    }
}

/// `t` cut after each match of the separator, the separators kept with the text before them.
pub open spec fn split_keep(t: Seq<char>, k: SepKind) -> Seq<Seq<char>> {
    split_keep_from(t, k, 0, 0)
}

/// The texts of `parts`, one after the other.
pub open spec fn concat(parts: Seq<Seq<char>>) -> Seq<char>
    decreases parts.len(),
{
    if parts.len() == 0 {
        Seq::empty()
    } else {
        concat(parts.drop_last()) + parts.last()
    }
}

pub proof fn lemma_concat_push(parts: Seq<Seq<char>>, x: Seq<char>)
    ensures
        concat(parts.push(x)) == concat(parts) + x,
{
    assert(parts.push(x).drop_last() =~= parts);
}

pub proof fn lemma_concat_single(x: Seq<char>)
    ensures
        concat(seq![x]) == x,
{
    assert(seq![x].drop_last() =~= Seq::<Seq<char>>::empty());
    assert(concat(Seq::<Seq<char>>::empty()) == Seq::<char>::empty());
    assert(Seq::<char>::empty() + x =~= x);
}

pub proof fn lemma_concat_append(a: Seq<Seq<char>>, b: Seq<Seq<char>>)
    ensures
        concat(a + b) == concat(a) + concat(b),
    decreases b.len(),
{
    if b.len() == 0 {
        assert(a + b =~= a);
        assert(concat(a) + concat(b) =~= concat(a));
    } else {
        lemma_concat_append(a, b.drop_last());
        assert((a + b).drop_last() =~= a + b.drop_last());
        assert(concat(a) + concat(b.drop_last()) + b.last() =~= concat(a) + (concat(b.drop_last()) + b.last()));
    }
}

pub proof fn lemma_match_at(t: Seq<char>, k: SepKind, s: int)
    ensures
        match match_at(t, k, s) {
            Some(e) => s < e <= t.len(),
            None => true,
        },
{
    if 0 <= s < t.len() {
        lemma_run_bounds(t, s, nl_p());
        lemma_run_bounds(t, s, ws_p());
        lemma_run_bounds(t, s, stop_p());
        let e = s + run_while(t, s, stop_p());
        lemma_run_bounds(t, e, ws_p());
        if s + 1 < t.len() {
            lemma_run_bounds(t, s + 1, ws_p());
        }
    }
}

/// The pieces of `split_keep_from`, put back together, give the text from `last` on.
pub proof fn lemma_split_keep_concat(t: Seq<char>, k: SepKind, last: int, s: int)
    requires
        0 <= last <= s <= t.len(),
    ensures
        concat(split_keep_from(t, k, last, s)) == t.subrange(last, t.len() as int),
        forall|q: int| 0 <= q < split_keep_from(t, k, last, s).len() ==> #[trigger] split_keep_from(t, k, last, s)[q].len() > 0,
    decreases t.len() - s,
{
    if s >= t.len() {
        if last < t.len() {
            lemma_concat_single(t.subrange(last, t.len() as int));
        } else {
            assert(t.subrange(last, t.len() as int) =~= Seq::<char>::empty());
        }
    } else {
        lemma_match_at(t, k, s);
        match match_at(t, k, s) {
            Some(e) => {
                if e > s {
                    lemma_split_keep_concat(t, k, e, e);
                    let rest = split_keep_from(t, k, e, e);
                    lemma_concat_append(seq![t.subrange(last, e)], rest);
                    lemma_concat_single(t.subrange(last, e));
                    assert(t.subrange(last, e) + t.subrange(e, t.len() as int) =~= t.subrange(last, t.len() as int));
                    let all = seq![t.subrange(last, e)] + rest;
                    assert forall|q: int| 0 <= q < all.len() implies #[trigger] all[q].len() > 0 by {
                        if q > 0 {
                            assert(all[q] == rest[q - 1]);
                            assert(split_keep_from(t, k, e, e)[q - 1].len() > 0);
                        } else {
                            assert(all[0] == t.subrange(last, e));
                        }
                    }
                } else {
                    lemma_split_keep_concat(t, k, last, s + 1);
                }
            },
            None => {
                lemma_split_keep_concat(t, k, last, s + 1);
            },
        }
    }
}

fn run_exec(t: &Vec<char>, s: usize, k: u8) -> (r: usize)
    requires
        s <= t.len(),
        k <= 2,
    ensures
        k == 0 ==> r == run_while(t@, s as int, nl_p()),
        k == 1 ==> r == run_while(t@, s as int, ws_p()),
        k == 2 ==> r == run_while(t@, s as int, stop_p()),
        s + r <= t.len(),
{
    let mut j = s;
    while j < t.len() && char_ok(t[j], k)
        invariant
            s <= j <= t.len(),
            k <= 2,
            k == 0 ==> run_while(t@, s as int, nl_p()) == (j - s) + run_while(t@, j as int, nl_p()),
            k == 1 ==> run_while(t@, s as int, ws_p()) == (j - s) + run_while(t@, j as int, ws_p()),
            k == 2 ==> run_while(t@, s as int, stop_p()) == (j - s) + run_while(t@, j as int, stop_p()),
        decreases t.len() - j,
    {
        j = j + 1;
    }
    j - s
}

fn char_ok(c: char, k: u8) -> (r: bool)
    ensures
        k == 0 ==> r == nl_p()(c),
        k == 1 ==> r == ws_p()(c),
        k == 2 ==> r == stop_p()(c),
{
    if k == 0 {
        c == '\n'
    } else if k == 1 {
        is_ws_exec(c)
    } else {
        is_stop_exec(c)
    }
}

pub fn match_at_exec(t: &Vec<char>, k: SepKind, s: usize) -> (r: Option<usize>)
    requires
        s < t.len(),
    ensures
        match r {
            Some(e) => match_at(t@, k, s as int) == Some(e as int),
            None => match_at(t@, k, s as int) is None,
        },
{
    match k {
        SepKind::Paragraphs => {
            let n = run_exec(t, s, 0);
            if n >= 2 {
                Some(s + n)
            } else {
                None
            }
        },
        SepKind::Lines => {
            if t[s] == '\n' {
                let n = run_exec(t, s, 0);
                Some(s + n)
            } else {
                None
            }
        },
        SepKind::Spaces => {
            if is_ws_exec(t[s]) {
                let n = run_exec(t, s, 1);
                Some(s + n)
            } else {
                None
            }
        },
        SepKind::Sentences => {
            if is_stop_exec(t[s]) {
                let e = s + run_exec(t, s, 2);
                let n = run_exec(t, e, 1);
                Some(e + n)
            } else if t[s] == '.' && s + 1 < t.len() && is_ws_exec(t[s + 1]) {
                let n = run_exec(t, s + 1, 1);
                Some(s + 1 + n)
            } else {
                None
            }
        },
    }
}

pub open spec fn texts_view(v: Seq<Vec<char>>) -> Seq<Seq<char>> {
    v.map_values(|x: Vec<char>| x@)
}

/// Cuts `t` after each separator match (see `split_keep`).
pub fn split_keeping_sep(t: &Vec<char>, k: SepKind) -> (r: Vec<Vec<char>>)
    ensures
        texts_view(r@) == split_keep(t@, k),
{
    let mut out: Vec<Vec<char>> = Vec::new();
    let mut last: usize = 0;
    let mut s: usize = 0;
    while s < t.len()
        invariant
            last <= s <= t.len(),
            texts_view(out@) + split_keep_from(t@, k, last as int, s as int) == split_keep(t@, k),
        decreases t.len() - s,
    {
        let ghost before = texts_view(out@);
        proof {
            lemma_match_at(t@, k, s as int);
        }
        match match_at_exec(t, k, s) {
            Some(e) => {
                out.push(slice_range(t, last, e));
                proof {
                    assert(texts_view(out@) =~= before.push(t@.subrange(last as int, e as int)));
                    assert(before + (seq![t@.subrange(last as int, e as int)] + split_keep_from(t@, k, e as int, e as int))
                        =~= before.push(t@.subrange(last as int, e as int)) + split_keep_from(t@, k, e as int, e as int));
                }
                last = e;
                s = e;
            },
            None => {
                s = s + 1;
            },
        }
    }
    if last < t.len() {
        let ghost before = texts_view(out@);
        out.push(slice_range(t, last, t.len()));
        proof {
            assert(texts_view(out@) =~= before.push(t@.subrange(last as int, t@.len() as int)));
            assert(before + seq![t@.subrange(last as int, t@.len() as int)] =~= before.push(t@.subrange(last as int, t@.len() as int)));
        }
    } else {
        proof {
            assert(texts_view(out@) + Seq::<Seq<char>>::empty() =~= texts_view(out@));
        }
    }
    out
}

/// The texts of `ps`.
pub open spec fn texts_of(ps: Seq<(Seq<char>, int)>) -> Seq<Seq<char>> {
    ps.map_values(|p: (Seq<char>, int)| p.0)
}

/// Every part is at most `target` characters long.
pub open spec fn fits(parts: Seq<Seq<char>>, target: int) -> bool {
    forall|q: int| 0 <= q < parts.len() ==> #[trigger] parts[q].len() <= target
}

/// `parts` laid one after another from offset `at`.
pub open spec fn place(parts: Seq<Seq<char>>, at: int) -> Seq<(Seq<char>, int)>
    decreases parts.len(),
{
    if parts.len() == 0 {
        Seq::empty()
    } else {
        place(parts.drop_last(), at).push((parts.last(), at + concat(parts.drop_last()).len()))
    }
}

/// `c` cut into slices of `target` characters (the last one shorter), from offset `at`.
pub open spec fn hard_slices(c: Seq<char>, at: int, target: int) -> Seq<(Seq<char>, int)>
    decreases c.len(),
{
    if target <= 0 || c.len() == 0 {
        Seq::empty()
    } else {
        let e = if target < c.len() { target } else { c.len() as int };
        seq![(c.subrange(0, e), at)] + hard_slices(c.subrange(e, c.len() as int), at + e, target)
    }
}

/// Cuts `t` by separator `k` when that gives more than one part, each of at most `target`
/// characters.
pub open spec fn cut_by(t: Seq<char>, k: SepKind, target: int) -> bool {
    split_keep(t, k).len() > 1 && fits(split_keep(t, k), target)
}

/// A paragraph longer than `target`, cut by lines, else by sentences, else by white space,
/// whichever first gives parts that fit, else into fixed slices.
pub open spec fn split_long(c: Seq<char>, at: int, target: int) -> Seq<(Seq<char>, int)> {
    if cut_by(c, SepKind::Lines, target) {
        place(split_keep(c, SepKind::Lines), at)
    } else if cut_by(c, SepKind::Sentences, target) {
        place(split_keep(c, SepKind::Sentences), at)
    } else if cut_by(c, SepKind::Spaces, target) {
        place(split_keep(c, SepKind::Spaces), at)
    } else {
        hard_slices(c, at, target)
    }
}

/// The pieces of one paragraph at offset `at`.
pub open spec fn para_pieces(c: Seq<char>, at: int, target: int) -> Seq<(Seq<char>, int)> {
    if c.len() == 0 {
        Seq::empty()
    } else if c.len() <= target {
        seq![(c, at)]
    } else {
        split_long(c, at, target)
    }
}

/// The pieces of consecutive paragraphs `paras` starting at offset `base`.
pub open spec fn paras_pieces(paras: Seq<Seq<char>>, base: int, target: int) -> Seq<(Seq<char>, int)>
    decreases paras.len(),
{
    if paras.len() == 0 {
        Seq::empty()
    } else {
        paras_pieces(paras.drop_last(), base, target) + para_pieces(
            paras.last(),
            base + concat(paras.drop_last()).len(),
            target,
        )
    }
}

/// A long text at offset `base` cut into pieces of at most `target` characters where the
/// separators allow: first at paragraph breaks, then each long paragraph by `split_long`.
pub open spec fn recursive_split_spec(t: Seq<char>, base: int, target: int) -> Seq<(Seq<char>, int)> {
    paras_pieces(split_keep(t, SepKind::Paragraphs), base, target)
}

/// The pieces are laid end to end from `base`: each starts where the text before it ends.
pub open spec fn contiguous(ps: Seq<(Seq<char>, int)>, base: int) -> bool {
    forall|q: int| 0 <= q < ps.len() ==> #[trigger] ps[q].1 == base + concat(texts_of(ps.take(q))).len()
}

pub proof fn lemma_texts_push(ps: Seq<(Seq<char>, int)>, p: (Seq<char>, int))
    ensures
        texts_of(ps.push(p)) == texts_of(ps).push(p.0),
        concat(texts_of(ps.push(p))) == concat(texts_of(ps)) + p.0,
{
    assert(texts_of(ps.push(p)) =~= texts_of(ps).push(p.0));
    lemma_concat_push(texts_of(ps), p.0);
}

pub proof fn lemma_texts_append(a: Seq<(Seq<char>, int)>, b: Seq<(Seq<char>, int)>)
    ensures
        texts_of(a + b) == texts_of(a) + texts_of(b),
        concat(texts_of(a + b)) == concat(texts_of(a)) + concat(texts_of(b)),
{
    assert(texts_of(a + b) =~= texts_of(a) + texts_of(b));
    lemma_concat_append(texts_of(a), texts_of(b));
}

pub proof fn lemma_place(parts: Seq<Seq<char>>, at: int)
    ensures
        place(parts, at).len() == parts.len(),
        texts_of(place(parts, at)) == parts,
        contiguous(place(parts, at), at),
    decreases parts.len(),
{
    if parts.len() > 0 {
        lemma_place(parts.drop_last(), at);
        let pre = place(parts.drop_last(), at);
        let x = (parts.last(), at + concat(parts.drop_last()).len());
        lemma_texts_push(pre, x);
        assert(texts_of(pre.push(x)) =~= parts);
        assert forall|q: int| 0 <= q < pre.push(x).len() implies #[trigger] pre.push(x)[q].1 == at + concat(texts_of(pre.push(x).take(q))).len() by {
            if q < pre.len() {
                assert(pre.push(x).take(q) =~= pre.take(q));
            } else {
                assert(pre.push(x).take(q) =~= pre);
            }
        }
    } else {
        assert(texts_of(place(parts, at)) =~= parts);
    }
}

pub proof fn lemma_hard_slices(c: Seq<char>, at: int, target: int)
    requires
        target > 0,
    ensures
        concat(texts_of(hard_slices(c, at, target))) == c,
        contiguous(hard_slices(c, at, target), at),
        forall|q: int| 0 <= q < hard_slices(c, at, target).len() ==> #[trigger] hard_slices(c, at, target)[q].0.len() <= target,
    decreases c.len(),
{
    let r = hard_slices(c, at, target);
    if c.len() == 0 {
        assert(texts_of(r) =~= Seq::<Seq<char>>::empty());
    } else {
        let e = if target < c.len() { target } else { c.len() as int };
        let rest = c.subrange(e, c.len() as int);
        lemma_hard_slices(rest, at + e, target);
        let hd = seq![(c.subrange(0, e), at)];
        let tl = hard_slices(rest, at + e, target);
        lemma_texts_append(hd, tl);
        assert(texts_of(hd) =~= seq![c.subrange(0, e)]);
        lemma_concat_single(c.subrange(0, e));
        assert(c.subrange(0, e) + rest =~= c);
        assert forall|q: int| 0 <= q < r.len() implies #[trigger] r[q].1 == at + concat(texts_of(r.take(q))).len() by {
            if q == 0 {
                assert(texts_of(r.take(0)) =~= Seq::<Seq<char>>::empty());
            } else {
                assert(r.take(q) =~= hd + tl.take(q - 1));
                lemma_texts_append(hd, tl.take(q - 1));
                assert(r[q] == tl[q - 1]);
            }
        }
        assert(r == hd + tl);
        assert forall|q: int| 0 <= q < r.len() implies #[trigger] r[q].0.len() <= target by {
            if q > 0 {
                assert(r[q] == tl[q - 1]);
                assert(tl[q - 1].0.len() <= target);
            } else {
                assert(r[0] == (c.subrange(0, e), at));
            }
        }
    }
}

pub proof fn lemma_split_long(c: Seq<char>, at: int, target: int)
    requires
        target > 0,
    ensures
        concat(texts_of(split_long(c, at, target))) == c,
        contiguous(split_long(c, at, target), at),
{
    lemma_split_keep_concat(c, SepKind::Lines, 0, 0);
    lemma_split_keep_concat(c, SepKind::Sentences, 0, 0);
    lemma_split_keep_concat(c, SepKind::Spaces, 0, 0);
    assert(c.subrange(0, c.len() as int) =~= c);
    lemma_place(split_keep(c, SepKind::Lines), at);
    lemma_place(split_keep(c, SepKind::Sentences), at);
    lemma_place(split_keep(c, SepKind::Spaces), at);
    lemma_hard_slices(c, at, target);
}

pub proof fn lemma_para_pieces(c: Seq<char>, at: int, target: int)
    requires
        target > 0,
    ensures
        concat(texts_of(para_pieces(c, at, target))) == c,
        contiguous(para_pieces(c, at, target), at),
{
    if c.len() == 0 {
        assert(texts_of(Seq::<(Seq<char>, int)>::empty()) =~= Seq::<Seq<char>>::empty());
        assert(c =~= Seq::<char>::empty());
    } else if c.len() <= target {
        assert(texts_of(seq![(c, at)]) =~= seq![c]);
        lemma_concat_single(c);
        assert forall|q: int| 0 <= q < 1 implies #[trigger] seq![(c, at)][q].1 == at + concat(texts_of(seq![(c, at)].take(q))).len() by {
            assert(texts_of(seq![(c, at)].take(0)) =~= Seq::<Seq<char>>::empty());
        }
    } else {
        lemma_split_long(c, at, target);
    }
}

pub proof fn lemma_contiguous_append(a: Seq<(Seq<char>, int)>, b: Seq<(Seq<char>, int)>, base: int)
    requires
        contiguous(a, base),
        contiguous(b, base + concat(texts_of(a)).len()),
    ensures
        contiguous(a + b, base),
{
    assert forall|q: int| 0 <= q < (a + b).len() implies #[trigger] (a + b)[q].1 == base + concat(texts_of((a + b).take(q))).len() by {
        if q < a.len() {
            assert((a + b).take(q) =~= a.take(q));
        } else {
            assert((a + b).take(q) =~= a + b.take(q - a.len()));
            lemma_texts_append(a, b.take(q - a.len()));
            assert((a + b)[q] == b[q - a.len()]);
        }
    }
}

pub proof fn lemma_paras_pieces(paras: Seq<Seq<char>>, base: int, target: int)
    requires
        target > 0,
    ensures
        concat(texts_of(paras_pieces(paras, base, target))) == concat(paras),
        contiguous(paras_pieces(paras, base, target), base),
    decreases paras.len(),
{
    if paras.len() == 0 {
        assert(texts_of(Seq::<(Seq<char>, int)>::empty()) =~= Seq::<Seq<char>>::empty());
    } else {
        let pre = paras_pieces(paras.drop_last(), base, target);
        let at = base + concat(paras.drop_last()).len();
        let one = para_pieces(paras.last(), at, target);
        lemma_paras_pieces(paras.drop_last(), base, target);
        lemma_para_pieces(paras.last(), at, target);
        lemma_texts_append(pre, one);
        lemma_contiguous_append(pre, one, base);
    }
}

/// Law: cutting a long text loses no character and duplicates none; the pieces, put
/// back together in order, give the text, and each starts where the one before it ends.
pub proof fn lemma_recursive_split_keeps_text(t: Seq<char>, base: int, target: int)
    requires
        target > 0,
    ensures
        concat(texts_of(recursive_split_spec(t, base, target))) == t,
        contiguous(recursive_split_spec(t, base, target), base),
{
    lemma_split_keep_concat(t, SepKind::Paragraphs, 0, 0);
    assert(t.subrange(0, t.len() as int) =~= t);
    lemma_paras_pieces(split_keep(t, SepKind::Paragraphs), base, target);
}

pub proof fn lemma_concat_take_len(parts: Seq<Seq<char>>, i: int)
    requires
        0 <= i <= parts.len(),
    ensures
        concat(parts.take(i)).len() <= concat(parts).len(),
        i < parts.len() ==> concat(parts.take(i)).len() + parts[i].len() <= concat(parts).len(),
        i < parts.len() ==> concat(parts.take(i + 1)) == concat(parts.take(i)) + parts[i],
{
    assert(parts =~= parts.take(i) + parts.skip(i));
    lemma_concat_append(parts.take(i), parts.skip(i));
    if i < parts.len() {
        assert(parts.take(i + 1).drop_last() =~= parts.take(i));
        assert(parts.skip(i) =~= seq![parts[i]] + parts.skip(i + 1));
        lemma_concat_append(seq![parts[i]], parts.skip(i + 1));
        lemma_concat_single(parts[i]);
    }
}

fn copy_chars(v: &Vec<char>) -> (r: Vec<char>)
    ensures
        r@ == v@,
{
    slice_range(v, 0, v.len())
}

fn push_placed(out: &mut Vec<Piece>, parts: &Vec<Vec<char>>, at: usize)
    requires
        at + concat(texts_view(parts@)).len() <= usize::MAX,
    ensures
        pieces_view(final(out)@) == pieces_view(old(out)@) + place(texts_view(parts@), at as int),
{
    let ghost ps = texts_view(parts@);
    let mut cursor = at;
    let mut i: usize = 0;
    proof {
        assert(ps.take(0) =~= Seq::<Seq<char>>::empty());
        assert(pieces_view(out@) + place(ps.take(0), at as int) =~= pieces_view(out@));
    }
    while i < parts.len()
        invariant
            i <= parts.len(),
            ps == texts_view(parts@),
            at + concat(ps).len() <= usize::MAX,
            cursor == at + concat(ps.take(i as int)).len(),
            pieces_view(out@) == pieces_view(old(out)@) + place(ps.take(i as int), at as int),
        decreases parts.len() - i,
    {
        proof {
            lemma_concat_take_len(ps, i as int);
            assert(ps[i as int] == parts@[i as int]@);
        }
        let ghost before = pieces_view(out@);
        out.push(Piece { text: copy_chars(&parts[i]), offset: cursor });
        proof {
            assert(ps.take(i + 1).drop_last() =~= ps.take(i as int));
            assert(pieces_view(out@) =~= before.push((ps[i as int], cursor as int)));
            assert(place(ps.take(i + 1), at as int) == place(ps.take(i as int), at as int).push((ps[i as int], cursor as int)));
        }
        cursor = cursor + parts[i].len();
        i = i + 1;
    }
    proof {
        assert(ps.take(parts.len() as int) =~= ps);
    }
}

fn push_hard_slices(out: &mut Vec<Piece>, c: &Vec<char>, at: usize, target: usize)
    requires
        target > 0,
        at + c.len() <= usize::MAX,
    ensures
        pieces_view(final(out)@) == pieces_view(old(out)@) + hard_slices(c@, at as int, target as int),
{
    let mut i: usize = 0;
    proof {
        assert(c@.subrange(0, c@.len() as int) =~= c@);
    }
    while i < c.len()
        invariant
            i <= c.len(),
            target > 0,
            at + c.len() <= usize::MAX,
            pieces_view(out@) + hard_slices(c@.subrange(i as int, c@.len() as int), at + i, target as int)
                == pieces_view(old(out)@) + hard_slices(c@, at as int, target as int),
        decreases c.len() - i,
    {
        let e = if target < c.len() - i { i + target } else { c.len() };
        let ghost rest = c@.subrange(i as int, c@.len() as int);
        let ghost before = pieces_view(out@);
        out.push(Piece { text: slice_range(c, i, e), offset: at + i });
        proof {
            assert(rest.subrange(0, e - i) =~= c@.subrange(i as int, e as int));
            assert(rest.subrange(e - i, rest.len() as int) =~= c@.subrange(e as int, c@.len() as int));
            assert(pieces_view(out@) =~= before.push((c@.subrange(i as int, e as int), at + i)));
            let tl = hard_slices(c@.subrange(e as int, c@.len() as int), at + e, target as int);
            assert(hard_slices(rest, at + i, target as int) == seq![(c@.subrange(i as int, e as int), at + i)] + tl);
            assert(before + (seq![(c@.subrange(i as int, e as int), at + i)] + tl) =~= before.push((c@.subrange(i as int, e as int), at + i)) + tl);
        }
        i = e;
    }
    proof {
        assert(c@.subrange(c@.len() as int, c@.len() as int) =~= Seq::<char>::empty());
        assert(pieces_view(out@) + Seq::<(Seq<char>, int)>::empty() =~= pieces_view(out@));
    }
}

fn all_fit(parts: &Vec<Vec<char>>, target: usize) -> (r: bool)
    ensures
        r == fits(texts_view(parts@), target as int),
{
    let mut i: usize = 0;
    while i < parts.len()
        invariant
            i <= parts.len(),
            forall|q: int| 0 <= q < i ==> #[trigger] texts_view(parts@)[q].len() <= target,
        decreases parts.len() - i,
    {
        if parts[i].len() > target {
            proof {
                assert(texts_view(parts@)[i as int] == parts@[i as int]@);
            }
            return false;
        }
        i = i + 1;
    }
    true
}

fn try_cut(out: &mut Vec<Piece>, c: &Vec<char>, k: SepKind, at: usize, target: usize) -> (done: bool)
    requires
        at + c.len() <= usize::MAX,
    ensures
        done == cut_by(c@, k, target as int),
        done ==> pieces_view(final(out)@) == pieces_view(old(out)@) + place(split_keep(c@, k), at as int),
        !done ==> final(out)@ == old(out)@,
{
    let parts = split_keeping_sep(c, k);
    if parts.len() > 1 && all_fit(&parts, target) {
        proof {
            lemma_split_keep_concat(c@, k, 0, 0);
            assert(c@.subrange(0, c@.len() as int) =~= c@);
        }
        push_placed(out, &parts, at);
        true
    } else {
        false
    }
}

fn push_split_long(out: &mut Vec<Piece>, c: &Vec<char>, at: usize, target: usize)
    requires
        target > 0,
        at + c.len() <= usize::MAX,
    ensures
        pieces_view(final(out)@) == pieces_view(old(out)@) + split_long(c@, at as int, target as int),
{
    if try_cut(out, c, SepKind::Lines, at, target) {
        return;
    }
    if try_cut(out, c, SepKind::Sentences, at, target) {
        return;
    }
    if try_cut(out, c, SepKind::Spaces, at, target) {
        return;
    }
    push_hard_slices(out, c, at, target);
}

/// Cuts a long text at offset `base` into pieces (see `recursive_split_spec`).
pub fn recursive_split(t: &Vec<char>, base: usize, target: usize) -> (r: Vec<Piece>)
    requires
        target > 0,
        base + t.len() <= usize::MAX,
    ensures
        pieces_view(r@) == recursive_split_spec(t@, base as int, target as int),
{
    let paras = split_keeping_sep(t, SepKind::Paragraphs);
    let ghost ps = texts_view(paras@);
    proof {
        lemma_split_keep_concat(t@, SepKind::Paragraphs, 0, 0);
        assert(t@.subrange(0, t@.len() as int) =~= t@);
        assert(ps.take(0) =~= Seq::<Seq<char>>::empty());
    }
    let mut out: Vec<Piece> = Vec::new();
    let mut cursor = base;
    let mut i: usize = 0;
    while i < paras.len()
        invariant
            i <= paras.len(),
            target > 0,
            ps == texts_view(paras@),
            concat(ps) == t@,
            base + t.len() <= usize::MAX,
            cursor == base + concat(ps.take(i as int)).len(),
            pieces_view(out@) == paras_pieces(ps.take(i as int), base as int, target as int),
        decreases paras.len() - i,
    {
        proof {
            lemma_concat_take_len(ps, i as int);
            assert(ps[i as int] == paras@[i as int]@);
            assert(ps.take(i + 1).drop_last() =~= ps.take(i as int));
            assert(ps.take(i + 1).last() == ps[i as int]);
        }
        let ghost before = pieces_view(out@);
        let c = &paras[i];
        if c.len() == 0 {
            proof {
                assert(before + Seq::<(Seq<char>, int)>::empty() =~= before);
            }
        } else if c.len() <= target {
            out.push(Piece { text: copy_chars(c), offset: cursor });
            proof {
                assert(pieces_view(out@) =~= before + seq![(c@, cursor as int)]);
            }
        } else {
            push_split_long(&mut out, c, cursor, target);
        }
        cursor = cursor + c.len();
        i = i + 1;
    }
    proof {
        assert(ps.take(paras.len() as int) =~= ps);
    }
    out
}

/// Where piece `p` ends.
pub open spec fn end_of(p: (Seq<char>, int)) -> int {
    p.1 + p.0.len()
}

/// Each piece ends before any later piece starts.
pub open spec fn ordered(ps: Seq<(Seq<char>, int)>) -> bool {
    forall|a: int, b: int| 0 <= a < b < ps.len() ==> end_of(#[trigger] ps[a]) <= #[trigger] ps[b].1
}

/// Every piece lies between offsets `lo` and `hi`.
pub open spec fn within(ps: Seq<(Seq<char>, int)>, lo: int, hi: int) -> bool {
    forall|q: int| 0 <= q < ps.len() ==> lo <= #[trigger] ps[q].1 && end_of(ps[q]) <= hi
}

/// One step of packing: a piece longer than `target` stands alone; otherwise pieces are
/// gathered in a buffer until the next would make it longer than `target`. The state is
/// the pieces out so far, the buffer and the buffer's offset.
pub open spec fn size_step(
    st: (Seq<(Seq<char>, int)>, Seq<char>, int),
    p: (Seq<char>, int),
    target: int,
) -> (Seq<(Seq<char>, int)>, Seq<char>, int) {
    let (out, buf, off) = st;
    if p.0.len() == 0 {
        st
    } else if p.0.len() > target {
        let out1 = if buf.len() > 0 { out.push((buf, off)) } else { out };
        (out1.push(p), Seq::empty(), 0)
    } else if buf.len() + p.0.len() > target && buf.len() > 0 {
        (out.push((buf, off)), p.0, p.1)
    } else if buf.len() == 0 {
        (out, p.0, p.1)
    } else {
        (out, buf + p.0, off)
    }
}

pub open spec fn size_fold(ps: Seq<(Seq<char>, int)>, target: int) -> (Seq<(Seq<char>, int)>, Seq<char>, int)
    decreases ps.len(),
{
    if ps.len() == 0 {
        (Seq::empty(), Seq::empty(), 0)
    } else {
        size_step(size_fold(ps.drop_last(), target), ps.last(), target)
    }
}

/// Small neighbouring pieces packed together up to `target` characters (see `size_step`);
/// the last buffer is flushed at the end.
pub open spec fn size_pieces_spec(ps: Seq<(Seq<char>, int)>, target: int) -> Seq<(Seq<char>, int)> {
    let st = size_fold(ps, target);
    if st.1.len() > 0 {
        st.0.push((st.1, st.2))
    } else {
        st.0
    }
}

/// One step of merging: a piece joins the one before it while that one is shorter than
/// `min` and the two together are at most `max` characters long.
pub open spec fn merge_step(out: Seq<(Seq<char>, int)>, p: (Seq<char>, int), min: int, max: int) -> Seq<(Seq<char>, int)> {
    if out.len() > 0 && out.last().0.len() < min && out.last().0.len() + p.0.len() <= max {
        out.drop_last().push((out.last().0 + p.0, out.last().1))
    } else {
        out.push(p)
    }
}

pub open spec fn merge_small_spec(ps: Seq<(Seq<char>, int)>, min: int, max: int) -> Seq<(Seq<char>, int)>
    decreases ps.len(),
{
    if ps.len() == 0 {
        Seq::empty()
    } else {
        merge_step(merge_small_spec(ps.drop_last(), min, max), ps.last(), min, max)
    }
}

/// The text of the pieces `lo..hi` of `ps`, joined.
pub open spec fn group_text(ps: Seq<(Seq<char>, int)>, lo: int, hi: int) -> Seq<char> {
    concat(texts_of(ps.subrange(lo, hi)))
}

/// Run `j` of the cut of `ps` at the bounds `b` is the piece `out[j]`: the pieces
/// `b[j]..b[j + 1]` joined, at the offset of the first. A run of two or more pieces is at
/// most `max` long, and all its pieces but the last come to fewer than `min` characters: a
/// piece joins the one before only while that one is still short. A run ends only where the
/// next piece could not join it: the run is already `min` long, or the two would pass `max`.
pub open spec fn merge_run(ps: Seq<(Seq<char>, int)>, out: Seq<(Seq<char>, int)>, b: Seq<int>, min: int, max: int, j: int) -> bool {
    &&& out[j].0 == group_text(ps, b[j], b[j + 1])
    &&& out[j].1 == ps[b[j]].1
    &&& b[j + 1] - b[j] >= 2 ==> group_text(ps, b[j], b[j + 1] - 1).len() < min && out[j].0.len() <= max
    &&& j + 1 < out.len() ==> out[j].0.len() >= min || out[j].0.len() + ps[b[j + 1]].0.len() > max
}

/// `out` is `ps` cut into runs of neighbouring pieces at the rising bounds `b`, from the
/// first piece to the last, each run as `merge_run` says.
pub open spec fn merge_grouping(ps: Seq<(Seq<char>, int)>, out: Seq<(Seq<char>, int)>, b: Seq<int>, min: int, max: int) -> bool {
    &&& b.len() == out.len() + 1
    &&& b[0] == 0
    &&& b[out.len() as int] == ps.len()
    &&& forall|x: int, y: int| 0 <= x < y <= out.len() ==> #[trigger] b[x] < #[trigger] b[y]
    &&& forall|j: int| 0 <= j < out.len() ==> #[trigger] merge_run(ps, out, b, min, max, j)
}

proof fn lemma_group_text_push(ps: Seq<(Seq<char>, int)>, lo: int, hi: int)
    requires
        0 <= lo <= hi < ps.len(),
    ensures
        group_text(ps, lo, hi + 1) == group_text(ps, lo, hi) + ps[hi].0,
{
    assert(texts_of(ps.subrange(lo, hi + 1)) =~= texts_of(ps.subrange(lo, hi)).push(ps[hi].0));
    lemma_concat_push(texts_of(ps.subrange(lo, hi)), ps[hi].0);
}

proof fn lemma_group_text_prefix(pre: Seq<(Seq<char>, int)>, p: (Seq<char>, int), lo: int, hi: int)
    requires
        0 <= lo <= hi <= pre.len(),
    ensures
        group_text(pre, lo, hi) == group_text(pre.push(p), lo, hi),
{
    assert(pre.subrange(lo, hi) =~= pre.push(p).subrange(lo, hi));
}

/// A run of the cut before the last piece came stays a run once it has come, but for
/// whether the next run could have taken the new piece.
proof fn lemma_merge_groups_keep(pre: Seq<(Seq<char>, int)>, p: (Seq<char>, int), out0: Seq<(Seq<char>, int)>, b0: Seq<int>, min: int, max: int, j: int)
    requires
        merge_grouping(pre, out0, b0, min, max),
        0 <= j < out0.len(),
    ensures
        0 <= b0[j] < b0[j + 1] <= pre.len(),
        out0[j].0 == group_text(pre.push(p), b0[j], b0[j + 1]),
        out0[j].1 == pre.push(p)[b0[j]].1,
        b0[j + 1] - b0[j] >= 2 ==> group_text(pre.push(p), b0[j], b0[j + 1] - 1).len() < min && out0[j].0.len() <= max,
        j + 1 < out0.len() ==> out0[j].0.len() >= min || out0[j].0.len() + pre.push(p)[b0[j + 1]].0.len() > max,
{
    assert(merge_run(pre, out0, b0, min, max, j));
    assert(b0[0] == 0 && b0[out0.len() as int] == pre.len());
    assert(b0[j] < b0[j + 1]);
    assert(b0[0] <= b0[j]);
    assert(b0[j + 1] <= b0[out0.len() as int]);
    lemma_group_text_prefix(pre, p, b0[j], b0[j + 1]);
    if b0[j + 1] - b0[j] >= 2 {
        lemma_group_text_prefix(pre, p, b0[j], b0[j + 1] - 1);
    }
    assert(pre.push(p)[b0[j]] == pre[b0[j]]);
    if j + 1 < out0.len() {
        assert(b0[j + 1] < b0[j + 2] && b0[j + 2] <= b0[out0.len() as int]);
        assert(pre.push(p)[b0[j + 1]] == pre[b0[j + 1]]);
    }
}

#[verifier::rlimit(40)]
proof fn lemma_merge_groups_step(pre: Seq<(Seq<char>, int)>, p: (Seq<char>, int), out0: Seq<(Seq<char>, int)>, b0: Seq<int>, min: int, max: int) -> (b: Seq<int>)
    requires
        merge_grouping(pre, out0, b0, min, max),
    ensures
        merge_grouping(pre.push(p), merge_step(out0, p, min, max), b, min, max),
{
    let ps = pre.push(p);
    let n = pre.len() as int;
    let out = merge_step(out0, p, min, max);
    assert(ps[n] == p);
    if out0.len() > 0 && out0.last().0.len() < min && out0.last().0.len() + p.0.len() <= max {
        let j0 = out0.len() - 1;
        let b = b0.drop_last().push(ps.len() as int);
        assert(out == out0.drop_last().push((out0.last().0 + p.0, out0.last().1)));
        lemma_merge_groups_keep(pre, p, out0, b0, min, max, j0);
        assert(b0[j0 + 1] == n);
        assert(out0.last() == out0[j0]);
        lemma_group_text_push(ps, b0[j0], n);
        assert forall|x: int, y: int| 0 <= x < y <= out.len() implies #[trigger] b[x] < #[trigger] b[y] by {
            assert(b0[x] < b0[y] || y == out.len());
            assert(b0[x] <= b0[j0]);
            assert(b0[j0] < b0[j0 + 1]);
        }
        assert forall|j: int| 0 <= j < out.len() implies #[trigger] merge_run(ps, out, b, min, max, j) by {
            lemma_merge_groups_keep(pre, p, out0, b0, min, max, j);
            if j == j0 {
                assert(b[j + 1] == n + 1 && b[j] == b0[j0]);
                assert(out[j].0 == out0[j0].0 + p.0);
            } else {
                assert(out[j] == out0[j]);
                assert(b[j] == b0[j] && b[j + 1] == b0[j + 1]);
            }
        }
        b
    } else {
        let b = b0.push(ps.len() as int);
        assert(out == out0.push(p));
        assert(b0[out0.len() as int] == n);
        assert(ps.subrange(n, n + 1) =~= seq![p]);
        assert(texts_of(seq![p]) =~= seq![p.0]);
        lemma_concat_single(p.0);
        assert forall|x: int, y: int| 0 <= x < y <= out.len() implies #[trigger] b[x] < #[trigger] b[y] by {
            assert(b0[x] <= b0[out0.len() as int]);
            if y < out.len() {
                assert(b0[x] < b0[y]);
            }
        }
        assert forall|j: int| 0 <= j < out.len() implies #[trigger] merge_run(ps, out, b, min, max, j) by {
            if j < out0.len() {
                lemma_merge_groups_keep(pre, p, out0, b0, min, max, j);
                assert(out[j] == out0[j]);
                assert(b[j] == b0[j] && b[j + 1] == b0[j + 1]);
                if j + 1 == out0.len() {
                    assert(out0.last() == out0[j]);
                }
            } else {
                assert(b[j] == n && b[j + 1] == n + 1);
                assert(out[j] == p);
            }
        }
        b
    }
}

/// Law: merging small pieces cuts the pieces into runs of neighbours and joins each run
/// (see `merge_grouping`): a piece is joined only onto a run that is still shorter than
/// `min`, never onto one that has reached it, and a run stops only where the next piece
/// cannot join it.
pub proof fn lemma_merge_small_groups(ps: Seq<(Seq<char>, int)>, min: int, max: int) -> (b: Seq<int>)
    ensures
        merge_grouping(ps, merge_small_spec(ps, min, max), b, min, max),
    decreases ps.len(),
{
    if ps.len() == 0 {
        seq![0int]
    } else {
        let pre = ps.drop_last();
        let b0 = lemma_merge_small_groups(pre, min, max);
        assert(pre.push(ps.last()) =~= ps);
        lemma_merge_groups_step(pre, ps.last(), merge_small_spec(pre, min, max), b0, min, max)
    }
}

pub proof fn lemma_ordered_push(ps: Seq<(Seq<char>, int)>, p: (Seq<char>, int))
    requires
        ordered(ps),
        ps.len() > 0 ==> end_of(ps.last()) <= p.1,
        forall|q: int| 0 <= q < ps.len() ==> #[trigger] ps[q].1 <= end_of(ps[q]),
    ensures
        ordered(ps.push(p)),
{
    assert forall|a: int, b: int| 0 <= a < b < ps.push(p).len() implies end_of(#[trigger] ps.push(p)[a]) <= #[trigger] ps.push(p)[b].1 by {
        assert(ps.push(p)[a] == ps[a]);
        if b == ps.len() {
            if a < ps.len() - 1 {
                assert(end_of(ps[a]) <= ps[ps.len() - 1].1);
                assert(ps[ps.len() - 1].1 <= end_of(ps[ps.len() - 1]));
            }
        } else {
            assert(ps.push(p)[b] == ps[b]);
        }
    }
}

/// The invariant of packing over a prefix of ordered pieces that ends at `e`.
pub open spec fn size_inv(st: (Seq<(Seq<char>, int)>, Seq<char>, int), lo: int, e: int) -> bool {
    let (out, buf, off) = st;
    &&& ordered(out)
    &&& within(out, lo, e)
    &&& buf.len() > 0 ==> lo <= off && off + buf.len() <= e && (out.len() > 0 ==> end_of(out.last()) <= off)
}

pub proof fn lemma_within_nonneg(ps: Seq<(Seq<char>, int)>, lo: int, hi: int)
    requires
        within(ps, lo, hi),
    ensures
        forall|q: int| 0 <= q < ps.len() ==> #[trigger] ps[q].1 <= end_of(ps[q]),
{
}

pub proof fn lemma_size_step(st: (Seq<(Seq<char>, int)>, Seq<char>, int), p: (Seq<char>, int), target: int, lo: int, e: int)
    requires
        size_inv(st, lo, e),
        e <= p.1,
        lo <= p.1,
    ensures
        size_inv(size_step(st, p, target), lo, if p.0.len() == 0 { e } else { end_of(p) }),
        size_inv(size_step(st, p, target), lo, if end_of(p) > e { end_of(p) } else { e }),
{
    let (out, buf, off) = st;
    lemma_within_nonneg(out, lo, e);
    let e2 = end_of(p);
    if p.0.len() == 0 {
    } else if p.0.len() > target {
        let out1 = if buf.len() > 0 { out.push((buf, off)) } else { out };
        if buf.len() > 0 {
            lemma_ordered_push(out, (buf, off));
        }
        assert(within(out1, lo, e));
        lemma_within_nonneg(out1, lo, e);
        lemma_ordered_push(out1, p);
    } else if buf.len() + p.0.len() > target && buf.len() > 0 {
        lemma_ordered_push(out, (buf, off));
    } else if buf.len() == 0 {
    } else {
    }
}

pub proof fn lemma_size_fold(ps: Seq<(Seq<char>, int)>, target: int, lo: int)
    requires
        ordered(ps),
        within(ps, lo, if ps.len() > 0 { end_of(ps.last()) } else { lo }),
    ensures
        size_inv(size_fold(ps, target), lo, if ps.len() > 0 { end_of(ps.last()) } else { lo }),
        concat(texts_of(size_fold(ps, target).0)) + size_fold(ps, target).1 == concat(texts_of(ps)),
    decreases ps.len(),
{
    if ps.len() == 0 {
        assert(texts_of(Seq::<(Seq<char>, int)>::empty()) =~= Seq::<Seq<char>>::empty());
        assert(Seq::<char>::empty() + Seq::<char>::empty() =~= Seq::<char>::empty());
    } else {
        let pre = ps.drop_last();
        let e = if pre.len() > 0 { end_of(pre.last()) } else { lo };
        assert(ordered(pre));
        assert forall|q: int| 0 <= q < pre.len() implies lo <= #[trigger] pre[q].1 && end_of(pre[q]) <= e by {
            assert(pre[q] == ps[q]);
            if q < pre.len() - 1 {
                assert(end_of(ps[q]) <= ps[pre.len() - 1].1);
            }
        }
        lemma_size_fold(pre, target, lo);
        let st = size_fold(pre, target);
        let p = ps.last();
        if pre.len() > 0 {
            assert(end_of(ps[pre.len() - 1]) <= ps[ps.len() - 1].1);
        }
        assert(lo <= p.1);
        lemma_size_step(st, p, target, lo, e);
        assert(e <= end_of(p));
        // text
        let (out, buf, off) = st;
        lemma_texts_push(pre, p);
        assert(ps =~= pre.push(p));
        if p.0.len() == 0 {
            assert(concat(texts_of(ps)) =~= concat(texts_of(pre)) + p.0);
        } else if p.0.len() > target {
            if buf.len() > 0 {
                lemma_texts_push(out, (buf, off));
                lemma_texts_push(out.push((buf, off)), p);
                assert(concat(texts_of(out)) + buf + p.0 =~= concat(texts_of(out)) + buf + p.0 + Seq::<char>::empty());
            } else {
                lemma_texts_push(out, p);
                assert(concat(texts_of(out)) + buf + p.0 =~= concat(texts_of(out)) + p.0 + Seq::<char>::empty());
            }
        } else if buf.len() + p.0.len() > target && buf.len() > 0 {
            lemma_texts_push(out, (buf, off));
            assert(concat(texts_of(out)) + buf + p.0 =~= (concat(texts_of(out)) + buf) + p.0);
        } else if buf.len() == 0 {
            assert(concat(texts_of(out)) + buf =~= concat(texts_of(out)));
        } else {
            assert(concat(texts_of(out)) + buf + p.0 =~= concat(texts_of(out)) + (buf + p.0));
        }
    }
}

/// Law: packing keeps every character, in order, and keeps pieces ordered within the
/// same bounds.
pub proof fn lemma_size_pieces_keeps_text(ps: Seq<(Seq<char>, int)>, target: int, lo: int)
    requires
        ordered(ps),
        within(ps, lo, if ps.len() > 0 { end_of(ps.last()) } else { lo }),
    ensures
        concat(texts_of(size_pieces_spec(ps, target))) == concat(texts_of(ps)),
        ordered(size_pieces_spec(ps, target)),
        within(size_pieces_spec(ps, target), lo, if ps.len() > 0 { end_of(ps.last()) } else { lo }),
{
    lemma_size_fold(ps, target, lo);
    let st = size_fold(ps, target);
    let e = if ps.len() > 0 { end_of(ps.last()) } else { lo };
    if st.1.len() > 0 {
        lemma_within_nonneg(st.0, lo, e);
        lemma_ordered_push(st.0, (st.1, st.2));
        lemma_texts_push(st.0, (st.1, st.2));
    } else {
        assert(concat(texts_of(st.0)) + st.1 =~= concat(texts_of(st.0)));
    }
}

pub proof fn lemma_merge_small(ps: Seq<(Seq<char>, int)>, min: int, max: int, lo: int)
    requires
        ordered(ps),
        within(ps, lo, if ps.len() > 0 { end_of(ps.last()) } else { lo }),
    ensures
        concat(texts_of(merge_small_spec(ps, min, max))) == concat(texts_of(ps)),
        ordered(merge_small_spec(ps, min, max)),
        within(merge_small_spec(ps, min, max), lo, if ps.len() > 0 { end_of(ps.last()) } else { lo }),
    decreases ps.len(),
{
    if ps.len() == 0 {
        assert(texts_of(Seq::<(Seq<char>, int)>::empty()) =~= Seq::<Seq<char>>::empty());
    } else {
        let pre = ps.drop_last();
        let e = if pre.len() > 0 { end_of(pre.last()) } else { lo };
        assert(ordered(pre));
        assert forall|q: int| 0 <= q < pre.len() implies lo <= #[trigger] pre[q].1 && end_of(pre[q]) <= e by {
            assert(pre[q] == ps[q]);
            if q < pre.len() - 1 {
                assert(end_of(ps[q]) <= ps[pre.len() - 1].1);
            }
        }
        lemma_merge_small(pre, min, max, lo);
        let out = merge_small_spec(pre, min, max);
        let p = ps.last();
        if pre.len() > 0 {
            assert(end_of(ps[pre.len() - 1]) <= ps[ps.len() - 1].1);
        }
        assert(lo <= p.1);
        lemma_within_nonneg(out, lo, e);
        lemma_texts_push(pre, p);
        assert(ps =~= pre.push(p));
        if out.len() > 0 && out.last().0.len() < min && out.last().0.len() + p.0.len() <= max {
            let l = out.last();
            let body = out.drop_last();
            assert(out =~= body.push(l));
            lemma_texts_push(body, l);
            lemma_texts_push(body, (l.0 + p.0, l.1));
            assert(concat(texts_of(body)) + (l.0 + p.0) =~= concat(texts_of(body)) + l.0 + p.0);
            assert(ordered(body));
            assert forall|q: int| 0 <= q < body.len() implies #[trigger] body[q].1 <= end_of(body[q]) by {
                assert(body[q] == out[q]);
            }
            if body.len() > 0 {
                assert(end_of(out[body.len() - 1]) <= out[out.len() - 1].1);
            }
            lemma_ordered_push(body, (l.0 + p.0, l.1));
            let r = body.push((l.0 + p.0, l.1));
            assert forall|q: int| 0 <= q < r.len() implies lo <= #[trigger] r[q].1 && end_of(r[q]) <= end_of(p) by {
                if q < body.len() {
                    assert(r[q] == out[q]);
                }
            }
        } else {
            lemma_ordered_push(out, p);
            lemma_texts_push(out, p);
        }
    }
}

/// Where the overlap taken from the end of the previous piece starts: after the first
/// sentence end (with the white space after it) when that leaves text, else after the
/// first white-space character when that leaves text, else at the start.
pub open spec fn is_stop_or_dot(c: char) -> bool {
    is_stop(c) || c == '.'
}

pub open spec fn stop_or_dot_p() -> spec_fn(char) -> bool {
    |c: char| is_stop_or_dot(c)
}

pub open spec fn first_index(t: Seq<char>, p: spec_fn(char) -> bool, from: int) -> Option<int>
    decreases t.len() - from,
{
    if from < 0 || from >= t.len() {
        None
    } else if p(t[from]) {
        Some(from)
    } else {
        first_index(t, p, from + 1)
    }
}

pub open spec fn snap_start(tail: Seq<char>) -> int {
    let after = match first_index(tail, stop_or_dot_p(), 0) {
        Some(s) => s + 1 + run_while(tail, s + 1, ws_p()),
        None => 0,
    };
    if 0 < after < tail.len() {
        after
    } else {
        match first_index(tail, ws_p(), 0) {
            Some(w) => if w < tail.len() - 1 { w + 1 } else { 0 },
            None => 0,
        }
    }
}

/// The overlap text: the tail with its head snapped to a sentence or word start.
pub open spec fn snap_overlap_spec(tail: Seq<char>) -> Seq<char> {
    tail.subrange(snap_start(tail), tail.len() as int)
}

/// The last `overlap` characters of `t` (all of it when shorter).
pub open spec fn tail_of(t: Seq<char>, overlap: int) -> Seq<char> {
    let start = if t.len() > overlap { t.len() - overlap } else { 0 };
    t.subrange(start, t.len() as int)
}

/// How much overlap a piece of `len` characters can take and stay within `limit`: the
/// overlap, cut to the room left below the limit (none for a piece at or over it).
pub open spec fn overlap_room(overlap: int, limit: int, len: int) -> int {
    if len >= limit {
        0
    } else if limit - len < overlap {
        limit - len
    } else {
        overlap
    }
}

/// Each piece after the first is prefixed with a snapped tail of the piece before it, as
/// long as the piece has room for below `limit` (see `overlap_room`), and its offset moved
/// back by that much; nothing changes without overlap or with fewer than two pieces.
pub open spec fn apply_overlap_spec(ps: Seq<(Seq<char>, int)>, overlap: int, limit: int) -> Seq<(Seq<char>, int)> {
    if overlap == 0 || ps.len() < 2 {
        ps
    } else {
        Seq::new(
            ps.len(),
            |i: int|
                if i == 0 {
                    ps[0]
                } else {
                    let s = snap_overlap_spec(tail_of(ps[i - 1].0, overlap_room(overlap, limit, ps[i].0.len() as int)));
                    (s + ps[i].0, ps[i].1 - s.len())
                },
        )
    }
}

/// Law: overlap never takes a piece over `limit`: a piece within the limit stays within
/// it, and a longer one is left as it was.
pub proof fn lemma_overlap_respects_limit(ps: Seq<(Seq<char>, int)>, overlap: int, limit: int)
    requires
        overlap >= 0,
    ensures
        apply_overlap_spec(ps, overlap, limit).len() == ps.len(),
        forall|i: int|
            0 <= i < ps.len() ==> {
                &&& (ps[i].0.len() <= limit ==> (#[trigger] apply_overlap_spec(ps, overlap, limit)[i]).0.len() <= limit)
                &&& (ps[i].0.len() >= limit ==> apply_overlap_spec(ps, overlap, limit)[i] == ps[i])
            },
{
    let r = apply_overlap_spec(ps, overlap, limit);
    if overlap != 0 && ps.len() >= 2 {
        assert forall|i: int| 0 <= i < ps.len() implies {
            &&& (ps[i].0.len() <= limit ==> (#[trigger] r[i]).0.len() <= limit)
            &&& (ps[i].0.len() >= limit ==> r[i] == ps[i])
        } by {
            if i > 0 {
                let room = overlap_room(overlap, limit, ps[i].0.len() as int);
                lemma_overlap_is_suffix(ps[i - 1].0, room);
                let s = snap_overlap_spec(tail_of(ps[i - 1].0, room));
                if ps[i].0.len() >= limit {
                    assert(s.len() == 0);
                    assert(s + ps[i].0 =~= ps[i].0);
                }
            }
        }
    }
}

pub proof fn lemma_first_index(t: Seq<char>, p: spec_fn(char) -> bool, from: int)
    requires
        0 <= from,
    ensures
        match first_index(t, p, from) {
            Some(i) => from <= i < t.len() && p(t[i]),
            None => true,
        },
    decreases t.len() - from,
{
    if from < t.len() && !p(t[from]) {
        lemma_first_index(t, p, from + 1);
    }
}

pub proof fn lemma_snap_start(tail: Seq<char>)
    ensures
        0 <= snap_start(tail) <= tail.len(),
{
    lemma_first_index(tail, stop_or_dot_p(), 0);
    lemma_first_index(tail, ws_p(), 0);
}

/// Law: the text put in front of a piece is a piece of the end of the piece before it,
/// at most `overlap` characters long.
pub proof fn lemma_overlap_is_suffix(prev: Seq<char>, overlap: int)
    requires
        overlap >= 0,
    ensures
        snap_overlap_spec(tail_of(prev, overlap)).len() <= overlap,
        snap_overlap_spec(tail_of(prev, overlap)).len() <= prev.len(),
        snap_overlap_spec(tail_of(prev, overlap)) == prev.subrange(
            prev.len() - snap_overlap_spec(tail_of(prev, overlap)).len(),
            prev.len() as int,
        ),
{
    let tail = tail_of(prev, overlap);
    lemma_snap_start(tail);
    let st = if prev.len() > overlap { prev.len() - overlap } else { 0 };
    assert(tail.subrange(snap_start(tail), tail.len() as int) =~= prev.subrange(st + snap_start(tail), prev.len() as int));
}

fn first_index_exec(t: &Vec<char>, k: u8) -> (r: Option<usize>)
    requires
        k <= 1,
    ensures
        k == 0 ==> r == (match first_index(t@, stop_or_dot_p(), 0) {
            Some(i) => Some(i as usize),
            None => None::<usize>,
        }),
        k == 1 ==> r == (match first_index(t@, ws_p(), 0) {
            Some(i) => Some(i as usize),
            None => None::<usize>,
        }),
        match r {
            Some(i) => i < t.len(),
            None => true,
        },
{
    let mut j: usize = 0;
    while j < t.len()
        invariant
            j <= t.len(),
            k <= 1,
            k == 0 ==> first_index(t@, stop_or_dot_p(), 0) == first_index(t@, stop_or_dot_p(), j as int),
            k == 1 ==> first_index(t@, ws_p(), 0) == first_index(t@, ws_p(), j as int),
        decreases t.len() - j,
    {
        let c = t[j];
        let hit = if k == 0 {
            is_stop_exec(c) || c == '.'
        } else {
            is_ws_exec(c)
        };
        if hit {
            return Some(j);
        }
        j = j + 1;
    }
    None
}

/// Snaps an overlap tail to a sentence or word start (see `snap_overlap_spec`).
pub fn snap_overlap_head(tail: &Vec<char>) -> (r: Vec<char>)
    ensures
        r@ == snap_overlap_spec(tail@),
{
    proof {
        lemma_snap_start(tail@);
        lemma_first_index(tail@, stop_or_dot_p(), 0);
        lemma_first_index(tail@, ws_p(), 0);
    }
    let after = match first_index_exec(tail, 0) {
        Some(s) => {
            let n = run_exec(tail, s + 1, 1);
            s + 1 + n
        },
        None => 0,
    };
    if 0 < after && after < tail.len() {
        return slice_range(tail, after, tail.len());
    }
    let start = match first_index_exec(tail, 1) {
        Some(w) => if w < tail.len() - 1 {
            w + 1
        } else {
            0
        },
        None => 0,
    };
    slice_range(tail, start, tail.len())
}

/// Packs small neighbouring pieces (see `size_pieces_spec`).
pub fn size_pieces(ps: &Vec<Piece>, target: usize) -> (r: Vec<Piece>)
    ensures
        pieces_view(r@) == size_pieces_spec(pieces_view(ps@), target as int),
{
    let ghost v = pieces_view(ps@);
    let mut out: Vec<Piece> = Vec::new();
    let mut buf: Vec<char> = Vec::new();
    let mut off: usize = 0;
    let mut i: usize = 0;
    proof {
        assert(v.take(0) =~= Seq::<(Seq<char>, int)>::empty());
        assert(pieces_view(out@) =~= Seq::<(Seq<char>, int)>::empty());
    }
    while i < ps.len()
        invariant
            i <= ps.len(),
            v == pieces_view(ps@),
            (pieces_view(out@), buf@, off as int) == size_fold(v.take(i as int), target as int),
        decreases ps.len() - i,
    {
        let p = &ps[i];
        proof {
            assert(v.take(i + 1).drop_last() =~= v.take(i as int));
            assert(v.take(i + 1).last() == v[i as int]);
            assert(v[i as int] == piece_view(*p));
        }
        let ghost before = pieces_view(out@);
        if p.text.len() == 0 {
        } else if p.text.len() > target {
            if buf.len() > 0 {
                out.push(Piece { text: copy_chars(&buf), offset: off });
            }
            out.push(Piece { text: copy_chars(&p.text), offset: p.offset });
            proof {
                if buf.len() > 0 {
                    assert(pieces_view(out@) =~= before.push((buf@, off as int)).push(piece_view(*p)));
                } else {
                    assert(pieces_view(out@) =~= before.push(piece_view(*p)));
                }
            }
            buf = Vec::new();
            off = 0;
            proof {
                assert(buf@ =~= Seq::<char>::empty());
            }
        } else if buf.len() > target - p.text.len() && buf.len() > 0 {
            out.push(Piece { text: copy_chars(&buf), offset: off });
            proof {
                assert(pieces_view(out@) =~= before.push((buf@, off as int)));
            }
            buf = copy_chars(&p.text);
            off = p.offset;
        } else if buf.len() == 0 {
            buf = copy_chars(&p.text);
            off = p.offset;
        } else {
            append_chars(&mut buf, &p.text);
        }
        i = i + 1;
    }
    proof {
        assert(v.take(ps.len() as int) =~= v);
    }
    if buf.len() > 0 {
        let ghost before = pieces_view(out@);
        out.push(Piece { text: buf, offset: off });
        proof {
            assert(pieces_view(out@) =~= before.push((buf@, off as int)));
        }
    }
    out
}

/// Merges pieces shorter than `min` into the next while the two fit in `max` (see
/// `merge_small_spec`).
pub fn merge_small(ps: &Vec<Piece>, min: usize, max: usize) -> (r: Vec<Piece>)
    ensures
        pieces_view(r@) == merge_small_spec(pieces_view(ps@), min as int, max as int),
{
    let ghost v = pieces_view(ps@);
    let mut out: Vec<Piece> = Vec::new();
    let mut i: usize = 0;
    proof {
        assert(v.take(0) =~= Seq::<(Seq<char>, int)>::empty());
        assert(pieces_view(out@) =~= Seq::<(Seq<char>, int)>::empty());
    }
    while i < ps.len()
        invariant
            i <= ps.len(),
            v == pieces_view(ps@),
            pieces_view(out@) == merge_small_spec(v.take(i as int), min as int, max as int),
        decreases ps.len() - i,
    {
        let p = &ps[i];
        proof {
            assert(v.take(i + 1).drop_last() =~= v.take(i as int));
            assert(v.take(i + 1).last() == v[i as int]);
            assert(v[i as int] == piece_view(*p));
        }
        let ghost before = pieces_view(out@);
        let n = out.len();
        if n > 0 && out[n - 1].text.len() < min && p.text.len() <= max && out[n - 1].text.len() <= max - p.text.len() {
            let last = out.pop().unwrap();
            let mut t = last.text;
            append_chars(&mut t, &p.text);
            out.push(Piece { text: t, offset: last.offset });
            proof {
                assert(before.last() == piece_view(last));
                assert(pieces_view(out@) =~= before.drop_last().push((before.last().0 + v[i as int].0, before.last().1)));
            }
        } else {
            out.push(Piece { text: copy_chars(&p.text), offset: p.offset });
            proof {
                assert(pieces_view(out@) =~= before.push(v[i as int]));
            }
        }
        i = i + 1;
    }
    proof {
        assert(v.take(ps.len() as int) =~= v);
    }
    out
}

/// Prefixes each piece after the first with a snapped tail of the piece before it (see
/// `apply_overlap_spec`).
pub fn apply_overlap(ps: &Vec<Piece>, overlap: usize, limit: usize) -> (r: Vec<Piece>)
    requires
        forall|a: int, b: int| 0 <= a < b < ps.len() ==> #[trigger] ps@[a].offset + ps@[a].text.len() <= #[trigger] ps@[b].offset,
    ensures
        pieces_view(r@) == apply_overlap_spec(pieces_view(ps@), overlap as int, limit as int),
{
    let ghost v = pieces_view(ps@);
    if overlap == 0 || ps.len() < 2 {
        let mut out: Vec<Piece> = Vec::new();
        let mut i: usize = 0;
        while i < ps.len()
            invariant
                i <= ps.len(),
                v == pieces_view(ps@),
                pieces_view(out@) == v.take(i as int),
            decreases ps.len() - i,
        {
            let ghost before = pieces_view(out@);
            out.push(Piece { text: copy_chars(&ps[i].text), offset: ps[i].offset });
            proof {
                assert(v[i as int] == piece_view(ps@[i as int]));
                assert(piece_view(out@.last()) == v[i as int]);
                assert(pieces_view(out@) =~= before.push(v[i as int]));
                assert(before.push(v[i as int]) =~= v.take(i + 1));
            }
            i = i + 1;
        }
        proof {
            assert(v.take(ps.len() as int) =~= v);
        }
        return out;
    }
    let ghost want = apply_overlap_spec(v, overlap as int, limit as int);
    let mut out: Vec<Piece> = Vec::new();
    out.push(Piece { text: copy_chars(&ps[0].text), offset: ps[0].offset });
    proof {
        assert(pieces_view(out@) =~= want.take(1));
    }
    let mut i: usize = 1;
    while i < ps.len()
        invariant
            1 <= i <= ps.len(),
            overlap > 0,
            v == pieces_view(ps@),
            want == apply_overlap_spec(v, overlap as int, limit as int),
            v.len() >= 2,
            pieces_view(out@) == want.take(i as int),
            forall|a: int, b: int| 0 <= a < b < ps.len() ==> #[trigger] ps@[a].offset + ps@[a].text.len() <= #[trigger] ps@[b].offset,
        decreases ps.len() - i,
    {
        let prev = &ps[i - 1];
        let curr = &ps[i];
        let room = if curr.text.len() >= limit {
            0
        } else if limit - curr.text.len() < overlap {
            limit - curr.text.len()
        } else {
            overlap
        };
        let tail_start = if prev.text.len() > room { prev.text.len() - room } else { 0 };
        let tail = slice_range(&prev.text, tail_start, prev.text.len());
        let snapped = snap_overlap_head(&tail);
        proof {
            assert(room == overlap_room(overlap as int, limit as int, curr.text@.len() as int));
            assert(tail@ == tail_of(prev.text@, room as int));
            lemma_overlap_is_suffix(prev.text@, room as int);
            assert(ps@[i - 1].offset + ps@[i - 1].text.len() <= ps@[i as int].offset);
        }
        let mut text = copy_chars(&snapped);
        append_chars(&mut text, &curr.text);
        let ghost before = pieces_view(out@);
        out.push(Piece { text, offset: curr.offset - snapped.len() });
        proof {
            assert(v[i as int] == piece_view(*curr));
            assert(v[i - 1] == piece_view(*prev));
            assert(want[i as int] == (snapped@ + curr.text@, curr.offset - snapped@.len()));
            assert(pieces_view(out@) =~= before.push(want[i as int]));
            assert(before.push(want[i as int]) =~= want.take(i + 1));
        }
        i = i + 1;
    }
    proof {
        assert(want.take(ps.len() as int) =~= want);
    }
    out
}

pub proof fn lemma_contiguous_ordered(ps: Seq<(Seq<char>, int)>, base: int)
    requires
        contiguous(ps, base),
    ensures
        ordered(ps),
        within(ps, base, base + concat(texts_of(ps)).len()),
{
    let ts = texts_of(ps);
    assert forall|q: int| 0 <= q < ps.len() implies #[trigger] end_of(ps[q]) == base + concat(texts_of(ps.take(q + 1))).len() by {
        assert(texts_of(ps.take(q)) =~= ts.take(q));
        assert(texts_of(ps.take(q + 1)) =~= ts.take(q + 1));
        lemma_concat_take_len(ts, q);
    }
    assert forall|a: int, b: int| 0 <= a < b < ps.len() implies end_of(#[trigger] ps[a]) <= #[trigger] ps[b].1 by {
        assert(texts_of(ps.take(a + 1)) =~= ts.take(a + 1));
        assert(texts_of(ps.take(b)) =~= ts.take(b));
        assert(ts.take(b) =~= ts.take(a + 1) + ts.subrange(a + 1, b));
        lemma_concat_append(ts.take(a + 1), ts.subrange(a + 1, b));
        assert(end_of(ps[a]) == base + concat(texts_of(ps.take(a + 1))).len());
    }
    assert forall|q: int| 0 <= q < ps.len() implies base <= #[trigger] ps[q].1 && end_of(ps[q]) <= base + concat(ts).len() by {
        assert(texts_of(ps.take(q + 1)) =~= ts.take(q + 1));
        lemma_concat_take_len(ts, q + 1);
        assert(end_of(ps[q]) == base + concat(texts_of(ps.take(q + 1))).len());
    }
}

/// Ordered pieces between `lo` and `hi` all end by the end of the last one.
pub proof fn lemma_within_last(ps: Seq<(Seq<char>, int)>, lo: int, hi: int)
    requires
        ordered(ps),
        within(ps, lo, hi),
    ensures
        within(ps, lo, if ps.len() > 0 { end_of(ps.last()) } else { lo }),
        ps.len() > 0 ==> end_of(ps.last()) <= hi,
{
    if ps.len() > 0 {
        assert forall|q: int| 0 <= q < ps.len() implies lo <= #[trigger] ps[q].1 && end_of(ps[q]) <= end_of(ps.last()) by {
            if q < ps.len() - 1 {
                assert(end_of(ps[q]) <= ps[ps.len() - 1].1);
            }
        }
    }
}

/// Overlap keeps pieces inside the bounds of the pieces it was given.
pub proof fn lemma_overlap_within(ps: Seq<(Seq<char>, int)>, overlap: int, limit: int, lo: int, hi: int)
    requires
        ordered(ps),
        within(ps, lo, hi),
        overlap >= 0,
    ensures
        within(apply_overlap_spec(ps, overlap, limit), lo, hi),
        apply_overlap_spec(ps, overlap, limit).len() == ps.len(),
{
    if overlap != 0 && ps.len() >= 2 {
        let r = apply_overlap_spec(ps, overlap, limit);
        assert forall|q: int| 0 <= q < r.len() implies lo <= #[trigger] r[q].1 && end_of(r[q]) <= hi by {
            if q > 0 {
                lemma_overlap_is_suffix(ps[q - 1].0, overlap_room(overlap, limit, ps[q].0.len() as int));
                assert(end_of(ps[q - 1]) <= ps[q].1);
            }
        }
    }
}

/// Every piece is at most `target` characters long.
pub open spec fn pieces_fit(ps: Seq<(Seq<char>, int)>, target: int) -> bool {
    forall|q: int| 0 <= q < ps.len() ==> #[trigger] ps[q].0.len() <= target
}

/// `x` is one of the pieces `ps`, unchanged.
pub open spec fn listed(ps: Seq<(Seq<char>, int)>, x: (Seq<char>, int)) -> bool {
    exists|j: int| 0 <= j < ps.len() && #[trigger] ps[j] == x
}

/// Every piece is at most `bound` characters long or is one of `src`, unchanged.
pub open spec fn short_or_listed(ps: Seq<(Seq<char>, int)>, bound: int, src: Seq<(Seq<char>, int)>) -> bool {
    forall|q: int| 0 <= q < ps.len() ==> (#[trigger] ps[q]).0.len() <= bound || listed(src, ps[q])
}

pub proof fn lemma_split_long_fits(c: Seq<char>, at: int, target: int)
    requires
        target > 0,
    ensures
        pieces_fit(split_long(c, at, target), target),
{
    let r = split_long(c, at, target);
    if cut_by(c, SepKind::Lines, target) || cut_by(c, SepKind::Sentences, target) || cut_by(c, SepKind::Spaces, target) {
        let k = if cut_by(c, SepKind::Lines, target) {
            SepKind::Lines
        } else if cut_by(c, SepKind::Sentences, target) {
            SepKind::Sentences
        } else {
            SepKind::Spaces
        };
        let parts = split_keep(c, k);
        lemma_place(parts, at);
        assert(r == place(parts, at));
        assert forall|q: int| 0 <= q < r.len() implies #[trigger] r[q].0.len() <= target by {
            assert(texts_of(r)[q] == r[q].0);
            assert(parts[q].len() <= target);
        }
    } else {
        lemma_hard_slices(c, at, target);
    }
}

pub proof fn lemma_paras_fit(paras: Seq<Seq<char>>, base: int, target: int)
    requires
        target > 0,
    ensures
        pieces_fit(paras_pieces(paras, base, target), target),
    decreases paras.len(),
{
    if paras.len() > 0 {
        lemma_paras_fit(paras.drop_last(), base, target);
        let a = paras_pieces(paras.drop_last(), base, target);
        let c = paras.last();
        let at = base + concat(paras.drop_last()).len();
        let b = para_pieces(c, at, target);
        if c.len() > target {
            lemma_split_long_fits(c, at, target);
        }
        assert forall|q: int| 0 <= q < (a + b).len() implies #[trigger] (a + b)[q].0.len() <= target by {
            if q < a.len() {
                assert((a + b)[q] == a[q]);
            } else {
                assert((a + b)[q] == b[q - a.len()]);
            }
        }
    }
}

/// Law: cutting a long text gives pieces of at most `target` characters.
pub proof fn lemma_recursive_split_fits(t: Seq<char>, base: int, target: int)
    requires
        target > 0,
    ensures
        pieces_fit(recursive_split_spec(t, base, target), target),
{
    lemma_paras_fit(split_keep(t, SepKind::Paragraphs), base, target);
}

proof fn lemma_size_fold_bound(ps: Seq<(Seq<char>, int)>, target: int)
    requires
        target >= 0,
    ensures
        short_or_listed(size_fold(ps, target).0, target, ps),
        size_fold(ps, target).1.len() <= target,
    decreases ps.len(),
{
    if ps.len() > 0 {
        let pre = ps.drop_last();
        lemma_size_fold_bound(pre, target);
        let st = size_fold(pre, target);
        let p = ps.last();
        let r = size_step(st, p, target);
        assert forall|q: int| 0 <= q < r.0.len() implies (#[trigger] r.0[q]).0.len() <= target || listed(ps, r.0[q]) by {
            if q < st.0.len() {
                assert(r.0[q] == st.0[q]);
                if !(st.0[q].0.len() <= target) {
                    let j = choose|j: int| 0 <= j < pre.len() && #[trigger] pre[j] == st.0[q];
                    assert(ps[j] == st.0[q]);
                }
            } else if r.0[q] == p {
                assert(ps[ps.len() - 1] == p);
            }
        }
    }
}

/// Law: packing gives pieces of at most `target` characters, but for longer pieces it
/// was given, which it keeps as they were.
pub proof fn lemma_size_pieces_bound(ps: Seq<(Seq<char>, int)>, target: int)
    requires
        target >= 0,
    ensures
        short_or_listed(size_pieces_spec(ps, target), target, ps),
{
    lemma_size_fold_bound(ps, target);
    let st = size_fold(ps, target);
    let r = size_pieces_spec(ps, target);
    assert forall|q: int| 0 <= q < r.len() implies (#[trigger] r[q]).0.len() <= target || listed(ps, r[q]) by {
        if q < st.0.len() {
            assert(r[q] == st.0[q]);
        }
    }
}

/// Law: merging gives pieces of at most `max` characters, but for longer pieces it was
/// given, which it keeps as they were.
pub proof fn lemma_merge_small_bound(ps: Seq<(Seq<char>, int)>, min: int, max: int)
    ensures
        short_or_listed(merge_small_spec(ps, min, max), max, ps),
    decreases ps.len(),
{
    if ps.len() > 0 {
        let pre = ps.drop_last();
        lemma_merge_small_bound(pre, min, max);
        let out = merge_small_spec(pre, min, max);
        let p = ps.last();
        let r = merge_step(out, p, min, max);
        assert forall|q: int| 0 <= q < r.len() implies (#[trigger] r[q]).0.len() <= max || listed(ps, r[q]) by {
            if out.len() > 0 && out.last().0.len() < min && out.last().0.len() + p.0.len() <= max {
                if q < out.len() - 1 {
                    assert(r[q] == out[q]);
                    if !(out[q].0.len() <= max) {
                        let j = choose|j: int| 0 <= j < pre.len() && #[trigger] pre[j] == out[q];
                        assert(ps[j] == out[q]);
                    }
                }
            } else {
                if q < out.len() {
                    assert(r[q] == out[q]);
                    if !(out[q].0.len() <= max) {
                        let j = choose|j: int| 0 <= j < pre.len() && #[trigger] pre[j] == out[q];
                        assert(ps[j] == out[q]);
                    }
                } else {
                    assert(r[q] == p);
                    assert(ps[ps.len() - 1] == p);
                }
            }
        }
    }
}

} // verus!
