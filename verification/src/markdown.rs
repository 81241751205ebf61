use vstd::prelude::*;

use crate::pieces::{run_while, ws_p, lemma_run_bounds};
use crate::text::{
    all_ws, all_ws_exec, append_chars, chars_of, has_at, has_at_exec, join_with, join_exec, lead_ws,
    lemma_lead_ws, slice_range, copy_of, split_on, split_on_exec, trim, trim_exec, is_ws, is_ws_exec,
};

verus! {

/// Where the closing `---` line of front matter that starts at `p` ends: after the white
/// space that follows it, back to its last line break, or at the end of the text.
pub open spec fn close_end(rest: Seq<char>, p: int) -> Option<int> {
    if !has_at(rest, p, seq!['-', '-', '-']) {
        None
    } else {
        let q = p + 3;
        let w = run_while(rest, q, ws_p());
        if q + w == rest.len() {
            Some(q + w)
        } else {
            match last_nl(rest, q, q + w) {
                Some(j) => Some(j + 1),
                None => None,
            }
        }
    }
}

/// The last line break in `t[from..to]`.
pub open spec fn last_nl(t: Seq<char>, from: int, to: int) -> Option<int>
    decreases to - from,
{
    if to <= from {
        None
    } else if t[to - 1] == '\n' {
        Some(to - 1)
    } else {
        last_nl(t, from, to - 1)
    }
}

/// The end of the first closing line `---` of front matter in `rest` that starts at the
/// beginning or after a line break, searching from `s` on.
pub open spec fn fm_close_from(rest: Seq<char>, s: int) -> Option<int>
    decreases rest.len() - s,
{
    if s < 0 || s >= rest.len() {
        None
    } else {
        let first = if s == 0 { close_end(rest, 0) } else { None };
        match first {
            Some(e) => Some(e),
            None => if rest[s] == '\n' && close_end(rest, s + 1) is Some {
                close_end(rest, s + 1)
            } else {
                fm_close_from(rest, s + 1)
            },
        }
    }
}

/// The body after YAML front matter and its offset: front matter opens with a first line
/// `---` and closes with the next line `---`; without both, the whole text at offset 0.
pub open spec fn strip_frontmatter_spec(content: Seq<char>) -> (Seq<char>, int) {
    if !(has_at(content, 0, seq!['-', '-', '-', '\n']) || has_at(content, 0, seq!['-', '-', '-', '\r', '\n'])) {
        (content, 0)
    } else {
        match fm_close_from(content.subrange(4, content.len() as int), 0) {
            Some(e) => (content.subrange(4 + e, content.len() as int), 4 + e),
            None => (content, 0),
        }
    }
}

pub proof fn lemma_last_nl(t: Seq<char>, from: int, to: int)
    ensures
        match last_nl(t, from, to) {
            Some(j) => from <= j < to,
            None => true,
        },
    decreases to - from,
{
    if to > from && t[to - 1] != '\n' {
        lemma_last_nl(t, from, to - 1);
    }
}

pub proof fn lemma_close_end(rest: Seq<char>, p: int)
    requires
        0 <= p,
    ensures
        match close_end(rest, p) {
            Some(e) => p < e <= rest.len(),
            None => true,
        },
{
    if has_at(rest, p, seq!['-', '-', '-']) {
        lemma_run_bounds(rest, p + 3, ws_p());
        lemma_last_nl(rest, p + 3, p + 3 + run_while(rest, p + 3, ws_p()));
    }
}

pub proof fn lemma_fm_close_from(rest: Seq<char>, s: int)
    requires
        0 <= s,
    ensures
        match fm_close_from(rest, s) {
            Some(e) => 0 < e <= rest.len(),
            None => true,
        },
    decreases rest.len() - s,
{
    if s < rest.len() {
        lemma_close_end(rest, 0);
        lemma_close_end(rest, s + 1);
        lemma_fm_close_from(rest, s + 1);
    }
}

fn close_end_exec(rest: &Vec<char>, p: usize, dash: &Vec<char>) -> (r: Option<usize>)
    requires
        p <= rest.len(),
        dash@ == seq!['-', '-', '-'],
    ensures
        match r {
            Some(e) => close_end(rest@, p as int) == Some(e as int),
            None => close_end(rest@, p as int) is None,
        },
{
    if !has_at_exec(rest, p, dash) {
        return None;
    }
    let q = p + 3;
    let mut j = q;
    while j < rest.len() && is_ws_exec(rest[j])
        invariant
            q <= j <= rest.len(),
            run_while(rest@, q as int, ws_p()) == (j - q) + run_while(rest@, j as int, ws_p()),
        decreases rest.len() - j,
    {
        j = j + 1;
    }
    if j == rest.len() {
        return Some(j);
    }
    let mut k = j;
    while k > q && rest[k - 1] != '\n'
        invariant
            q <= k <= j,
            j < rest.len(),
            last_nl(rest@, q as int, j as int) == last_nl(rest@, q as int, k as int),
        decreases k - q,
    {
        k = k - 1;
    }
    if k > q {
        Some(k)
    } else {
        None
    }
}

/// The body of a page without its front matter (a `---` block at the very start),
/// and the character offset where the body begins.
pub fn strip_frontmatter(content: &str) -> (r: (String, usize))
    ensures
        (r.0@, r.1 as int) == strip_frontmatter_spec(content@),
{
    let cs = crate::text::chars_of(content);
    let (body, offset) = strip_frontmatter_chars(&cs);
    (crate::text::string_of(&body), offset)
}

/// Strips YAML front matter (see `strip_frontmatter_spec`).
pub fn strip_frontmatter_chars(content: &Vec<char>) -> (r: (Vec<char>, usize))
    ensures
        (r.0@, r.1 as int) == strip_frontmatter_spec(content@),
{
    let open1 = chars_of("---\n");
    let open2 = chars_of("---\r\n");
    let dash = chars_of("---");
    proof {
        reveal_strlit("---\n");
        reveal_strlit("---\r\n");
        reveal_strlit("---");
        assert(open1@ =~= seq!['-', '-', '-', '\n']);
        assert(open2@ =~= seq!['-', '-', '-', '\r', '\n']);
        assert(dash@ =~= seq!['-', '-', '-']);
    }
    if !(has_at_exec(content, 0, &open1) || has_at_exec(content, 0, &open2)) {
        return (slice_range(content, 0, content.len()), 0);
    }
    let rest = slice_range(content, 4, content.len());
    let mut s: usize = 0;
    let mut found: Option<usize> = None;
    while s < rest.len() && found.is_none()
        invariant
            s <= rest.len(),
            dash@ == seq!['-', '-', '-'],
            fm_close_from(rest@, 0) == (match found {
                Some(e) => Some(e as int),
                None => fm_close_from(rest@, s as int),
            }),
        decreases rest.len() - s + (if found is None { 1int } else { 0int }),
    {
        if s == 0 {
            found = close_end_exec(&rest, 0, &dash);
        }
        if found.is_none() && rest[s] == '\n' {
            found = close_end_exec(&rest, s + 1, &dash);
        }
        if found.is_none() {
            s = s + 1;
        }
    }
    proof {
        lemma_fm_close_from(rest@, 0);
    }
    match found {
        Some(e) => {
            (slice_range(content, 4 + e, content.len()), 4 + e)
        },
        None => {
            (slice_range(content, 0, content.len()), 0)
        },
    }
}

/// The room the lines take in the text they were split from: each line and its break.
pub open spec fn total_span(ls: Seq<Seq<char>>) -> int
    decreases ls.len(),
{
    if ls.len() == 0 {
        0
    } else {
        total_span(ls.drop_last()) + ls.last().len() + 1
    }
}

pub proof fn lemma_span_push(ls: Seq<Seq<char>>, x: Seq<char>)
    ensures
        total_span(ls.push(x)) == total_span(ls) + x.len() + 1,
{
    assert(ls.push(x).drop_last() =~= ls);
}

pub proof fn lemma_span_nonneg(ls: Seq<Seq<char>>)
    ensures
        total_span(ls) >= ls.len(),
    decreases ls.len(),
{
    if ls.len() > 0 {
        lemma_span_nonneg(ls.drop_last());
    }
}

/// The lines of a text, with their breaks, take the text's length and one more.
pub proof fn lemma_split_span(t: Seq<char>)
    ensures
        total_span(split_on(t, '\n')) == t.len() + 1,
    decreases t.len(),
{
    if t.len() == 0 {
        assert(split_on(t, '\n') =~= seq![Seq::<char>::empty()]);
        assert(seq![Seq::<char>::empty()].drop_last() =~= Seq::<Seq<char>>::empty());
        assert(total_span(Seq::<Seq<char>>::empty()) == 0);
    } else {
        lemma_split_span(t.drop_last());
        let rest = split_on(t.drop_last(), '\n');
        crate::text::lemma_split_on_nonempty(t.drop_last(), '\n');
        if t.last() == '\n' {
            lemma_span_push(rest, Seq::empty());
        } else {
            let u = rest.update(rest.len() - 1, rest.last().push(t.last()));
            assert(split_on(t, '\n') == u);
            assert(u.drop_last() =~= rest.drop_last());
            assert(u.last() == rest.last().push(t.last()));
            assert(total_span(u) == total_span(u.drop_last()) + u.last().len() + 1);
            assert(total_span(rest) == total_span(rest.drop_last()) + rest.last().len() + 1);
        }
    }
}

/// Joining lines with line breaks gives a text one shorter than their room.
pub proof fn lemma_join_span(ls: Seq<Seq<char>>)
    requires
        ls.len() > 0,
    ensures
        join_with(ls, "\n"@).len() == total_span(ls) - 1,
    decreases ls.len(),
{
    reveal_strlit("\n");
    if ls.len() == 1 {
        assert(ls.drop_last() =~= Seq::<Seq<char>>::empty());
        assert(total_span(Seq::<Seq<char>>::empty()) == 0);
        assert(join_with(ls, "\n"@) == ls[0]);
    } else {
        lemma_join_span(ls.drop_last());
    }
}

pub proof fn lemma_span_take(ls: Seq<Seq<char>>, i: int)
    requires
        0 <= i < ls.len(),
    ensures
        total_span(ls.take(i + 1)) == total_span(ls.take(i)) + ls[i].len() + 1,
        total_span(ls.take(i)) <= total_span(ls),
{
    assert(ls.take(i + 1).drop_last() =~= ls.take(i));
    lemma_span_mono(ls, i + 1);
}

pub proof fn lemma_span_mono(ls: Seq<Seq<char>>, i: int)
    requires
        0 <= i <= ls.len(),
    ensures
        total_span(ls.take(i)) <= total_span(ls),
    decreases ls.len() - i,
{
    if i < ls.len() {
        lemma_span_mono(ls, i + 1);
        assert(ls.take(i + 1).drop_last() =~= ls.take(i));
    } else {
        assert(ls.take(i) =~= ls);
    }
}

pub open spec fn same_p(c: char) -> spec_fn(char) -> bool {
    |x: char| x == c
}

/// The length of the code fence that opens line `l`: three or more backticks or tildes at
/// its very start; 0 when the line opens no fence.
pub open spec fn fence_run(l: Seq<char>) -> nat {
    if l.len() > 0 && (l[0] == '`' || l[0] == '~') && run_while(l, 0, same_p(l[0])) >= 3 {
        run_while(l, 0, same_p(l[0]))
    } else {
        0
    }
}

/// A markdown heading line: one to six `#`, white space, and a title; the level and
/// the trimmed title.
pub open spec fn heading_of(l: Seq<char>) -> Option<(int, Seq<char>)> {
    let h = run_while(l, 0, same_p('#'));
    if 1 <= h <= 6 && h < l.len() && is_ws(l[h as int]) {
        let w = run_while(l, h as int, ws_p());
        let r = l.subrange((h + w) as int, l.len() as int);
        if r.len() > 0 || w >= 2 {
            Some((h as int, trim(r)))
        } else {
            None
        }
    } else {
        None
    }
}

pub open spec fn hashes(n: int) -> Seq<char> {
    Seq::new(n as nat, |i: int| '#')
}

/// The breadcrumb parts of the headings in force at levels `1..=k`.
pub open spec fn path_parts(heads: Seq<Option<Seq<char>>>, k: int) -> Seq<Seq<char>>
    decreases k,
{
    if k <= 0 {
        Seq::empty()
    } else {
        path_parts(heads, k - 1) + match heads[k - 1] {
            Some(t) => seq![hashes(k) + seq![' '] + t],
            None => Seq::empty(),
        }
    }
}

/// The heading breadcrumb, e.g. `## Intro > ### Usage`.
pub open spec fn heading_path(heads: Seq<Option<Seq<char>>>) -> Seq<char> {
    join_with(path_parts(heads, 6), " > "@)
}

/// The state of the section scan.
pub struct SectionScan {
    pub sections: Seq<(Seq<char>, int, Seq<char>)>,
    pub heads: Seq<Option<Seq<char>>>,
    pub cur: Seq<Seq<char>>,
    pub start: int,
    pub path: Seq<char>,
    pub in_fence: bool,
    /// The first character of the line that opened the fence in force.
    pub marker: Seq<char>,
    pub cursor: int,
}

pub open spec fn scan_init(offset: int) -> SectionScan {
    SectionScan {
        sections: Seq::empty(),
        heads: Seq::new(6, |k: int| None::<Seq<char>>),
        cur: Seq::empty(),
        start: offset,
        path: Seq::empty(),
        in_fence: false,
        marker: Seq::empty(),
        cursor: offset,
    }
}

/// The sections with the lines gathered so far added, when they are not blank.
pub open spec fn flushed(sc: SectionScan) -> Seq<(Seq<char>, int, Seq<char>)> {
    let text = join_with(sc.cur, "\n"@);
    if !all_ws(text) {
        sc.sections.push((text, sc.start, sc.path))
    } else {
        sc.sections
    }
}

/// The headings in force after a heading of level `lvl` titled `title`.
pub open spec fn heads_after(heads: Seq<Option<Seq<char>>>, lvl: int, title: Seq<char>) -> Seq<Option<Seq<char>>> {
    Seq::new(6, |k: int| if k == lvl - 1 { Some(title) } else if k >= lvl { None } else { heads[k] })
}

/// One line of the scan: outside a fence, a fence line opens one and the scan keeps its
/// first character as the marker; inside, a fence line ends it only when it starts with
/// that marker and, trimmed, is the marker itself (`closes_code`), which a run of three
/// or more never is, so a fence opened in a body stays open to the body's end. A heading
/// outside a fence starts a new section; any other line joins the current section.
pub open spec fn scan_step(sc: SectionScan, line: Seq<char>, ll: int) -> SectionScan {
    if fence_run(line) > 0 {
        let (f, m) = if !sc.in_fence {
            (true, line.subrange(0, 1))
        } else if closes_code(line, sc.marker) {
            (false, sc.marker)
        } else {
            (sc.in_fence, sc.marker)
        };
        SectionScan { cur: sc.cur.push(line), in_fence: f, marker: m, cursor: sc.cursor + ll, ..sc }
    } else if !sc.in_fence && heading_of(line) is Some {
        let (lvl, title) = heading_of(line)->0;
        let heads = heads_after(sc.heads, lvl, title);
        SectionScan {
            sections: flushed(sc),
            heads: heads,
            cur: seq![line],
            start: sc.cursor,
            path: heading_path(heads),
            cursor: sc.cursor + ll,
            ..sc
        }
    } else {
        SectionScan { cur: sc.cur.push(line), cursor: sc.cursor + ll, ..sc }
    }
}

/// The room line `i` of `n` takes: its length and, but for the last line, its break.
pub open spec fn line_room(lines: Seq<Seq<char>>, i: int) -> int {
    lines[i].len() + if i < lines.len() - 1 { 1int } else { 0int }
}

pub open spec fn scan_run(lines: Seq<Seq<char>>, offset: int, i: int) -> SectionScan
    decreases i,
{
    if i <= 0 {
        scan_init(offset)
    } else {
        scan_step(scan_run(lines, offset, i - 1), lines[i - 1], line_room(lines, i - 1))
    }
}

/// The sections of a markdown body at offset `offset`: each heading outside a code fence
/// starts a section that runs to the next such heading; blank sections are dropped. Each
/// section has its text, its offset and its heading breadcrumb.
pub open spec fn sections_spec(body: Seq<char>, offset: int) -> Seq<(Seq<char>, int, Seq<char>)> {
    let lines = split_on(body, '\n');
    flushed(scan_run(lines, offset, lines.len() as int))
}

pub open spec fn opts_view(v: Seq<Option<Vec<char>>>) -> Seq<Option<Seq<char>>> {
    v.map_values(|o: Option<Vec<char>>| match o {
        Some(x) => Some(x@),
        None => None,
    })
}

pub open spec fn lines_view(v: Seq<Vec<char>>) -> Seq<Seq<char>> {
    v.map_values(|l: Vec<char>| l@)
}

/// A section of a markdown body: its text, where it starts, and its heading breadcrumb.
pub struct Section {
    pub text: Vec<char>,
    pub body_start: usize,
    pub heading_path: Vec<char>,
}

pub open spec fn section_view(s: Section) -> (Seq<char>, int, Seq<char>) {
    (s.text@, s.body_start as int, s.heading_path@)
}

pub open spec fn sections_view(v: Seq<Section>) -> Seq<(Seq<char>, int, Seq<char>)> {
    v.map_values(|s: Section| section_view(s))
}

fn same_run(l: &Vec<char>, from: usize, c: char) -> (r: usize)
    requires
        from <= l.len(),
    ensures
        r == run_while(l@, from as int, same_p(c)),
        from + r <= l.len(),
{
    let mut j = from;
    while j < l.len() && l[j] == c
        invariant
            from <= j <= l.len(),
            run_while(l@, from as int, same_p(c)) == (j - from) + run_while(l@, j as int, same_p(c)),
        decreases l.len() - j,
    {
        j = j + 1;
    }
    j - from
}

fn ws_run(l: &Vec<char>, from: usize) -> (r: usize)
    requires
        from <= l.len(),
    ensures
        r == run_while(l@, from as int, ws_p()),
        from + r <= l.len(),
{
    let mut j = from;
    while j < l.len() && is_ws_exec(l[j])
        invariant
            from <= j <= l.len(),
            run_while(l@, from as int, ws_p()) == (j - from) + run_while(l@, j as int, ws_p()),
        decreases l.len() - j,
    {
        j = j + 1;
    }
    j - from
}

pub fn fence_run_exec(l: &Vec<char>) -> (r: usize)
    ensures
        r == fence_run(l@),
        r <= l.len(),
{
    if l.len() > 0 && (l[0] == '`' || l[0] == '~') {
        let n = same_run(l, 0, l[0]);
        if n >= 3 {
            return n;
        }
    }
    0
}

pub fn heading_exec(l: &Vec<char>) -> (r: Option<(usize, Vec<char>)>)
    ensures
        match r {
            Some((lvl, t)) => heading_of(l@) == Some((lvl as int, t@)),
            None => heading_of(l@) is None,
        },
{
    let h = same_run(l, 0, '#');
    if 1 <= h && h <= 6 && h < l.len() && is_ws_exec(l[h]) {
        let w = ws_run(l, h);
        let r = slice_range(l, h + w, l.len());
        if r.len() > 0 || w >= 2 {
            return Some((h, trim_exec(&r)));
        }
    }
    None
}

fn copy_opt(o: &Option<Vec<char>>) -> (r: Option<Vec<char>>)
    ensures
        match r {
            Some(x) => o.is_some() && o.unwrap()@ == x@,
            None => o.is_none(),
        },
{
    match o {
        Some(x) => Some(copy_of(x)),
        None => None,
    }
}

fn heads_after_exec(heads: &Vec<Option<Vec<char>>>, lvl: usize, title: &Vec<char>) -> (r: Vec<Option<Vec<char>>>)
    requires
        heads.len() == 6,
    ensures
        r.len() == 6,
        opts_view(r@) == heads_after(opts_view(heads@), lvl as int, title@),
{
    let mut out: Vec<Option<Vec<char>>> = Vec::new();
    let mut k: usize = 0;
    while k < 6
        invariant
            k <= 6,
            heads.len() == 6,
            out.len() == k,
            forall|q: int| 0 <= q < k ==> #[trigger] opts_view(out@)[q] == heads_after(opts_view(heads@), lvl as int, title@)[q],
        decreases 6 - k,
    {
        let ghost before = out@;
        let ghost want = heads_after(opts_view(heads@), lvl as int, title@);
        if k + 1 == lvl {
            out.push(Some(copy_of(title)));
            proof {
                assert(opts_view(out@)[k as int] == Some(title@));
            }
        } else if k >= lvl {
            out.push(None);
            proof {
                assert(opts_view(out@)[k as int] == None::<Seq<char>>);
            }
        } else {
            out.push(copy_opt(&heads[k]));
            proof {
                assert(opts_view(out@)[k as int] == opts_view(heads@)[k as int]);
            }
        }
        proof {
            assert(opts_view(out@)[k as int] == want[k as int]);
            assert forall|q: int| 0 <= q < k + 1 implies #[trigger] opts_view(out@)[q] == heads_after(opts_view(heads@), lvl as int, title@)[q] by {
                if q < k {
                    assert(out@[q] == before[q]);
                    assert(opts_view(before)[q] == want[q]);
                    assert(opts_view(out@)[q] == opts_view(before)[q]);
                }
            }
        }
        k = k + 1;
    }
    proof {
        assert(opts_view(out@) =~= heads_after(opts_view(heads@), lvl as int, title@));
    }
    out
}

fn heading_path_exec(heads: &Vec<Option<Vec<char>>>) -> (r: Vec<char>)
    requires
        heads.len() == 6,
    ensures
        r@ == heading_path(opts_view(heads@)),
{
    let ghost hv = opts_view(heads@);
    let mut parts: Vec<Vec<char>> = Vec::new();
    let mut k: usize = 1;
    while k <= 6
        invariant
            1 <= k <= 7,
            heads.len() == 6,
            hv == opts_view(heads@),
            lines_view(parts@) == path_parts(hv, k - 1),
        decreases 7 - k,
    {
        let ghost before = lines_view(parts@);
        match &heads[k - 1] {
            Some(t) => {
                let mut part: Vec<char> = Vec::new();
                let mut j: usize = 0;
                while j < k
                    invariant
                        j <= k,
                        part@ == hashes(j as int),
                    decreases k - j,
                {
                    part.push('#');
                    proof {
                        assert(part@ =~= hashes(j + 1));
                    }
                    j = j + 1;
                }
                part.push(' ');
                append_chars(&mut part, t);
                proof {
                    assert(part@ =~= hashes(k as int) + seq![' '] + t@);
                }
                parts.push(part);
                proof {
                    assert(hv[k - 1] == Some(t@));
                    assert(lines_view(parts@) =~= before + seq![hashes(k as int) + seq![' '] + t@]);
                }
            },
            None => {
                proof {
                    assert(hv[k - 1] is None);
                    assert(before + Seq::<Seq<char>>::empty() =~= before);
                }
            },
        }
        k = k + 1;
    }
    let sep = chars_of(" > ");
    join_exec(&parts, &sep)
}

fn flush_exec(sections: &mut Vec<Section>, cur: &Vec<Vec<char>>, start: usize, path: &Vec<char>)
    ensures
        sections_view(final(sections)@) == flushed(SectionScan {
            sections: sections_view(old(sections)@),
            heads: Seq::empty(),
            cur: lines_view(cur@),
            start: start as int,
            path: path@,
            in_fence: false,
            marker: Seq::empty(),
            cursor: 0,
        }),
{
    let nl = chars_of("\n");
    let text = join_exec(cur, &nl);
    proof {
        assert(lines_view(cur@) == cur@.map_values(|l: Vec<char>| l@));
    }
    if !all_ws_exec(&text) {
        let ghost before = sections_view(sections@);
        sections.push(Section { text, body_start: start, heading_path: copy_of(path) });
        proof {
            assert(sections_view(sections@) =~= before.push((text@, start as int, path@)));
        }
    }
}

/// Splits a markdown body into sections (see `sections_spec`).
pub fn split_into_sections(body: &Vec<char>, body_offset: usize) -> (r: Vec<Section>)
    requires
        body_offset + body.len() < usize::MAX,
    ensures
        sections_view(r@) == sections_spec(body@, body_offset as int),
{
    let lines = split_on_exec(body, '\n');
    let ghost ls = lines_view(lines@);
    proof {
        assert(ls == split_on(body@, '\n'));
        lemma_split_span(body@);
        assert(ls.take(0) =~= Seq::<Seq<char>>::empty());
    }
    let mut sections: Vec<Section> = Vec::new();
    let mut heads: Vec<Option<Vec<char>>> = Vec::new();
    let mut k: usize = 0;
    while k < 6
        invariant
            k <= 6,
            heads.len() == k,
            forall|q: int| 0 <= q < k ==> #[trigger] heads@[q] is None,
        decreases 6 - k,
    {
        heads.push(None);
        k = k + 1;
    }
    let mut cur: Vec<Vec<char>> = Vec::new();
    let mut start = body_offset;
    let mut path: Vec<char> = Vec::new();
    let mut in_fence = false;
    let mut marker: Vec<char> = Vec::new();
    let mut cursor = body_offset;
    proof {
        assert(opts_view(heads@) =~= Seq::new(6, |k: int| None::<Seq<char>>));
        assert(sections_view(sections@) =~= Seq::<(Seq<char>, int, Seq<char>)>::empty());
        assert(lines_view(cur@) =~= Seq::<Seq<char>>::empty());
        assert(path@ =~= Seq::<char>::empty());
    }
    let mut i: usize = 0;
    while i < lines.len()
        invariant
            i <= lines.len(),
            ls == lines_view(lines@),
            ls == split_on(body@, '\n'),
            total_span(ls) == body.len() + 1,
            body_offset + body.len() < usize::MAX,
            heads.len() == 6,
            cursor <= body_offset + total_span(ls.take(i as int)),
            scan_run(ls, body_offset as int, i as int) == (SectionScan {
                sections: sections_view(sections@),
                heads: opts_view(heads@),
                cur: lines_view(cur@),
                start: start as int,
                path: path@,
                in_fence: in_fence,
                marker: marker@,
                cursor: cursor as int,
            }),
        decreases lines.len() - i,
    {
        let line = &lines[i];
        proof {
            lemma_span_take(ls, i as int);
            lemma_span_mono(ls, i + 1);
            lemma_span_nonneg(ls.take(i as int));
            assert(ls[i as int] == line@);
        }
        let ll = if i < lines.len() - 1 { line.len() + 1 } else { line.len() };
        let ghost sc = scan_run(ls, body_offset as int, i as int);
        let ghost cur_before = lines_view(cur@);
        if fence_run_exec(line) > 0 {
            if !in_fence {
                in_fence = true;
                marker = slice_range(line, 0, 1);
            } else if closes_code_exec(line, &marker) {
                in_fence = false;
            }
            cur.push(copy_of(line));
            proof {
                assert(lines_view(cur@) =~= cur_before.push(line@));
            }
        } else {
            let h = if !in_fence { heading_exec(line) } else { None };
            match h {
                Some((lvl, title)) => {
                    flush_exec(&mut sections, &cur, start, &path);
                    heads = heads_after_exec(&heads, lvl, &title);
                    cur = Vec::new();
                    cur.push(copy_of(line));
                    start = cursor;
                    path = heading_path_exec(&heads);
                    proof {
                        assert(lines_view(cur@) =~= seq![line@]);
                    }
                },
                None => {
                    cur.push(copy_of(line));
                    proof {
                        assert(lines_view(cur@) =~= cur_before.push(line@));
                    }
                },
            }
        }
        cursor = cursor + ll;
        i = i + 1;
    }
    proof {
        assert(ls.take(lines.len() as int) =~= ls);
    }
    flush_exec(&mut sections, &cur, start, &path);
    sections
}

/// The line starts a table row.
pub open spec fn starts_pipe(l: Seq<char>) -> bool {
    l.len() > 0 && l[0] == '|'
}

/// The number of table rows from line `i` on.
pub open spec fn pipe_run(lines: Seq<Seq<char>>, i: int) -> nat
    decreases lines.len() - i,
{
    if 0 <= i < lines.len() && starts_pipe(lines[i]) {
        1 + pipe_run(lines, i + 1)
    } else {
        0
    }
}

/// A line of running text: not blank, no table row, no fence.
pub open spec fn is_text_line(l: Seq<char>) -> bool {
    !all_ws(l) && !starts_pipe(l) && fence_run(l) == 0
}

/// The number of lines of running text from line `i` on.
pub open spec fn para_run(lines: Seq<Seq<char>>, i: int) -> nat
    decreases lines.len() - i,
{
    if 0 <= i < lines.len() && is_text_line(lines[i]) {
        1 + para_run(lines, i + 1)
    } else {
        0
    }
}

/// The line closes a code block opened by `marker`.
pub open spec fn closes_code(l: Seq<char>, marker: Seq<char>) -> bool {
    has_at(l, 0, marker) && trim(l) == marker
}

/// The first line from `j` on that closes the code block, or the number of lines.
pub open spec fn code_close(lines: Seq<Seq<char>>, j: int, marker: Seq<char>) -> int
    decreases lines.len() - j,
{
    if j < 0 || j >= lines.len() {
        lines.len() as int
    } else if closes_code(lines[j], marker) {
        j
    } else {
        code_close(lines, j + 1, marker)
    }
}

pub proof fn lemma_code_close(lines: Seq<Seq<char>>, j: int, marker: Seq<char>)
    requires
        0 <= j,
    ensures
        j <= code_close(lines, j, marker) <= lines.len() || (j > lines.len() && code_close(lines, j, marker) == lines.len()),
    decreases lines.len() - j,
{
    if j < lines.len() && !closes_code(lines[j], marker) {
        lemma_code_close(lines, j + 1, marker);
    }
}

pub proof fn lemma_pipe_run(lines: Seq<Seq<char>>, i: int)
    requires
        0 <= i <= lines.len(),
    ensures
        i + pipe_run(lines, i) <= lines.len(),
        forall|t: int| i <= t < i + pipe_run(lines, i) ==> starts_pipe(#[trigger] lines[t]),
        i + pipe_run(lines, i) < lines.len() ==> !starts_pipe(lines[i + pipe_run(lines, i)]),
    decreases lines.len() - i,
{
    if i < lines.len() && starts_pipe(lines[i]) {
        lemma_pipe_run(lines, i + 1);
    }
}

pub proof fn lemma_para_run(lines: Seq<Seq<char>>, i: int)
    requires
        0 <= i <= lines.len(),
    ensures
        i + para_run(lines, i) <= lines.len(),
        i + para_run(lines, i) < lines.len() ==> !is_text_line(lines[i + para_run(lines, i)]),
    decreases lines.len() - i,
{
    if i < lines.len() && is_text_line(lines[i]) {
        lemma_para_run(lines, i + 1);
    }
}

/// Where the block of lines that starts at line `i` ends: after the closing fence of a
/// code block, after a table of two or more rows, after a blank line, or after a
/// paragraph; `i` itself when the line opens nothing (a single table row).
pub open spec fn block_end(lines: Seq<Seq<char>>, i: int) -> int {
    let l = lines[i];
    if fence_run(l) > 0 {
        let c = code_close(lines, i + 1, l.subrange(0, fence_run(l) as int));
        if c < lines.len() { c + 1 } else { lines.len() as int }
    } else if starts_pipe(l) && pipe_run(lines, i) >= 2 {
        i + pipe_run(lines, i)
    } else if all_ws(l) {
        i + 1
    } else {
        i + para_run(lines, i)
    }
}

pub proof fn lemma_block_end(lines: Seq<Seq<char>>, i: int)
    requires
        0 <= i < lines.len(),
    ensures
        i <= block_end(lines, i) <= lines.len(),
        block_end(lines, i) == i ==> !(fence_run(lines[i]) > 0) && starts_pipe(lines[i]),
{
    let l = lines[i];
    if fence_run(l) > 0 {
        lemma_code_close(lines, i + 1, l.subrange(0, fence_run(l) as int));
    } else if starts_pipe(l) && pipe_run(lines, i) >= 2 {
        lemma_pipe_run(lines, i);
    } else if all_ws(l) {
    } else {
        lemma_para_run(lines, i);
        assert(para_run(lines, i) >= 1 || starts_pipe(l));
    }
}

/// The blocks of a section from line `i` on, each with its text, its offset and whether
/// it may not be cut (code and tables); blank lines give none. `None` when the scan
/// reaches a table row that stands alone, where it would never move on.
pub open spec fn atoms_from(lines: Seq<Seq<char>>, i: int) -> Option<Seq<(Seq<char>, int, bool)>>
    decreases lines.len() - i,
{
    if i < 0 || i >= lines.len() {
        Some(Seq::empty())
    } else {
        let j = block_end(lines, i);
        proof {
            lemma_block_end(lines, i);
        }
        if j <= i {
            None
        } else {
            match atoms_from(lines, j) {
                None => None,
                Some(rest) => if all_ws(lines[i]) && fence_run(lines[i]) == 0 && !(starts_pipe(lines[i]) && pipe_run(lines, i) >= 2) {
                    Some(rest)
                } else {
                    Some(
                        seq![(
                            join_with(lines.subrange(i, j), "\n"@),
                            total_span(lines.take(i)),
                            fence_run(lines[i]) > 0 || (starts_pipe(lines[i]) && pipe_run(lines, i) >= 2),
                        )] + rest,
                    )
                },
            }
        }
    }
}

/// The blocks of a section text (see `atoms_from`).
pub open spec fn atoms_spec(text: Seq<char>) -> Option<Seq<(Seq<char>, int, bool)>> {
    atoms_from(split_on(text, '\n'), 0)
}

/// A block of a section: its text, its offset and whether it may not be cut.
pub struct Atom {
    pub text: Vec<char>,
    pub offset: usize,
    pub indivisible: bool,
}

pub open spec fn atom_view(a: Atom) -> (Seq<char>, int, bool) {
    (a.text@, a.offset as int, a.indivisible)
}

pub open spec fn atoms_view(v: Seq<Atom>) -> Seq<(Seq<char>, int, bool)> {
    v.map_values(|a: Atom| atom_view(a))
}

fn starts_pipe_exec(l: &Vec<char>) -> (r: bool)
    ensures
        r == starts_pipe(l@),
{
    l.len() > 0 && l[0] == '|'
}

fn closes_code_exec(l: &Vec<char>, marker: &Vec<char>) -> (r: bool)
    ensures
        r == closes_code(l@, marker@),
{
    if !has_at_exec(l, 0, marker) {
        return false;
    }
    let t = trim_exec(l);
    if t.len() != marker.len() {
        return false;
    }
    let mut k: usize = 0;
    while k < t.len()
        invariant
            k <= t.len(),
            t.len() == marker.len(),
            t@ == trim(l@),
            has_at(l@, 0, marker@),
            forall|q: int| 0 <= q < k ==> t@[q] == marker@[q],
        decreases t.len() - k,
    {
        if t[k] != marker[k] {
            proof {
                assert(t@[k as int] != marker@[k as int]);
            }
            return false;
        }
        k = k + 1;
    }
    proof {
        assert(t@ =~= marker@);
    }
    true
}

fn block_end_exec(lines: &Vec<Vec<char>>, i: usize) -> (r: usize)
    requires
        i < lines.len(),
    ensures
        r == block_end(lines_view(lines@), i as int),
{
    let ghost ls = lines_view(lines@);
    let l = &lines[i];
    proof {
        assert(ls[i as int] == l@);
        lemma_block_end(ls, i as int);
    }
    let f = fence_run_exec(l);
    if f > 0 {
        let marker = slice_range(l, 0, f);
        let mut c = i + 1;
        while c < lines.len() && !closes_code_exec(&lines[c], &marker)
            invariant
                i + 1 <= c <= lines.len(),
                ls == lines_view(lines@),
                code_close(ls, i + 1, marker@) == code_close(ls, c as int, marker@),
            decreases lines.len() - c,
        {
            proof {
                assert(ls[c as int] == lines@[c as int]@);
            }
            c = c + 1;
        }
        proof {
            if c < lines.len() {
                assert(ls[c as int] == lines@[c as int]@);
            }
        }
        if c < lines.len() {
            return c + 1;
        } else {
            return lines.len();
        }
    }
    if starts_pipe_exec(l) {
        let mut j = i;
        while j < lines.len() && starts_pipe_exec(&lines[j])
            invariant
                i <= j <= lines.len(),
                ls == lines_view(lines@),
                pipe_run(ls, i as int) == (j - i) + pipe_run(ls, j as int),
            decreases lines.len() - j,
        {
            proof {
                assert(ls[j as int] == lines@[j as int]@);
            }
            j = j + 1;
        }
        proof {
            if j < lines.len() {
                assert(ls[j as int] == lines@[j as int]@);
            }
        }
        if j - i >= 2 {
            return j;
        }
    }
    if all_ws_exec(l) {
        return i + 1;
    }
    let mut j = i;
    while j < lines.len() && !all_ws_exec(&lines[j]) && !starts_pipe_exec(&lines[j]) && fence_run_exec(&lines[j]) == 0
        invariant
            i <= j <= lines.len(),
            ls == lines_view(lines@),
            para_run(ls, i as int) == (j - i) + para_run(ls, j as int),
        decreases lines.len() - j,
    {
        proof {
            assert(ls[j as int] == lines@[j as int]@);
        }
        j = j + 1;
    }
    proof {
        if j < lines.len() {
            assert(ls[j as int] == lines@[j as int]@);
        }
    }
    j
}

/// Whether the blocks of `text` can be told apart: no line stops the scan (see
/// `atoms_spec`).
pub fn atoms_defined(text: &Vec<char>) -> (r: bool)
    ensures
        r == (atoms_spec(text@) is Some),
{
    let lines = split_on_exec(text, '\n');
    let ghost ls = lines_view(lines@);
    proof {
        assert(ls == split_on(text@, '\n'));
    }
    let mut i: usize = 0;
    while i < lines.len()
        invariant
            i <= lines.len(),
            ls == lines_view(lines@),
            ls == split_on(text@, '\n'),
            (atoms_from(ls, 0) is Some) == (atoms_from(ls, i as int) is Some),
        decreases lines.len() - i,
    {
        let j = block_end_exec(&lines, i);
        proof {
            lemma_block_end(ls, i as int);
        }
        if j <= i {
            return false;
        }
        proof {
            assert((atoms_from(ls, i as int) is Some) == (atoms_from(ls, j as int) is Some));
        }
        i = j;
    }
    true
}

/// The blocks of a section text (see `atoms_spec`); the scan must not reach a lone
/// table row.
pub fn tokenize_atoms(text: &Vec<char>) -> (r: Vec<Atom>)
    requires
        atoms_spec(text@) is Some,
        text.len() < usize::MAX,
    ensures
        atoms_view(r@) == atoms_spec(text@)->0,
{
    let lines = split_on_exec(text, '\n');
    let ghost ls = lines_view(lines@);
    proof {
        assert(ls == split_on(text@, '\n'));
        lemma_split_span(text@);
        assert(ls.take(0) =~= Seq::<Seq<char>>::empty());
    }
    let mut out: Vec<Atom> = Vec::new();
    let mut cursor: usize = 0;
    let mut i: usize = 0;
    proof {
        assert(atoms_view(out@) + atoms_from(ls, 0)->0 =~= atoms_from(ls, 0)->0);
    }
    while i < lines.len()
        invariant
            i <= lines.len(),
            ls == lines_view(lines@),
            total_span(ls) == text.len() + 1,
            text.len() < usize::MAX,
            cursor == total_span(ls.take(i as int)),
            atoms_from(ls, i as int) is Some,
            atoms_from(ls, 0) is Some,
            atoms_view(out@) + atoms_from(ls, i as int)->0 == atoms_from(ls, 0)->0,
        decreases lines.len() - i,
    {
        proof {
            lemma_block_end(ls, i as int);
        }
        let j = block_end_exec(&lines, i);
        proof {
            lemma_span_mono(ls, j as int);
            lemma_span_nonneg(ls);
        }
        let l = &lines[i];
        proof {
            assert(ls[i as int] == l@);
        }
        let keep = fence_run_exec(l) > 0 || (starts_pipe_exec(l) && j - i >= 2 && fence_run_exec(l) == 0) || !all_ws_exec(l);
        let ghost rest = atoms_from(ls, j as int)->0;
        let ghost before = atoms_view(out@);
        if keep {
            let content = crate::ingest_engine::join_lines_range(&lines, i, j);
            let indivisible = fence_run_exec(l) > 0 || (starts_pipe_exec(l) && j - i >= 2);
            out.push(Atom { text: content, offset: cursor, indivisible });
            proof {
                assert(lines@.map_values(|l: Vec<char>| l@) == ls);
                lemma_pipe_run(ls, i as int);
                assert(atoms_view(out@) =~= before.push((content@, cursor as int, indivisible)));
                assert(before + atoms_from(ls, i as int)->0 =~= before.push((content@, cursor as int, indivisible)) + rest);
            }
        } else {
            proof {
                lemma_pipe_run(ls, i as int);
            }
        }
        let mut k = i;
        while k < j
            invariant
                i <= k <= j <= lines.len(),
                ls == lines_view(lines@),
                total_span(ls) == text.len() + 1,
                text.len() < usize::MAX,
                total_span(ls.take(j as int)) <= total_span(ls),
                cursor == total_span(ls.take(k as int)),
            decreases j - k,
        {
            proof {
                lemma_span_take(ls, k as int);
                lemma_span_mono(ls, k + 1);
                assert(ls[k as int] == lines@[k as int]@);
            }
            cursor = cursor + lines[k].len() + 1;
            k = k + 1;
        }
        i = j;
    }
    proof {
        assert(atoms_from(ls, lines.len() as int)->0 =~= Seq::<(Seq<char>, int, bool)>::empty());
        assert(atoms_view(out@) + Seq::<(Seq<char>, int, bool)>::empty() =~= atoms_view(out@));
    }
    out
}

/// What the section scan keeps true: the gathered lines take the room from the section
/// start to the cursor, and the sections so far lie between the offset and that start.
pub open spec fn scan_inv(sc: SectionScan, lines: Seq<Seq<char>>, offset: int, i: int) -> bool {
    &&& offset <= sc.start
    &&& i > 0 ==> sc.cur.len() > 0
    &&& sc.start + total_span(sc.cur) == offset + total_span(lines.take(i))
    &&& i < lines.len() ==> sc.cursor == offset + total_span(lines.take(i))
    &&& forall|q: int| 0 <= q < sc.sections.len() ==> offset <= #[trigger] sc.sections[q].1
        && sc.sections[q].1 + sc.sections[q].0.len() <= sc.start
}

pub proof fn lemma_flushed_bounds(sc: SectionScan, offset: int)
    requires
        forall|q: int| 0 <= q < sc.sections.len() ==> offset <= #[trigger] sc.sections[q].1
            && sc.sections[q].1 + sc.sections[q].0.len() <= sc.start,
        offset <= sc.start,
    ensures
        sc.cur.len() > 0 ==> forall|q: int| 0 <= q < flushed(sc).len() ==> offset <= #[trigger] flushed(sc)[q].1
            && flushed(sc)[q].1 + flushed(sc)[q].0.len() <= sc.start + total_span(sc.cur) - 1,
        forall|q: int| 0 <= q < flushed(sc).len() ==> offset <= #[trigger] flushed(sc)[q].1,
        forall|q: int| 0 <= q < flushed(sc).len() ==> #[trigger] flushed(sc)[q].1 + flushed(sc)[q].0.len() <= sc.start + total_span(sc.cur),
{
    lemma_span_nonneg(sc.cur);
    if sc.cur.len() > 0 {
        lemma_join_span(sc.cur);
    } else {
        reveal_strlit("\n");
        assert(join_with(sc.cur, "\n"@) =~= Seq::<char>::empty());
    }
}

pub proof fn lemma_scan_inv(lines: Seq<Seq<char>>, offset: int, i: int)
    requires
        0 <= i <= lines.len(),
    ensures
        scan_inv(scan_run(lines, offset, i), lines, offset, i),
    decreases i,
{
    if i == 0 {
        assert(lines.take(0) =~= Seq::<Seq<char>>::empty());
        assert(total_span(Seq::<Seq<char>>::empty()) == 0);
    } else {
        lemma_scan_inv(lines, offset, i - 1);
        let sc = scan_run(lines, offset, i - 1);
        let line = lines[i - 1];
        lemma_span_take(lines, i - 1);
        let nsc = scan_run(lines, offset, i);
        if fence_run(line) > 0 {
            lemma_span_push(sc.cur, line);
        } else if !sc.in_fence && heading_of(line) is Some {
            lemma_flushed_bounds(sc, offset);
            lemma_span_nonneg(sc.cur);
            assert(seq![line] =~= Seq::<Seq<char>>::empty().push(line));
            lemma_span_push(Seq::<Seq<char>>::empty(), line);
            assert(total_span(Seq::<Seq<char>>::empty()) == 0);
            assert(nsc.sections == flushed(sc));
            assert forall|q: int| 0 <= q < nsc.sections.len() implies offset <= #[trigger] nsc.sections[q].1
                && nsc.sections[q].1 + nsc.sections[q].0.len() <= nsc.start by {
                assert(flushed(sc)[q].1 + flushed(sc)[q].0.len() <= sc.start + total_span(sc.cur));
            }
        } else {
            lemma_span_push(sc.cur, line);
        }
    }
}

/// Every section lies inside the body: from the offset to the offset and the body's length.
pub proof fn lemma_sections_bounded(body: Seq<char>, offset: int)
    ensures
        forall|q: int| 0 <= q < sections_spec(body, offset).len() ==> offset <= #[trigger] sections_spec(body, offset)[q].1
            && sections_spec(body, offset)[q].1 + sections_spec(body, offset)[q].0.len() <= offset + body.len(),
{
    let lines = split_on(body, '\n');
    lemma_split_span(body);
    lemma_scan_inv(lines, offset, lines.len() as int);
    let sc = scan_run(lines, offset, lines.len() as int);
    assert(lines.take(lines.len() as int) =~= lines);
    crate::text::lemma_split_on_nonempty(body, '\n');
    lemma_flushed_bounds(sc, offset);
}

pub proof fn lemma_span_append(a: Seq<Seq<char>>, b: Seq<Seq<char>>)
    ensures
        total_span(a + b) == total_span(a) + total_span(b),
    decreases b.len(),
{
    if b.len() == 0 {
        assert(a + b =~= a);
    } else {
        lemma_span_append(a, b.drop_last());
        assert((a + b).drop_last() =~= a + b.drop_last());
    }
}

pub open spec fn atom_end(a: (Seq<char>, int, bool)) -> int {
    a.1 + a.0.len()
}

/// The blocks from line `i` on lie, in order, between the start of line `i` and the end
/// of the text.
pub proof fn lemma_atoms_bounds(lines: Seq<Seq<char>>, i: int)
    requires
        0 <= i <= lines.len(),
        atoms_from(lines, i) is Some,
    ensures
        forall|q: int| 0 <= q < atoms_from(lines, i)->0.len() ==> total_span(lines.take(i)) <= #[trigger] atoms_from(lines, i)->0[q].1
            && atom_end(atoms_from(lines, i)->0[q]) <= total_span(lines) - 1,
        forall|a: int, b: int| 0 <= a < b < atoms_from(lines, i)->0.len() ==> atom_end(#[trigger] atoms_from(lines, i)->0[a]) <= #[trigger] atoms_from(lines, i)->0[b].1,
    decreases lines.len() - i,
{
    if i < lines.len() {
        let j = block_end(lines, i);
        lemma_block_end(lines, i);
        lemma_atoms_bounds(lines, j);
        let rest = atoms_from(lines, j)->0;
        lemma_span_mono(lines, j);
        assert(lines.take(j) =~= lines.take(i) + lines.subrange(i, j));
        lemma_span_append(lines.take(i), lines.subrange(i, j));
        lemma_span_nonneg(lines.subrange(i, j));
        let keep = !(all_ws(lines[i]) && fence_run(lines[i]) == 0 && !(starts_pipe(lines[i]) && pipe_run(lines, i) >= 2));
        if keep {
            lemma_join_span(lines.subrange(i, j));
            let hd = (
                join_with(lines.subrange(i, j), "\n"@),
                total_span(lines.take(i)),
                fence_run(lines[i]) > 0 || (starts_pipe(lines[i]) && pipe_run(lines, i) >= 2),
            );
            let all = seq![hd] + rest;
            assert(atoms_from(lines, i)->0 == all);
            assert forall|q: int| 0 <= q < all.len() implies total_span(lines.take(i)) <= #[trigger] all[q].1
                && atom_end(all[q]) <= total_span(lines) - 1 by {
                if q > 0 {
                    assert(all[q] == rest[q - 1]);
                }
            }
            assert forall|a: int, b: int| 0 <= a < b < all.len() implies atom_end(#[trigger] all[a]) <= #[trigger] all[b].1 by {
                assert(all[b] == rest[b - 1]);
                if a > 0 {
                    assert(all[a] == rest[a - 1]);
                }
            }
        } else {
            assert(atoms_from(lines, i)->0 == rest);
        }
    } else {
        assert(atoms_from(lines, i)->0 =~= Seq::<(Seq<char>, int, bool)>::empty());
    }
}

} // verus!
