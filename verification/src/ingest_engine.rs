use vstd::prelude::*;

use crate::text::{
    all_ws, all_ws_exec, append_chars, chars_of, has_at, has_at_exec, is_ws, join_with, lead_ws, lead_ws_exec,
    lemma_lead_ws, lemma_trail_ws, slice_range, split_on, split_on_exec, starts_with_chars, string_of, trail_ws,
    trail_ws_exec, trim, trim_exec,
};

verus! {

/// A FILE block of an ingest stream: the page path and the lines between the
/// opening and closing markers.
pub struct ParsedFileBlock {
    pub path: String,
    pub content: String,
}

/// The blocks found in an ingest stream, and a warning for each block dropped.
pub struct ParseFileBlocksResult {
    pub blocks: Vec<ParsedFileBlock>,
    pub warnings: Vec<String>,
}

/// A control character (Unicode general category Cc), as `char::is_control` defines it.
pub open spec fn is_control(c: char) -> bool {
    ('\0' <= c && c <= '\u{1F}') || ('\u{7F}' <= c && c <= '\u{9F}')
}

pub open spec fn is_sep(c: char) -> bool {
    c == '/' || c == '\\'
}

pub open spec fn is_ascii_alpha(c: char) -> bool {
    ('a' <= c && c <= 'z') || ('A' <= c && c <= 'Z')
}

pub open spec fn dotdot() -> Seq<char> {
    seq!['.', '.']
}

/// Some path segment, between separators `/` or `\`, is `..`.
pub open spec fn has_parent_segment(p: Seq<char>) -> bool {
    exists|i: int|
        #![trigger has_at(p, i, dotdot())]
        has_at(p, i, dotdot()) && (i == 0 || is_sep(p[i - 1])) && (i + 2 == p.len() || is_sep(p[i + 2]))
}

/// A path that ingestion may write: not blank, free of control characters, relative,
/// without a drive letter, without a `..` segment, and under `.wiki/` (either
/// separator counts as `/`).
pub open spec fn safe_ingest_path(p: Seq<char>) -> bool {
    &&& !all_ws(p)
    &&& forall|i: int| 0 <= i < p.len() ==> !is_control(#[trigger] p[i])
    &&& !(p.len() > 0 && is_sep(p[0]))
    &&& !(p.len() >= 2 && p[1] == ':' && is_ascii_alpha(p[0]))
    &&& !has_parent_segment(p)
    &&& p.len() >= 6 && p.subrange(0, 5) == seq!['.', 'w', 'i', 'k', 'i'] && is_sep(p[5])
}

/// Whether a path may be written by ingestion (see `safe_ingest_path`).
pub fn is_safe_ingest_path(p: &str) -> (r: bool)
    ensures
        r == safe_ingest_path(p@),
{
    let cs = chars_of(p);
    is_safe_path_chars(&cs)
}

pub fn is_safe_path_chars(cs: &Vec<char>) -> (r: bool)
    ensures
        r == safe_ingest_path(cs@),
{
    if all_ws_exec(cs) {
        return false;
    }
    let mut i: usize = 0;
    while i < cs.len()
        invariant
            i <= cs.len(),
            forall|j: int| 0 <= j < i ==> !is_control(#[trigger] cs@[j]),
        decreases cs.len() - i,
    {
        let c = cs[i];
        if ('\0' <= c && c <= '\u{1F}') || ('\u{7F}' <= c && c <= '\u{9F}') {
            return false;
        }
        i = i + 1;
    }
    if cs.len() > 0 && (cs[0] == '/' || cs[0] == '\\') {
        return false;
    }
    if cs.len() >= 2 && cs[1] == ':' {
        let f = cs[0];
        if ('a' <= f && f <= 'z') || ('A' <= f && f <= 'Z') {
            return false;
        }
    }
    let dd = chars_of("..");
    proof {
        reveal_strlit("..");
        assert(dd@ =~= dotdot());
    }
    let mut k: usize = 0;
    while k < cs.len()
        invariant
            k <= cs.len(),
            dd@ == dotdot(),
            forall|j: int|
                0 <= j < k ==> !(has_at(cs@, j, dotdot()) && (j == 0 || is_sep(cs@[j - 1])) && (j + 2
                    == cs@.len() || is_sep(cs@[j + 2]))),
        decreases cs.len() - k,
    {
        if has_at_exec(cs, k, &dd) && (k == 0 || cs[k - 1] == '/' || cs[k - 1] == '\\') && (k + 2 == cs.len()
            || cs[k + 2] == '/' || cs[k + 2] == '\\') {
            return false;
        }
        k = k + 1;
    }
    proof {
        assert forall|j: int|
            !(has_at(cs@, j, dotdot()) && (j == 0 || is_sep(cs@[j - 1])) && (j + 2 == cs@.len() || is_sep(
                cs@[j + 2]))) by {
            if 0 <= j < cs.len() {
            } else if j >= cs.len() {
                assert(!has_at(cs@, j, dotdot()));
            }
        }
    }
    if cs.len() < 6 {
        return false;
    }
    let wiki = chars_of(".wiki");
    proof {
        reveal_strlit(".wiki");
        assert(wiki@ =~= seq!['.', 'w', 'i', 'k', 'i']);
    }
    starts_with_chars(cs, &wiki) && (cs[5] == '/' || cs[5] == '\\')
}

/// `s` with every `\r\n` replaced by `\n`, scanning from the left.
pub open spec fn replace_crlf(s: Seq<char>) -> Seq<char>
    decreases s.len(),
{
    if s.len() == 0 {
        s
    } else if s.len() >= 2 && s[0] == '\r' && s[1] == '\n' {
        seq!['\n'] + replace_crlf(s.subrange(2, s.len() as int))
    } else {
        seq![s[0]] + replace_crlf(s.drop_first())
    }
}

pub fn replace_crlf_exec(s: &Vec<char>) -> (r: Vec<char>)
    ensures
        r@ == replace_crlf(s@),
{
    let mut out: Vec<char> = Vec::new();
    let mut i: usize = 0;
    proof {
        assert(s@.subrange(0, s@.len() as int) =~= s@);
        assert(out@ + replace_crlf(s@) =~= replace_crlf(s@));
    }
    while i < s.len()
        invariant
            i <= s.len(),
            out@ + replace_crlf(s@.subrange(i as int, s@.len() as int)) == replace_crlf(s@),
        decreases s.len() - i,
    {
        let ghost rest = s@.subrange(i as int, s@.len() as int);
        if i + 1 < s.len() && s[i] == '\r' && s[i + 1] == '\n' {
            out.push('\n');
            proof {
                assert(rest.subrange(2, rest.len() as int) =~= s@.subrange(i + 2, s@.len() as int));
                assert(out@ + replace_crlf(s@.subrange(i + 2, s@.len() as int)) =~= out@.drop_last() + replace_crlf(rest));
            }
            i = i + 2;
        } else {
            out.push(s[i]);
            proof {
                assert(rest.drop_first() =~= s@.subrange(i + 1, s@.len() as int));
                assert(out@ + replace_crlf(s@.subrange(i + 1, s@.len() as int)) =~= out@.drop_last() + replace_crlf(rest));
            }
            i = i + 1;
        }
    }
    proof {
        assert(s@.subrange(s@.len() as int, s@.len() as int) =~= Seq::<char>::empty());
        assert(out@ + Seq::<char>::empty() =~= out@);
    }
    out
}

/// The path of a FILE block opener line `---FILE: <path>---` (white space allowed around
/// each part), trimmed; `None` when the line is no opener.
pub open spec fn opener_path(l: Seq<char>) -> Option<Seq<char>> {
    if has_at(l, 0, "---"@) {
        let p: int = 3int + lead_ws(l.subrange(3, l.len() as int)) as int;
        if has_at(l, p, "FILE:"@) {
            let rest = l.subrange(p + 5, l.len() as int);
            let t: int = trail_ws(rest) as int;
            let q: int = rest.len() - t - 3;
            if q >= 1 && has_at(rest, q, "---"@) {
                Some(trim(rest.subrange(0, q)))
            } else {
                None
            }
        } else {
            None
        }
    } else {
        None
    }
}

/// The line `---END FILE---` (white space allowed around each word, at least one
/// white-space character between `END` and `FILE`).
pub open spec fn is_closer(l: Seq<char>) -> bool {
    let p1: int = 3int + lead_ws(l.subrange(3, l.len() as int)) as int;
    let p2: int = p1 + 3;
    let w2: int = lead_ws(l.subrange(p2, l.len() as int)) as int;
    let p3: int = p2 + w2;
    let p4: int = p3 + 4 + lead_ws(l.subrange(p3 + 4, l.len() as int)) as int;
    &&& has_at(l, 0, "---"@)
    &&& has_at(l, p1, "END"@)
    &&& w2 >= 1
    &&& has_at(l, p3, "FILE"@)
    &&& has_at(l, p4, "---"@)
    &&& all_ws(l.subrange(p4 + 3, l.len() as int))
}

/// The number of copies of `c` in `l` from position `at` on, before another character.
pub open spec fn run_len(l: Seq<char>, at: int, c: char) -> nat
    decreases l.len() - at,
{
    if 0 <= at < l.len() && l[at] == c {
        1 + run_len(l, at + 1, c)
    } else {
        0
    }
}

/// The fence of a code-fence line: at most three white-space characters, then a run of
/// at least three backticks or tildes; the fence character and the run's length.
pub open spec fn fence_of(l: Seq<char>) -> Option<(char, nat)> {
    let k: int = lead_ws(l) as int;
    if k <= 3 && k < l.len() && (l[k] == '`' || l[k] == '~') && run_len(l, k, l[k])
        >= 3 {
        Some((l[k], run_len(l, k, l[k])))
    } else {
        None
    }
}

/// Scanning the body of a FILE block from line `i` with the given open fence: the index
/// of the line that ends the body and whether a closer line ended it.
pub open spec fn scan_body(lines: Seq<Seq<char>>, i: int, fence: Option<(char, nat)>) -> (int, bool)
    decreases lines.len() - i,
{
    if i < 0 || i >= lines.len() {
        (lines.len() as int, false)
    } else {
        match fence_of(lines[i]) {
            Some((c, l)) => {
                let nf = match fence {
                    None => Some((c, l)),
                    Some((fc, fl)) => if c == fc && l >= fl {
                        None
                    } else {
                        fence
                    },
                };
                scan_body(lines, i + 1, nf)
            },
            None => if fence is None && is_closer(lines[i]) {
                (i, true)
            } else {
                scan_body(lines, i + 1, fence)
            },
        }
    }
}

pub open spec fn unclosed_warning(path: Seq<char>) -> Seq<char> {
    "FILE block \""@ + (if path.len() == 0 { "(unnamed)"@ } else { path })
        + "\" was not closed before end of stream — likely truncation. Block dropped."@
}

pub open spec fn empty_path_warning() -> Seq<char> {
    "FILE block with empty path skipped (LLM omitted the path after `---FILE:`)."@
}

pub open spec fn unsafe_path_warning(path: Seq<char>) -> Seq<char> {
    "FILE block with unsafe path \""@ + path + "\" rejected (must be under .wiki/, no .., no absolute paths)."@
}

/// The blocks (path, content) and warnings of the lines from `i` on.
pub open spec fn parse_from(lines: Seq<Seq<char>>, i: int) -> (Seq<(Seq<char>, Seq<char>)>, Seq<Seq<char>>)
    decreases lines.len() - i, 1int,
{
    if i < 0 || i >= lines.len() {
        (Seq::empty(), Seq::empty())
    } else {
        match opener_path(lines[i]) {
            None => parse_from(lines, i + 1),
            Some(path) => {
                let (end, closed) = scan_body(lines, i + 1, None);
                if !closed {
                    (Seq::empty(), seq![unclosed_warning(path)])
                } else {
                    let (bs, ws) = parse_from_after(lines, i, end);
                    if path.len() == 0 {
                        (bs, seq![empty_path_warning()] + ws)
                    } else if !safe_ingest_path(path) {
                        (bs, seq![unsafe_path_warning(path)] + ws)
                    } else {
                        (seq![(path, join_with(lines.subrange(i + 1, end), "\n"@))] + bs, ws)
                    }
                }
            },
        }
    }
}

/// Parsing resumes after the closer line `end` of a block opened at `i`.
pub open spec fn parse_from_after(lines: Seq<Seq<char>>, i: int, end: int) -> (Seq<(Seq<char>, Seq<char>)>, Seq<Seq<char>>)
    decreases lines.len() - i, 0int,
{
    if i < end && end < lines.len() {
        parse_from(lines, end + 1)
    } else {
        (Seq::empty(), Seq::empty())
    }
}

/// The blocks and warnings of an ingest stream: after `\r\n` becomes `\n`, the lines are
/// read in order; an opener line starts a block whose body runs to the next closer line
/// outside a code fence; a block that is not closed, has an empty path or an unsafe path
/// is dropped with a warning.
pub open spec fn parse_stream(text: Seq<char>) -> (Seq<(Seq<char>, Seq<char>)>, Seq<Seq<char>>) {
    parse_from(split_on(replace_crlf(text), '\n'), 0)
}

pub fn opener_path_exec(l: &Vec<char>) -> (r: Option<Vec<char>>)
    ensures
        match r {
            Some(p) => opener_path(l@) == Some(p@),
            None => opener_path(l@) is None,
        },
{
    let dash = chars_of("---");
    proof {
        reveal_strlit("---");
    }
    if !has_at_exec(l, 0, &dash) {
        return None;
    }
    let tail = slice_range(l, 3, l.len());
    let w = lead_ws_exec(&tail);
    proof {
        lemma_lead_ws(tail@);
    }
    let p = 3 + w;
    let file = chars_of("FILE:");
    if !has_at_exec(l, p, &file) {
        return None;
    }
    proof {
        assert("FILE:"@.len() == 5) by {
            reveal_strlit("FILE:");
        }
    }
    let rest = slice_range(l, p + 5, l.len());
    let t = trail_ws_exec(&rest);
    proof {
        lemma_trail_ws(rest@);
    }
    if rest.len() < t + 4 {
        return None;
    }
    let q = rest.len() - t - 3;
    if !has_at_exec(&rest, q, &dash) {
        return None;
    }
    let a = slice_range(&rest, 0, q);
    Some(trim_exec(&a))
}

pub fn is_closer_exec(l: &Vec<char>) -> (r: bool)
    ensures
        r == is_closer(l@),
{
    let dash = chars_of("---");
    let end_w = chars_of("END");
    let file_w = chars_of("FILE");
    proof {
        reveal_strlit("---");
        reveal_strlit("END");
        reveal_strlit("FILE");
    }
    if !has_at_exec(l, 0, &dash) {
        return false;
    }
    let w1 = lead_ws_exec(&slice_range(l, 3, l.len()));
    proof {
        lemma_lead_ws(l@.subrange(3, l@.len() as int));
    }
    let p1 = 3 + w1;
    if !has_at_exec(l, p1, &end_w) {
        return false;
    }
    let p2 = p1 + 3;
    let w2 = lead_ws_exec(&slice_range(l, p2, l.len()));
    proof {
        lemma_lead_ws(l@.subrange(p2 as int, l@.len() as int));
    }
    if w2 < 1 {
        return false;
    }
    let p3 = p2 + w2;
    if !has_at_exec(l, p3, &file_w) {
        return false;
    }
    let w3 = lead_ws_exec(&slice_range(l, p3 + 4, l.len()));
    proof {
        lemma_lead_ws(l@.subrange(p3 + 4, l@.len() as int));
    }
    let p4 = p3 + 4 + w3;
    if !has_at_exec(l, p4, &dash) {
        return false;
    }
    all_ws_exec(&slice_range(l, p4 + 3, l.len()))
}

pub fn fence_of_exec(l: &Vec<char>) -> (r: Option<(char, usize)>)
    ensures
        match r {
            Some((c, n)) => fence_of(l@) == Some((c, n as nat)),
            None => fence_of(l@) is None,
        },
{
    let k = lead_ws_exec(l);
    proof {
        lemma_lead_ws(l@);
    }
    if k > 3 || k >= l.len() {
        return None;
    }
    let c = l[k];
    if c != '`' && c != '~' {
        return None;
    }
    let mut j = k;
    while j < l.len() && l[j] == c
        invariant
            k <= j <= l.len(),
            run_len(l@, k as int, c) == (j - k) + run_len(l@, j as int, c),
        decreases l.len() - j,
    {
        j = j + 1;
    }
    let n = j - k;
    if n >= 3 {
        Some((c, n))
    } else {
        None
    }
}

/// The lines `lines[from..to]` joined with `\n`.
pub fn join_lines_range(lines: &Vec<Vec<char>>, from: usize, to: usize) -> (r: Vec<char>)
    requires
        from <= to <= lines.len(),
    ensures
        r@ == join_with(lines@.map_values(|l: Vec<char>| l@).subrange(from as int, to as int), "\n"@),
{
    let ghost ls = lines@.map_values(|l: Vec<char>| l@);
    let nl = chars_of("\n");
    let mut out: Vec<char> = Vec::new();
    let mut i = from;
    while i < to
        invariant
            from <= i <= to <= lines.len(),
            ls == lines@.map_values(|l: Vec<char>| l@),
            nl@ == "\n"@,
            out@ == join_with(ls.subrange(from as int, i as int), "\n"@),
        decreases to - i,
    {
        proof {
            assert(ls.subrange(from as int, i + 1).drop_last() =~= ls.subrange(from as int, i as int));
        }
        if i > from {
            append_chars(&mut out, &nl);
        }
        append_chars(&mut out, &lines[i]);
        proof {
            if i == from {
                assert(out@ =~= ls.subrange(from as int, i + 1)[0]);
            } else {
                assert(ls.subrange(from as int, i + 1).last() == ls[i as int]);
            }
        }
        i = i + 1;
    }
    out
}

fn scan_body_exec(lines: &Vec<Vec<char>>, start: usize) -> (r: (usize, bool))
    requires
        start <= lines.len(),
    ensures
        (r.0 as int, r.1) == scan_body(lines@.map_values(|l: Vec<char>| l@), start as int, None),
        r.0 <= lines.len(),
        r.1 ==> r.0 < lines.len(),
        r.0 >= start,
{
    let ghost ls = lines@.map_values(|l: Vec<char>| l@);
    let mut fence: Option<(char, usize)> = None;
    let mut i = start;
    while i < lines.len()
        invariant
            start <= i <= lines.len(),
            ls == lines@.map_values(|l: Vec<char>| l@),
            scan_body(ls, i as int, match fence {
                Some((c, n)) => Some((c, n as nat)),
                None => None,
            }) == scan_body(ls, start as int, None),
        decreases lines.len() - i,
    {
        let line = &lines[i];
        proof {
            assert(ls[i as int] == line@);
        }
        match fence_of_exec(line) {
            Some((c, l)) => {
                fence = match fence {
                    None => Some((c, l)),
                    Some((fc, fl)) => if c == fc && l >= fl {
                        None
                    } else {
                        Some((fc, fl))
                    },
                };
            },
            None => {
                if fence.is_none() && is_closer_exec(line) {
                    return (i, true);
                }
            },
        }
        i = i + 1;
    }
    (lines.len(), false)
}

fn warning_unclosed(path: &Vec<char>) -> (r: String)
    ensures
        r@ == unclosed_warning(path@),
{
    let mut out = chars_of("FILE block \"");
    if path.len() == 0 {
        append_chars(&mut out, &chars_of("(unnamed)"));
    } else {
        append_chars(&mut out, path);
    }
    append_chars(&mut out, &chars_of("\" was not closed before end of stream — likely truncation. Block dropped."));
    string_of(&out)
}

fn warning_unsafe(path: &Vec<char>) -> (r: String)
    ensures
        r@ == unsafe_path_warning(path@),
{
    let mut out = chars_of("FILE block with unsafe path \"");
    append_chars(&mut out, path);
    append_chars(&mut out, &chars_of("\" rejected (must be under .wiki/, no .., no absolute paths)."));
    string_of(&out)
}

pub open spec fn blocks_view(bs: Seq<ParsedFileBlock>) -> Seq<(Seq<char>, Seq<char>)> {
    bs.map_values(|b: ParsedFileBlock| (b.path@, b.content@))
}

pub open spec fn strings_view(ws: Seq<String>) -> Seq<Seq<char>> {
    ws.map_values(|w: String| w@)
}

/// Reads the FILE blocks of an ingest stream (see `parse_stream`).
pub fn parse_file_blocks(text: &str) -> (r: ParseFileBlocksResult)
    ensures
        (blocks_view(r.blocks@), strings_view(r.warnings@)) == parse_stream(text@),
{
    let raw = chars_of(text);
    let normalized = replace_crlf_exec(&raw);
    let lines = split_on_exec(&normalized, '\n');
    let ghost ls = lines@.map_values(|l: Vec<char>| l@);
    let mut blocks: Vec<ParsedFileBlock> = Vec::new();
    let mut warnings: Vec<String> = Vec::new();
    let mut i: usize = 0;
    proof {
        assert(blocks_view(blocks@) + parse_from(ls, 0).0 =~= parse_from(ls, 0).0);
        assert(strings_view(warnings@) + parse_from(ls, 0).1 =~= parse_from(ls, 0).1);
    }
    while i < lines.len()
        invariant
            i <= lines.len(),
            ls == lines@.map_values(|l: Vec<char>| l@),
            ls == split_on(replace_crlf(text@), '\n'),
            blocks_view(blocks@) + parse_from(ls, i as int).0 == parse_from(ls, 0).0,
            strings_view(warnings@) + parse_from(ls, i as int).1 == parse_from(ls, 0).1,
        decreases lines.len() - i,
    {
        let ghost bv = blocks_view(blocks@);
        let ghost wv = strings_view(warnings@);
        proof {
            assert(ls[i as int] == lines@[i as int]@);
        }
        match opener_path_exec(&lines[i]) {
            None => {
                proof {
                    assert(parse_from(ls, i as int) == parse_from(ls, i + 1));
                }
                i = i + 1;
            },
            Some(path) => {
                let (end, closed) = scan_body_exec(&lines, i + 1);
                proof {
                    if closed {
                        assert(parse_from_after(ls, i as int, end as int) == parse_from(ls, end + 1));
                    }
                }
                if !closed {
                    warnings.push(warning_unclosed(&path));
                    proof {
                        assert(strings_view(warnings@) =~= wv.push(unclosed_warning(path@)));
                        assert(parse_from(ls, lines.len() as int).0 =~= Seq::<(Seq<char>, Seq<char>)>::empty());
                        assert(bv + Seq::<(Seq<char>, Seq<char>)>::empty() =~= bv);
                        assert(wv + seq![unclosed_warning(path@)] =~= wv.push(unclosed_warning(path@)));
                        assert(wv.push(unclosed_warning(path@)) + parse_from(ls, lines.len() as int).1 =~= wv.push(unclosed_warning(path@)));
                    }
                    i = lines.len();
                } else {
                    if path.len() == 0 {
                        warnings.push(string_of(&chars_of("FILE block with empty path skipped (LLM omitted the path after `---FILE:`).")));
                        proof {
                            assert(strings_view(warnings@) =~= wv.push(empty_path_warning()));
                            assert(wv + (seq![empty_path_warning()] + parse_from(ls, end + 1).1) =~= wv.push(empty_path_warning()) + parse_from(ls, end + 1).1);
                        }
                    } else if !is_safe_path_chars(&path) {
                        warnings.push(warning_unsafe(&path));
                        proof {
                            assert(strings_view(warnings@) =~= wv.push(unsafe_path_warning(path@)));
                            assert(wv + (seq![unsafe_path_warning(path@)] + parse_from(ls, end + 1).1) =~= wv.push(unsafe_path_warning(path@)) + parse_from(ls, end + 1).1);
                        }
                    } else {
                        let content = join_lines_range(&lines, i + 1, end);
                        let p_s = string_of(&path);
                        let c_s = string_of(&content);
                        blocks.push(ParsedFileBlock { path: p_s, content: c_s });
                        proof {
                            let item = (path@, join_with(ls.subrange(i + 1, end as int), "\n"@));
                            assert(blocks_view(blocks@) =~= bv.push(item));
                            assert(bv + (seq![item] + parse_from(ls, end + 1).0) =~= bv.push(item) + parse_from(ls, end + 1).0);
                        }
                    }
                    i = end + 1;
                }
            },
        }
    }
    ParseFileBlocksResult { blocks, warnings }
}

} // verus!
