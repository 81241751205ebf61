use vstd::prelude::*;

use crate::text::{
    append_chars, chars_of, has_at, has_at_exec, is_ws, is_ws_exec, lead_ws, lead_ws_exec, lemma_lead_ws, slice_range,
    split_on, split_on_exec, string_of, trim, trim_exec,
};

verus! {

/// The first position at or after `from` that holds `c`, or the length of `s`.
pub open spec fn find_from(s: Seq<char>, from: int, c: char) -> int
    decreases s.len() - from,
{
    if from >= s.len() {
        s.len() as int
    } else if s[from] == c {
        from
    } else {
        find_from(s, from + 1, c)
    }
}

/// The first position at or after `from` that holds `c`, or the length of `s`.
pub fn find_char_from(s: &Vec<char>, from: usize, c: char) -> (r: usize)
    requires
        from <= s.len(),
    ensures
        r == find_from(s@, from as int, c),
        from <= r <= s.len(),
        r < s.len() ==> s@[r as int] == c,
{
    let mut i = from;
    while i < s.len() && s[i] != c
        invariant
            from <= i <= s.len(),
            find_from(s@, from as int, c) == find_from(s@, i as int, c),
        decreases s.len() - i,
    {
        i = i + 1;
    }
    i
}

/// A wiki link `[[target]]` opening at `i`: the position of its closing `]]`.
/// The target is the run of characters other than `]` after `[[`, at least one.
pub open spec fn wiki_link_at(s: Seq<char>, i: int) -> Option<int> {
    if 0 <= i && i + 1 < s.len() && s[i] == '[' && s[i + 1] == '[' {
        let k = find_from(s, i + 2, ']');
        if k > i + 2 && k < s.len() - 1 && s[k + 1] == ']' {
            Some(k)
        } else {
            None
        }
    } else {
        None
    }
}

/// The targets of the wiki links in `s` from position `i` on, left to right, each
/// match resuming the scan after its end.
pub open spec fn wiki_links_from(s: Seq<char>, i: int) -> Seq<Seq<char>>
    decreases s.len() - i,
{
    if i < 0 || i >= s.len() {
        Seq::empty()
    } else {
        match wiki_link_at(s, i) {
            Some(k) => seq![s.subrange(i + 2, k)] + wiki_links_from(s, k + 2),
            None => wiki_links_from(s, i + 1),
        }
    }
}

pub open spec fn md_suffix() -> Seq<char> {
    seq!['.', 'm', 'd']
}

/// A markdown link `[text](target.md)` opening at `i`: the positions of its `]`
/// and of its closing `)`. The text is a run of characters other than `]`, at
/// least one; the target a run of characters other than `)`, at least one, then `.md`.
pub open spec fn md_link_at(s: Seq<char>, i: int) -> Option<(int, int)> {
    if 0 <= i && i < s.len() && s[i] == '[' {
        let k = find_from(s, i + 1, ']');
        if k > i + 1 && k < s.len() - 1 && s[k + 1] == '(' {
            let m = find_from(s, k + 2, ')');
            if m < s.len() && m - (k + 2) >= 4 && s.subrange(m - 3, m) == md_suffix() {
                Some((k, m))
            } else {
                None
            }
        } else {
            None
        }
    } else {
        None
    }
}

/// The page ids that the markdown links to `.md` files in `s` from position `i` on
/// name (the target without `.md`), left to right.
pub open spec fn md_links_from(s: Seq<char>, i: int) -> Seq<Seq<char>>
    decreases s.len() - i,
{
    if i < 0 || i >= s.len() {
        Seq::empty()
    } else {
        match md_link_at(s, i) {
            Some((k, m)) => seq![s.subrange(k + 2, m - 3)] + md_links_from(s, m + 1),
            None => md_links_from(s, i + 1),
        }
    }
}

proof fn lemma_find_shift(a: Seq<char>, b: Seq<char>, j: int, c: char)
    requires
        0 <= j <= b.len(),
    ensures
        find_from(a + b, j + a.len(), c) == find_from(b, j, c) + a.len(),
    decreases b.len() - j,
{
    if j < b.len() {
        assert((a + b)[j + a.len()] == b[j]);
        lemma_find_shift(a, b, j + 1, c);
    }
}

proof fn lemma_find_upto(s: Seq<char>, from: int, to: int, c: char)
    requires
        0 <= from <= to <= s.len(),
        forall|j: int| from <= j < to ==> s[j] != c,
        to < s.len() ==> s[to] == c,
    ensures
        find_from(s, from, c) == to,
    decreases to - from,
{
    if from < to {
        lemma_find_upto(s, from + 1, to, c);
    }
}

proof fn lemma_md_link_at_shift(a: Seq<char>, b: Seq<char>, i: int)
    requires
        0 <= i < b.len(),
    ensures
        md_link_at(a + b, i + a.len()) == (match md_link_at(b, i) {
            Some((k, m)) => Some((k + a.len(), m + a.len())),
            None => None,
        }),
{
    let s = a + b;
    let n = a.len() as int;
    assert(s[i + n] == b[i]);
    if b[i] == '[' {
        lemma_find_shift(a, b, i + 1, ']');
        let k = find_from(b, i + 1, ']');
        if k > i + 1 && k < b.len() - 1 {
            assert(s[k + n + 1] == b[k + 1]);
            if b[k + 1] == '(' {
                lemma_find_shift(a, b, k + 2, ')');
                let m = find_from(b, k + 2, ')');
                if m < b.len() && m - (k + 2) >= 4 {
                    assert(s.subrange(m + n - 3, m + n) =~= b.subrange(m - 3, m));
                }
            }
        }
    }
}

proof fn lemma_md_links_shift(a: Seq<char>, b: Seq<char>, i: int)
    requires
        0 <= i,
    ensures
        md_links_from(a + b, i + a.len()) == md_links_from(b, i),
    decreases b.len() - i,
{
    if i < b.len() {
        lemma_md_link_at_shift(a, b, i);
        match md_link_at(b, i) {
            Some((k, m)) => {
                lemma_find_upto_bounds(b, i, k, m);
                lemma_md_links_shift(a, b, m + 1);
                assert((a + b).subrange(k + a.len() + 2, m + a.len() - 3) =~= b.subrange(k + 2, m - 3));
            },
            None => {
                lemma_md_links_shift(a, b, i + 1);
            },
        }
    }
}

proof fn lemma_find_upto_bounds(b: Seq<char>, i: int, k: int, m: int)
    requires
        0 <= i < b.len(),
        md_link_at(b, i) == Some((k, m)),
    ensures
        i < k < m < b.len(),
{
}

/// The text of the markdown link `[t](x.md)`.
pub open spec fn md_link_text(t: Seq<char>, x: Seq<char>) -> Seq<char> {
    seq!['['] + t + seq![']', '('] + x + md_suffix() + seq![')']
}

/// Law: text without a `[` names no markdown link, and the links of what follows it are
/// found as they would be on their own.
pub proof fn lemma_md_links_plain_prefix(a: Seq<char>, b: Seq<char>)
    requires
        forall|j: int| 0 <= j < a.len() ==> a[j] != '[',
    ensures
        md_links_from(a + b, 0) == md_links_from(b, 0),
{
    lemma_md_links_skip_plain(a, b, 0);
    lemma_md_links_shift(a, b, 0);
}

proof fn lemma_md_links_skip_plain(a: Seq<char>, b: Seq<char>, i: int)
    requires
        0 <= i <= a.len(),
        forall|j: int| 0 <= j < a.len() ==> a[j] != '[',
    ensures
        md_links_from(a + b, i) == md_links_from(a + b, a.len() as int),
    decreases a.len() - i,
{
    if i < a.len() {
        assert((a + b)[i] == a[i]);
        lemma_md_links_skip_plain(a, b, i + 1);
    }
}

/// Law: a markdown link `[t](x.md)` (a text of one or more characters other than `]`, a
/// target of one or more characters other than `)`) names the page `x`, and the links of
/// what follows it come after, found as they would be on their own. With the law above,
/// every link of a text made of plain runs and such links is found, in order.
pub proof fn lemma_md_links_link_prefix(t: Seq<char>, x: Seq<char>, b: Seq<char>)
    requires
        t.len() >= 1,
        x.len() >= 1,
        forall|j: int| 0 <= j < t.len() ==> t[j] != ']',
        forall|j: int| 0 <= j < x.len() ==> x[j] != ')',
    ensures
        md_links_from(md_link_text(t, x) + b, 0) == seq![x] + md_links_from(b, 0),
{
    let l = md_link_text(t, x);
    let s = l + b;
    let tl = t.len() as int;
    let xl = x.len() as int;
    let k = 1 + tl;
    let m = k + 5 + xl;
    assert(l.len() == m + 1);
    assert(s[0] == '[');
    assert forall|j: int| 1 <= j < k implies s[j] != ']' by {
        assert(s[j] == t[j - 1]);
    }
    assert(s[k] == ']');
    lemma_find_upto(s, 1, k, ']');
    assert(s[k + 1] == '(');
    assert forall|j: int| k + 2 <= j < m implies s[j] != ')' by {
        if j < k + 2 + xl {
            assert(s[j] == x[j - k - 2]);
        } else {
            assert(s[j] == md_suffix()[j - k - 2 - xl]);
        }
    }
    assert(s[m] == ')');
    lemma_find_upto(s, k + 2, m, ')');
    assert(s.subrange(m - 3, m) =~= md_suffix());
    assert(md_link_at(s, 0) == Some((k, m)));
    assert(s.subrange(k + 2, m - 3) =~= x);
    lemma_md_links_shift(l, b, 0);
}

/// The links of a page: its wiki links, then its markdown links to `.md` pages.
pub open spec fn page_links(s: Seq<char>) -> Seq<Seq<char>> {
    wiki_links_from(s, 0) + md_links_from(s, 0)
}

pub open spec fn views_of(v: Seq<String>) -> Seq<Seq<char>> {
    v.map_values(|x: String| x@)
}

pub proof fn lemma_views_push(s: Seq<String>, x: String)
    ensures
        views_of(s.push(x)) == views_of(s).push(x@),
{
    assert(views_of(s.push(x)) =~= views_of(s).push(x@));
}

fn wiki_links_exec(s: &Vec<char>, out: &mut Vec<String>)
    ensures
        views_of(final(out)@) == views_of(old(out)@) + wiki_links_from(s@, 0),
{
    let mut i: usize = 0;
    let ghost start = views_of(out@);
    while i < s.len()
        invariant
            i <= s.len(),
            start + wiki_links_from(s@, 0) == views_of(out@) + wiki_links_from(s@, i as int),
        decreases s.len() - i,
    {
        let mut matched = false;
        if i + 1 < s.len() && s[i] == '[' && s[i + 1] == '[' {
            let k = find_char_from(s, i + 2, ']');
            if k > i + 2 && k < s.len() - 1 && s[k + 1] == ']' {
                let target = slice_range(s, i + 2, k);
                let ghost before = views_of(out@);
                out.push(string_of(&target));
                proof {
                    assert(wiki_link_at(s@, i as int) == Some(k as int));
                    assert(views_of(out@) =~= before.push(s@.subrange(i + 2, k as int)));
                    assert(wiki_links_from(s@, i as int) == seq![s@.subrange(i + 2, k as int)]
                        + wiki_links_from(s@, k + 2));
                    assert(before.push(s@.subrange(i + 2, k as int)) + wiki_links_from(s@, k + 2)
                        =~= before + (seq![s@.subrange(i + 2, k as int)] + wiki_links_from(s@, k + 2)));
                }
                i = k + 2;
                matched = true;
            }
        }
        if !matched {
            proof {
                assert(wiki_link_at(s@, i as int) is None);
            }
            i = i + 1;
        }
    }
    proof {
        assert(views_of(out@) + Seq::<Seq<char>>::empty() =~= views_of(out@));
    }
}

fn md_links_exec(s: &Vec<char>, out: &mut Vec<String>)
    ensures
        views_of(final(out)@) == views_of(old(out)@) + md_links_from(s@, 0),
{
    let mut i: usize = 0;
    let ghost start = views_of(out@);
    let md = vec!['.', 'm', 'd'];
    while i < s.len()
        invariant
            i <= s.len(),
            md@ == md_suffix(),
            start + md_links_from(s@, 0) == views_of(out@) + md_links_from(s@, i as int),
        decreases s.len() - i,
    {
        let mut next = i + 1;
        if s[i] == '[' {
            let k = find_char_from(s, i + 1, ']');
            if k > i + 1 && k < s.len() - 1 && s[k + 1] == '(' {
                let m = find_char_from(s, k + 2, ')');
                if m < s.len() && m - (k + 2) >= 4 && crate::text::has_at_exec(s, m - 3, &md) {
                    let target = slice_range(s, k + 2, m - 3);
                    let ghost before = views_of(out@);
                    out.push(string_of(&target));
                    proof {
                        assert(md_link_at(s@, i as int) == Some((k as int, m as int)));
                        assert(views_of(out@) =~= before.push(s@.subrange(k + 2, m - 3)));
                        assert(before.push(s@.subrange(k + 2, m - 3)) + md_links_from(s@, m + 1)
                            =~= before + (seq![s@.subrange(k + 2, m - 3)] + md_links_from(s@, m + 1)));
                    }
                    next = m + 1;
                }
            }
        }
        proof {
            if next == i + 1 {
                assert(md_link_at(s@, i as int) is None);
            }
        }
        i = next;
    }
    proof {
        assert(views_of(out@) + Seq::<Seq<char>>::empty() =~= views_of(out@));
    }
}

/// The pages a page links to: the targets of its `[[target]]` links, then the
/// targets of its `[text](target.md)` links without `.md`.
pub fn extract_links(content: &str) -> (r: Vec<String>)
    ensures
        views_of(r@) == page_links(content@),
{
    let s = chars_of(content);
    let mut out: Vec<String> = Vec::new();
    proof {
        assert(views_of(out@) =~= Seq::<Seq<char>>::empty());
    }
    wiki_links_exec(&s, &mut out);
    md_links_exec(&s, &mut out);
    proof {
        assert(Seq::<Seq<char>>::empty() + wiki_links_from(s@, 0) =~= wiki_links_from(s@, 0));
    }
    out
}

/// The number of words of `s`: maximal runs of characters that are not white space.
pub open spec fn word_count(s: Seq<char>) -> nat
    decreases s.len(),
{
    if s.len() == 0 {
        0
    } else {
        word_count(s.drop_last()) + if !is_ws(s.last()) && (s.len() == 1 || is_ws(s[s.len() - 2])) {
            1nat
        } else {
            0nat
        }
    }
}

pub proof fn lemma_word_count_bound(s: Seq<char>)
    ensures
        word_count(s) <= s.len(),
    decreases s.len(),
{
    if s.len() > 0 {
        lemma_word_count_bound(s.drop_last());
    }
}

/// The number of words of `content`, as `split_whitespace().count()` gives it.
pub fn count_words(content: &str) -> (r: usize)
    ensures
        r == word_count(content@),
{
    let s = chars_of(content);
    let mut n: usize = 0;
    let mut i: usize = 0;
    while i < s.len()
        invariant
            i <= s.len(),
            n == word_count(s@.take(i as int)),
            n <= i,
        decreases s.len() - i,
    {
        proof {
            assert(s@.take(i + 1).drop_last() =~= s@.take(i as int));
        }
        if !is_ws_exec(s[i]) && (i == 0 || is_ws_exec(s[i - 1])) {
            n = n + 1;
        }
        i = i + 1;
    }
    proof {
        assert(s@.take(s@.len() as int) =~= s@);
    }
    n
}


/// `s` begins with `p`.
pub open spec fn begins(s: Seq<char>, p: Seq<char>) -> bool {
    p.len() <= s.len() && s.take(p.len() as int) == p
}

/// The first position at or after `from` that holds white space, or the length of `s`.
pub open spec fn find_ws_from(s: Seq<char>, from: int) -> int
    decreases s.len() - from,
{
    if from >= s.len() {
        s.len() as int
    } else if is_ws(s[from]) {
        from
    } else {
        find_ws_from(s, from + 1)
    }
}

/// The first word of `s`, as `split_whitespace().next()` gives it (empty if there is none).
pub open spec fn first_word(s: Seq<char>) -> Seq<char> {
    let rest = s.skip(lead_ws(s) as int);
    rest.take(find_ws_from(rest, 0))
}

/// `s` without the copies of `c` at its end.
pub open spec fn trim_end_char(s: Seq<char>, c: char) -> Seq<char>
    decreases s.len(),
{
    if s.len() > 0 && s.last() == c {
        trim_end_char(s.drop_last(), c)
    } else {
        s
    }
}

/// What a line of a page says, for each kind of line that titles are taken from.
pub enum LineKind {
    /// A `# ` heading: its text.
    Heading,
    /// A `pub struct` line: the struct's name.
    Struct,
    /// A `pub fn` or `pub async fn` line: the function's name.
    Function,
}

/// What `line` says as a line of the given kind, if it is one. Each kind looks at
/// the line with white space trimmed at both ends.
pub open spec fn line_item(kind: LineKind, line: Seq<char>) -> Option<Seq<char>> {
    let t = trim(line);
    match kind {
        LineKind::Heading => if begins(t, "# "@) {
            Some(trim(t.skip("# "@.len() as int)))
        } else {
            None
        },
        LineKind::Struct => if begins(t, "pub struct "@) {
            Some(trim(trim_end_char(first_word(t.skip("pub struct "@.len() as int)), '{')))
        } else {
            None
        },
        LineKind::Function => if begins(t, "pub async fn "@) {
            let after = t.skip("pub async fn "@.len() as int);
            Some(trim(after.take(find_from(after, 0, '('))))
        } else if begins(t, "pub fn "@) {
            let after = t.skip("pub fn "@.len() as int);
            Some(trim(after.take(find_from(after, 0, '('))))
        } else {
            None
        },
    }
}

/// The item of the first line, from line `i` on, that is a line of the given kind.
pub open spec fn first_item_from(lines: Seq<Seq<char>>, i: int, kind: LineKind) -> Option<Seq<char>>
    decreases lines.len() - i,
{
    if i < 0 || i >= lines.len() {
        None
    } else {
        match line_item(kind, lines[i]) {
            Some(x) => Some(x),
            None => first_item_from(lines, i + 1, kind),
        }
    }
}

/// The item of the first line of `content` of the given kind. Lines are split at
/// `\n`; a `\r` before it, and an empty last line, change nothing here since every
/// kind trims the line and none takes an empty one.
pub open spec fn first_item(content: Seq<char>, kind: LineKind) -> Option<Seq<char>> {
    first_item_from(split_on(content, '\n'), 0, kind)
}

pub open spec fn opt_view(o: Option<Vec<char>>) -> Option<Seq<char>> {
    match o {
        Some(v) => Some(v@),
        None => None,
    }
}

fn begins_exec(s: &Vec<char>, p: &Vec<char>) -> (r: bool)
    ensures
        r == begins(s@, p@),
{
    let r = has_at_exec(s, 0, p);
    proof {
        assert(r == has_at(s@, 0, p@));
    }
    r
}

fn find_ws_exec(s: &Vec<char>) -> (r: usize)
    ensures
        r == find_ws_from(s@, 0),
        r <= s.len(),
{
    let mut i: usize = 0;
    while i < s.len() && !is_ws_exec(s[i])
        invariant
            i <= s.len(),
            find_ws_from(s@, 0) == find_ws_from(s@, i as int),
        decreases s.len() - i,
    {
        i = i + 1;
    }
    i
}

fn first_word_exec(s: &Vec<char>) -> (r: Vec<char>)
    ensures
        r@ == first_word(s@),
{
    let a = lead_ws_exec(s);
    proof {
        lemma_lead_ws(s@);
    }
    let rest = slice_range(s, a, s.len());
    let n = find_ws_exec(&rest);
    proof {
        assert(rest@ =~= s@.skip(a as int));
    }
    slice_range(&rest, 0, n)
}

fn trim_end_char_exec(s: &Vec<char>, c: char) -> (r: Vec<char>)
    ensures
        r@ == trim_end_char(s@, c),
{
    let mut n = s.len();
    proof {
        assert(s@.take(n as int) =~= s@);
    }
    while n > 0 && s[n - 1] == c
        invariant
            n <= s.len(),
            trim_end_char(s@, c) == trim_end_char(s@.take(n as int), c),
        decreases n,
    {
        proof {
            assert(s@.take(n as int).drop_last() =~= s@.take(n - 1));
        }
        n = n - 1;
    }
    slice_range(s, 0, n)
}

fn line_item_exec(kind: &LineKind, line: &Vec<char>) -> (r: Option<Vec<char>>)
    ensures
        opt_view(r) == line_item(*kind, line@),
{
    let t = trim_exec(line);
    match kind {
        LineKind::Heading => {
            let p = chars_of("# ");
            if begins_exec(&t, &p) {
                let rest = slice_range(&t, p.len(), t.len());
                proof {
                    assert(rest@ =~= t@.skip(p@.len() as int));
                }
                Some(trim_exec(&rest))
            } else {
                None
            }
        },
        LineKind::Struct => {
            let p = chars_of("pub struct ");
            if begins_exec(&t, &p) {
                let rest = slice_range(&t, p.len(), t.len());
                proof {
                    assert(rest@ =~= t@.skip(p@.len() as int));
                }
                let w = first_word_exec(&rest);
                let w2 = trim_end_char_exec(&w, '{');
                Some(trim_exec(&w2))
            } else {
                None
            }
        },
        LineKind::Function => {
            let pa = chars_of("pub async fn ");
            let pf = chars_of("pub fn ");
            let n = if begins_exec(&t, &pa) {
                pa.len()
            } else if begins_exec(&t, &pf) {
                pf.len()
            } else {
                return None;
            };
            let after = slice_range(&t, n, t.len());
            proof {
                assert(after@ =~= t@.skip(n as int));
            }
            let k = find_char_from(&after, 0, '(');
            let name = slice_range(&after, 0, k);
            Some(trim_exec(&name))
        },
    }
}

/// The item of the first line of `content` of the given kind.
fn first_item_exec(content: &Vec<char>, kind: LineKind) -> (r: Option<Vec<char>>)
    ensures
        opt_view(r) == first_item(content@, kind),
{
    let lines = split_on_exec(content, '\n');
    let ghost ls = split_on(content@, '\n');
    let mut i: usize = 0;
    while i < lines.len()
        invariant
            i <= lines.len(),
            lines@.map_values(|l: Vec<char>| l@) == ls,
            ls == split_on(content@, '\n'),
            first_item_from(ls, 0, kind) == first_item_from(ls, i as int, kind),
        decreases lines.len() - i,
    {
        proof {
            assert(ls[i as int] == lines@[i as int]@);
        }
        let item = line_item_exec(&kind, &lines[i]);
        if item.is_some() {
            proof {
                assert(line_item(kind, ls[i as int]) is Some);
                assert(first_item_from(ls, i as int, kind) == line_item(kind, ls[i as int]));
            }
            return item;
        }
        i = i + 1;
    }
    None
}

/// The name of the first `pub struct` of `content`, if any.
pub fn extract_main_struct(content: &str) -> (r: Option<String>)
    ensures
        match r {
            Some(x) => first_item(content@, LineKind::Struct) == Some(x@),
            None => first_item(content@, LineKind::Struct) is None,
        },
{
    let cs = chars_of(content);
    match first_item_exec(&cs, LineKind::Struct) {
        Some(v) => Some(string_of(&v)),
        None => None,
    }
}

/// The name of the first `pub fn` or `pub async fn` of `content`, if any.
pub fn extract_main_function(content: &str) -> (r: Option<String>)
    ensures
        match r {
            Some(x) => first_item(content@, LineKind::Function) == Some(x@),
            None => first_item(content@, LineKind::Function) is None,
        },
{
    let cs = chars_of(content);
    match first_item_exec(&cs, LineKind::Function) {
        Some(v) => Some(string_of(&v)),
        None => None,
    }
}

/// `s` with each `-` and `_` made a space.
pub open spec fn dashes_to_spaces(s: Seq<char>) -> Seq<char> {
    s.map_values(|c: char| if c == '-' || c == '_' { ' ' } else { c })
}

fn dashes_to_spaces_exec(s: &Vec<char>) -> (r: Vec<char>)
    ensures
        r@ == dashes_to_spaces(s@),
{
    let mut r: Vec<char> = Vec::new();
    let mut i: usize = 0;
    while i < s.len()
        invariant
            i <= s.len(),
            r@ == dashes_to_spaces(s@.take(i as int)),
        decreases s.len() - i,
    {
        let c = s[i];
        r.push(if c == '-' || c == '_' { ' ' } else { c });
        proof {
            assert(dashes_to_spaces(s@.take(i + 1)) =~= dashes_to_spaces(s@.take(i as int)).push(
                if c == '-' || c == '_' { ' ' } else { c },
            ));
        }
        i = i + 1;
    }
    proof {
        assert(s@.take(s@.len() as int) =~= s@);
    }
    r
}

/// `s` ends with `p`.
pub open spec fn finishes(s: Seq<char>, p: Seq<char>) -> bool {
    has_at(s, s.len() - p.len(), p)
}

/// A page id without a leading `.wiki-`.
pub open spec fn without_wiki_prefix(id: Seq<char>) -> Seq<char> {
    if begins(id, ".wiki-"@) {
        id.skip(".wiki-"@.len() as int)
    } else {
        id
    }
}

/// The title made up for a page without a heading. For a Rust file (`.rs`) it names
/// the first public struct, else the first public function, else the module; a
/// `.toml` file is the configuration; other ids read with `-` and `_` as spaces.
pub open spec fn generated_title(page_id: Seq<char>, content: Seq<char>) -> Seq<char> {
    let id = without_wiki_prefix(page_id);
    if finishes(id, ".rs"@) {
        let module = id.take(id.len() - ".rs"@.len());
        match first_item(content, LineKind::Struct) {
            Some(st) => st + " ("@ + module + ")"@,
            None => match first_item(content, LineKind::Function) {
                Some(f) => f + "() ("@ + module + ")"@,
                None => "Module: "@ + dashes_to_spaces(module),
            },
        }
    } else if finishes(id, ".toml"@) {
        "Configuration"@
    } else {
        dashes_to_spaces(id)
    }
}

/// The title of a page: the text of its first `# ` heading, else a title made up
/// from its id and content.
pub open spec fn page_title(page_id: Seq<char>, content: Seq<char>) -> Seq<char> {
    match first_item(content, LineKind::Heading) {
        Some(h) => h,
        None => generated_title(page_id, content),
    }
}

/// The title made up for a page without a heading (see `generated_title`).
pub fn generate_title_from_page_id(page_id: &str, content: &str) -> (r: String)
    ensures
        r@ == generated_title(page_id@, content@),
{
    let pid = chars_of(page_id);
    let cs = chars_of(content);
    let prefix = chars_of(".wiki-");
    let id = if begins_exec(&pid, &prefix) {
        let v = slice_range(&pid, prefix.len(), pid.len());
        proof {
            assert(v@ =~= pid@.skip(prefix@.len() as int));
        }
        v
    } else {
        crate::text::copy_of(&pid)
    };
    let rs = chars_of(".rs");
    let toml = chars_of(".toml");
    if id.len() >= rs.len() && has_at_exec(&id, id.len() - rs.len(), &rs) {
        let module = slice_range(&id, 0, id.len() - rs.len());
        proof {
            assert(module@ =~= id@.take(id@.len() - rs@.len()));
        }
        match first_item_exec(&cs, LineKind::Struct) {
            Some(st) => {
                let mut out = st;
                append_chars(&mut out, &chars_of(" ("));
                append_chars(&mut out, &module);
                append_chars(&mut out, &chars_of(")"));
                string_of(&out)
            },
            None => match first_item_exec(&cs, LineKind::Function) {
                Some(f) => {
                    let mut out = f;
                    append_chars(&mut out, &chars_of("() ("));
                    append_chars(&mut out, &module);
                    append_chars(&mut out, &chars_of(")"));
                    string_of(&out)
                },
                None => {
                    let mut out = chars_of("Module: ");
                    append_chars(&mut out, &dashes_to_spaces_exec(&module));
                    string_of(&out)
                },
            },
        }
    } else if id.len() >= toml.len() && has_at_exec(&id, id.len() - toml.len(), &toml) {
        crate::text::owned("Configuration")
    } else {
        string_of(&dashes_to_spaces_exec(&id))
    }
}

/// The title of a page (see `page_title`).
pub fn extract_title(page_id: &str, content: &str) -> (r: String)
    ensures
        r@ == page_title(page_id@, content@),
{
    let cs = chars_of(content);
    match first_item_exec(&cs, LineKind::Heading) {
        Some(h) => string_of(&h),
        None => generate_title_from_page_id(page_id, content),
    }
}


/// The strings joined with `sep` between each two.
pub fn join_strings(v: &Vec<String>, sep: &str) -> (r: String)
    ensures
        r@ == crate::text::join_with(views_of(v@), sep@),
{
    let mut parts: Vec<Vec<char>> = Vec::new();
    let mut i: usize = 0;
    while i < v.len()
        invariant
            i <= v.len(),
            parts@.map_values(|l: Vec<char>| l@) == views_of(v@.take(i as int)),
        decreases v.len() - i,
    {
        let cs = chars_of(v[i].as_str());
        let ghost before = parts@;
        parts.push(cs);
        proof {
            assert(parts@.map_values(|l: Vec<char>| l@) =~= before.map_values(|l: Vec<char>| l@).push(cs@));
            assert(v@.take(i + 1) =~= v@.take(i as int).push(v@[i as int]));
            lemma_views_push(v@.take(i as int), v@[i as int]);
        }
        i = i + 1;
    }
    proof {
        assert(v@.take(v@.len() as int) =~= v@);
    }
    let sep_cs = chars_of(sep);
    string_of(&crate::text::join_exec(&parts, &sep_cs))
}

} // verus!
