use vstd::prelude::*;

use crate::api_types::{LlmConfigFile, ProviderOptions, ProviderOverride};
use crate::chunking::ChunkingConfig;
use crate::embedding::EmbeddingConfig;
use crate::ingest::IngestConfig;
use crate::text::{append_chars, chars_of, copy_of, owned, same_text, slice_range, string_of};

verus! {

/// A model named as `provider/model-name`.
#[derive(Debug, Clone)]
pub struct ParsedModel {
    pub provider: String,
    pub model: String,
}

/// The position of the first `/`.
pub open spec fn first_slash(s: Seq<char>) -> Option<int> {
    if exists|i: int| 0 <= i < s.len() && s[i] == '/' {
        Some(choose|i: int| 0 <= i < s.len() && s[i] == '/' && forall|j: int| 0 <= j < i ==> s[j] != '/')
    } else {
        None
    }
}

/// `provider/model-name` split at the first `/`; the model name may hold more `/`.
pub open spec fn split_model(s: Seq<char>) -> Option<(Seq<char>, Seq<char>)> {
    match first_slash(s) {
        Some(i) => Some((s.subrange(0, i), s.subrange(i + 1, s.len() as int))),
        None => None,
    }
}

pub proof fn lemma_first_slash(s: Seq<char>, i: int)
    requires
        0 <= i < s.len(),
        s[i] == '/',
        forall|j: int| 0 <= j < i ==> s[j] != '/',
    ensures
        first_slash(s) == Some(i),
{
    let c = choose|c: int| 0 <= c < s.len() && s[c] == '/' && forall|j: int| 0 <= j < c ==> s[j] != '/';
    assert(0 <= i < s.len() && s[i] == '/' && forall|j: int| 0 <= j < i ==> s[j] != '/');
    if c < i {
        assert(s[c] != '/');
    } else if c > i {
        assert(s[i] != '/');
    }
}

/// Splits `provider/model-name` at the first `/` (see `split_model`).
pub fn parse_model_string(model_string: &str) -> (r: Result<ParsedModel, String>)
    ensures
        match split_model(model_string@) {
            Some((p, m)) => r matches Ok(pm) && pm.provider@ == p && pm.model@ == m,
            None => r matches Err(e) && e@ == "Invalid model format '"@ + model_string@ + "'. Expected 'provider/model-name'"@,
        },
{
    let cs = chars_of(model_string);
    let mut i: usize = 0;
    while i < cs.len()
        invariant
            i <= cs.len(),
            cs@ == model_string@,
            forall|j: int| 0 <= j < i ==> cs@[j] != '/',
        decreases cs.len() - i,
    {
        if cs[i] == '/' {
            proof {
                lemma_first_slash(model_string@, i as int);
            }
            return Ok(ParsedModel {
                provider: string_of(&slice_range(&cs, 0, i)),
                model: string_of(&slice_range(&cs, i + 1, cs.len())),
            });
        }
        i = i + 1;
    }
    let mut msg = chars_of("Invalid model format '");
    append_chars(&mut msg, &cs);
    append_chars(&mut msg, &chars_of("'. Expected 'provider/model-name'"));
    Err(string_of(&msg))
}

/// What provider options say: API key, model, base URL, API mode, context size.
pub type OptionsView = (Option<Seq<char>>, Option<Seq<char>>, Option<Seq<char>>, Option<Seq<char>>, Option<u32>);

pub open spec fn opt_str(o: Option<String>) -> Option<Seq<char>> {
    match o {
        Some(s) => Some(s@),
        None => None,
    }
}

pub open spec fn options_view(o: ProviderOptions) -> OptionsView {
    (opt_str(o.api_key), opt_str(o.model), opt_str(o.base_url), opt_str(o.api_mode), o.max_context_size)
}

pub open spec fn override_view(p: ProviderOverride) -> Option<OptionsView> {
    match p.options {
        Some(o) => Some(options_view(o)),
        None => None,
    }
}

fn copy_opt_str(o: &Option<String>) -> (r: Option<String>)
    ensures
        opt_str(r) == opt_str(*o),
{
    match o {
        Some(s) => Some(s.clone()),
        None => None,
    }
}

fn copy_override(p: &ProviderOverride) -> (r: ProviderOverride)
    ensures
        override_view(r) == override_view(*p),
{
    match &p.options {
        Some(o) => ProviderOverride {
            options: Some(ProviderOptions {
                api_key: copy_opt_str(&o.api_key),
                model: copy_opt_str(&o.model),
                base_url: copy_opt_str(&o.base_url),
                api_mode: copy_opt_str(&o.api_mode),
                max_context_size: o.max_context_size,
            }),
        },
        None => ProviderOverride { options: None },
    }
}

/// The first provider entry of the given name.
pub open spec fn provider_index(ps: Seq<(String, ProviderOverride)>, name: Seq<char>) -> Option<int> {
    if exists|i: int| 0 <= i < ps.len() && ps[i].0@ == name {
        Some(choose|i: int| 0 <= i < ps.len() && ps[i].0@ == name && forall|j: int| 0 <= j < i ==> ps[j].0@ != name)
    } else {
        None
    }
}

/// The options of the named provider: `None` when the configuration has no such
/// provider, `Some(None)` when it has one without options.
pub open spec fn provider_options(config: LlmConfigFile, name: Seq<char>) -> Option<Option<OptionsView>> {
    match config.providers {
        None => None,
        Some(ps) => match provider_index(ps@, name) {
            None => None,
            Some(i) => Some(override_view(ps@[i].1)),
        },
    }
}

pub proof fn lemma_provider_index(ps: Seq<(String, ProviderOverride)>, name: Seq<char>, i: int)
    requires
        0 <= i < ps.len(),
        ps[i].0@ == name,
        forall|j: int| 0 <= j < i ==> ps[j].0@ != name,
    ensures
        provider_index(ps, name) == Some(i),
{
    let c = choose|c: int| 0 <= c < ps.len() && ps[c].0@ == name && forall|j: int| 0 <= j < c ==> ps[j].0@ != name;
    assert(0 <= i < ps.len() && ps[i].0@ == name && forall|j: int| 0 <= j < i ==> ps[j].0@ != name);
    if c < i {
        assert(ps[c].0@ != name);
    } else if c > i {
        assert(ps[i].0@ != name);
    }
}

/// The overrides of a named provider; an error when the configuration has none.
pub fn get_provider_config(config: &LlmConfigFile, provider_name: &str) -> (r: Result<ProviderOverride, String>)
    ensures
        match provider_options(*config, provider_name@) {
            Some(o) => r matches Ok(p) && override_view(p) == o,
            None => r matches Err(e) && e@ == "Provider '"@ + provider_name@ + "' not found in config"@,
        },
{
    let name = owned(provider_name);
    match &config.providers {
        Some(ps) => {
            let mut i: usize = 0;
            while i < ps.len()
                invariant
                    i <= ps.len(),
                    config.providers == Some(*ps),
                    name@ == provider_name@,
                    forall|j: int| 0 <= j < i ==> ps@[j].0@ != provider_name@,
                decreases ps.len() - i,
            {
                if same_text(&ps[i].0, &name) {
                    proof {
                        lemma_provider_index(ps@, provider_name@, i as int);
                    }
                    return Ok(copy_override(&ps[i].1));
                }
                i = i + 1;
            }
        },
        None => {},
    }
    let mut msg = chars_of("Provider '");
    append_chars(&mut msg, &chars_of(provider_name));
    append_chars(&mut msg, &chars_of("' not found in config"));
    Err(string_of(&msg))
}

/// The first line break at or after `j`, or the end.
pub open spec fn next_nl(s: Seq<char>, j: int) -> int
    decreases s.len() - j,
{
    if j < 0 || j >= s.len() {
        s.len() as int
    } else if s[j] == '\n' {
        j
    } else {
        next_nl(s, j + 1)
    }
}

/// The first `*/` at or after `k`: the index of its `*`.
pub open spec fn block_end(s: Seq<char>, k: int) -> Option<int>
    decreases s.len() - k,
{
    if k < 0 || k + 1 >= s.len() {
        None
    } else if s[k] == '*' && s[k + 1] == '/' {
        Some(k)
    } else {
        block_end(s, k + 1)
    }
}

/// JSON with comments from position `i` on, the comments taken out: `//` to the end of
/// the line (the line break stays) and `/* ... */`, both outside strings; a block comment
/// that is never closed leaves its `/` and ends the text.
pub open spec fn strip_comments(s: Seq<char>, i: int, in_string: bool, escape: bool) -> Seq<char>
    decreases s.len() - i, 1int,
{
    if i < 0 || i >= s.len() {
        Seq::empty()
    } else {
        let c = s[i];
        if escape {
            seq![c] + strip_comments(s, i + 1, in_string, false)
        } else if c == '\\' && in_string {
            seq![c] + strip_comments(s, i + 1, in_string, true)
        } else if c == '"' {
            seq![c] + strip_comments(s, i + 1, !in_string, false)
        } else if !in_string && c == '/' && i + 1 < s.len() && s[i + 1] == '/' {
            strip_after(s, i, next_nl(s, i + 2))
        } else if !in_string && c == '/' && i + 1 < s.len() && s[i + 1] == '*' {
            match block_end(s, i + 2) {
                Some(k) => strip_after(s, i, k + 2),
                None => seq![c],
            }
        } else {
            seq![c] + strip_comments(s, i + 1, in_string, false)
        }
    }
}

/// The scan resumes at `j`, outside any string, after a comment that began at `i`.
pub open spec fn strip_after(s: Seq<char>, i: int, j: int) -> Seq<char>
    decreases s.len() - i, 0int,
{
    if i < j <= s.len() {
        strip_comments(s, j, false, false)
    } else {
        Seq::empty()
    }
}

pub proof fn lemma_next_nl(s: Seq<char>, j: int)
    requires
        0 <= j,
    ensures
        j <= next_nl(s, j) <= s.len() || (j > s.len() && next_nl(s, j) == s.len()),
    decreases s.len() - j,
{
    if j < s.len() && s[j] != '\n' {
        lemma_next_nl(s, j + 1);
    }
}

pub proof fn lemma_block_end(s: Seq<char>, k: int)
    requires
        0 <= k,
    ensures
        match block_end(s, k) {
            Some(e) => k <= e && e + 1 < s.len() && s[e] == '*' && s[e + 1] == '/',
            None => true,
        },
    decreases s.len() - k,
{
    if k + 1 < s.len() && !(s[k] == '*' && s[k + 1] == '/') {
        lemma_block_end(s, k + 1);
    }
}

/// Takes the comments out of JSON with comments (see `strip_comments`).
pub fn remove_jsonc_comments(input: &str) -> (r: String)
    ensures
        r@ == strip_comments(input@, 0, false, false),
{
    let s = chars_of(input);
    let mut out: Vec<char> = Vec::new();
    let mut i: usize = 0;
    let mut in_string = false;
    let mut escape = false;
    proof {
        assert(out@ + strip_comments(s@, 0, false, false) =~= strip_comments(s@, 0, false, false));
    }
    while i < s.len()
        invariant
            i <= s.len(),
            s@ == input@,
            out@ + strip_comments(s@, i as int, in_string, escape) == strip_comments(s@, 0, false, false),
        decreases s.len() - i,
    {
        let c = s[i];
        let ghost before = out@;
        if escape {
            out.push(c);
            escape = false;
            i = i + 1;
            proof {
                assert(before + (seq![c] + strip_comments(s@, i as int, in_string, false)) =~= out@ + strip_comments(s@, i as int, in_string, false));
            }
        } else if c == '\\' && in_string {
            out.push(c);
            escape = true;
            i = i + 1;
            proof {
                assert(before + (seq![c] + strip_comments(s@, i as int, in_string, true)) =~= out@ + strip_comments(s@, i as int, in_string, true));
            }
        } else if c == '"' {
            out.push(c);
            in_string = !in_string;
            i = i + 1;
            proof {
                assert(before + (seq![c] + strip_comments(s@, i as int, in_string, false)) =~= out@ + strip_comments(s@, i as int, in_string, false));
            }
        } else if !in_string && c == '/' && i + 1 < s.len() && s[i + 1] == '/' {
            let mut j = i + 2;
            while j < s.len() && s[j] != '\n'
                invariant
                    i + 2 <= j <= s.len(),
                    next_nl(s@, i + 2) == next_nl(s@, j as int),
                decreases s.len() - j,
            {
                j = j + 1;
            }
            proof {
                assert(strip_after(s@, i as int, j as int) == strip_comments(s@, j as int, false, false));
            }
            i = j;
        } else if !in_string && c == '/' && i + 1 < s.len() && s[i + 1] == '*' {
            let mut k = i + 2;
            let mut found = false;
            while s.len() - k > 1 && !found
                invariant
                    i + 2 <= k,
                    k <= s.len(),
                    found ==> k + 1 < s.len(),
                    !found ==> block_end(s@, i + 2) == block_end(s@, k as int),
                    found ==> block_end(s@, i + 2) == Some(k as int),
                decreases s.len() - k + (if found { 0int } else { 1int }),
            {
                if s[k] == '*' && s[k + 1] == '/' {
                    found = true;
                } else {
                    k = k + 1;
                }
            }
            if found {
                proof {
                    assert(strip_after(s@, i as int, k + 2) == strip_comments(s@, k + 2, false, false));
                }
                i = k + 2;
            } else {
                out.push(c);
                proof {
                    assert(block_end(s@, k as int) is None);
                    assert(out@ =~= before + seq![c]);
                    assert(out@ + Seq::<char>::empty() =~= out@);
                    assert(strip_comments(s@, s.len() as int, in_string, escape) =~= Seq::<char>::empty());
                }
                i = s.len();
            }
        } else {
            out.push(c);
            i = i + 1;
            proof {
                assert(before + (seq![c] + strip_comments(s@, i as int, in_string, false)) =~= out@ + strip_comments(s@, i as int, in_string, false));
            }
        }
    }
    proof {
        assert(out@ + Seq::<char>::empty() =~= out@);
    }
    string_of(&out)
}

/// No comment opens in `t` from position `i` on, scanning with the string and escape state
/// given: no `//` or `/*` outside a string.
pub open spec fn comment_free(t: Seq<char>, i: int, in_string: bool, escape: bool) -> bool
    decreases t.len() - i,
{
    if i < 0 || i >= t.len() {
        true
    } else {
        let c = t[i];
        if escape {
            comment_free(t, i + 1, in_string, false)
        } else if c == '\\' && in_string {
            comment_free(t, i + 1, in_string, true)
        } else if c == '"' {
            comment_free(t, i + 1, !in_string, false)
        } else if !in_string && c == '/' && i + 1 < t.len() && (t[i + 1] == '/' || t[i + 1] == '*') {
            false
        } else {
            comment_free(t, i + 1, in_string, false)
        }
    }
}

/// Law: text in which no comment opens outside strings (in particular, text with no `/`
/// outside strings) comes back unchanged.
pub proof fn lemma_comment_free_unchanged(s: Seq<char>, i: int, in_string: bool, escape: bool)
    requires
        0 <= i <= s.len(),
        comment_free(s, i, in_string, escape),
    ensures
        strip_comments(s, i, in_string, escape) == s.subrange(i, s.len() as int),
    decreases s.len() - i,
{
    if i < s.len() {
        let c = s[i];
        if escape {
            lemma_comment_free_unchanged(s, i + 1, in_string, false);
        } else if c == '\\' && in_string {
            lemma_comment_free_unchanged(s, i + 1, in_string, true);
        } else if c == '"' {
            lemma_comment_free_unchanged(s, i + 1, !in_string, false);
        } else {
            lemma_comment_free_unchanged(s, i + 1, in_string, false);
        }
        assert(s.subrange(i, s.len() as int) =~= seq![c] + s.subrange(i + 1, s.len() as int));
    } else {
        assert(s.subrange(i, s.len() as int) =~= Seq::<char>::empty());
    }
}

proof fn lemma_comment_free_shift(c: char, r: Seq<char>, j: int, in_string: bool, escape: bool)
    requires
        0 <= j,
    ensures
        comment_free(seq![c] + r, j + 1, in_string, escape) == comment_free(r, j, in_string, escape),
    decreases r.len() - j,
{
    let t = seq![c] + r;
    if j < r.len() {
        assert(t[j + 1] == r[j]);
        if j + 1 < r.len() {
            assert(t[j + 2] == r[j + 1]);
        }
        lemma_comment_free_shift(c, r, j + 1, in_string, false);
        lemma_comment_free_shift(c, r, j + 1, in_string, true);
        lemma_comment_free_shift(c, r, j + 1, !in_string, false);
    }
}

proof fn lemma_strip_first(s: Seq<char>, i: int, in_string: bool, escape: bool)
    requires
        0 <= i < s.len(),
        s[i] != '/',
    ensures
        strip_comments(s, i, in_string, escape).len() > 0,
        strip_comments(s, i, in_string, escape)[0] == s[i],
{
}

/// What comes out of taking the comments out has no comment left.
proof fn lemma_strip_comment_free(s: Seq<char>, i: int, in_string: bool, escape: bool)
    requires
        0 <= i,
    ensures
        comment_free(strip_comments(s, i, in_string, escape), 0, in_string, escape),
    decreases s.len() - i, 1int,
{
    if i < s.len() {
        let c = s[i];
        let t = strip_comments(s, i, in_string, escape);
        if escape {
            lemma_strip_comment_free(s, i + 1, in_string, false);
            lemma_comment_free_shift(c, strip_comments(s, i + 1, in_string, false), 0, in_string, false);
            assert(comment_free(t, 0, in_string, escape));
        } else if c == '\\' && in_string {
            lemma_strip_comment_free(s, i + 1, in_string, true);
            lemma_comment_free_shift(c, strip_comments(s, i + 1, in_string, true), 0, in_string, true);
            assert(comment_free(t, 0, in_string, escape));
        } else if c == '"' {
            lemma_strip_comment_free(s, i + 1, !in_string, false);
            lemma_comment_free_shift(c, strip_comments(s, i + 1, !in_string, false), 0, !in_string, false);
            assert(comment_free(t, 0, in_string, escape));
        } else if !in_string && c == '/' && i + 1 < s.len() && s[i + 1] == '/' {
            let j = next_nl(s, i + 2);
            lemma_next_nl(s, i + 2);
            assert(i < j <= s.len());
            assert(t == strip_after(s, i, j));
            assert(t == strip_comments(s, j, false, false));
            lemma_strip_comment_free(s, j, false, false);
            assert(comment_free(t, 0, in_string, escape));
        } else if !in_string && c == '/' && i + 1 < s.len() && s[i + 1] == '*' {
            lemma_block_end(s, i + 2);
            match block_end(s, i + 2) {
                Some(k) => {
                    assert(t == strip_after(s, i, k + 2));
                    assert(t == strip_comments(s, k + 2, false, false));
                    lemma_strip_comment_free(s, k + 2, false, false);
                    assert(comment_free(t, 0, in_string, escape));
                },
                None => {
                    assert(t == seq![c]);
                    assert(comment_free(t, 1, in_string, false));
                    assert(comment_free(t, 0, in_string, escape));
                },
            }
        } else {
            let r = strip_comments(s, i + 1, in_string, false);
            lemma_strip_comment_free(s, i + 1, in_string, false);
            lemma_comment_free_shift(c, r, 0, in_string, false);
            if i + 1 < s.len() && c == '/' && !in_string {
                lemma_strip_first(s, i + 1, in_string, false);
                assert(t[1] == r[0]);
            }
            assert(comment_free(t, 0, in_string, escape));
        }
    }
}

/// `a` is a subsequence of `b`: its characters occur in `b` in the same order (matched
/// first to first).
pub open spec fn subseq(a: Seq<char>, b: Seq<char>) -> bool
    decreases b.len(),
{
    if a.len() == 0 {
        true
    } else if b.len() == 0 {
        false
    } else if a[0] == b[0] {
        subseq(a.skip(1), b.skip(1))
    } else {
        subseq(a, b.skip(1))
    }
}

proof fn lemma_subseq_drop_first(a: Seq<char>, b: Seq<char>)
    requires
        subseq(a, b),
        a.len() > 0,
    ensures
        subseq(a.skip(1), b),
    decreases b.len(),
{
    if b.len() > 0 {
        if a[0] == b[0] {
            lemma_subseq_wider(a.skip(1), b.skip(1), b);
        } else {
            lemma_subseq_drop_first(a, b.skip(1));
            lemma_subseq_wider(a.skip(1), b.skip(1), b);
        }
    }
}

/// A subsequence of the rest of `b` is one of `b`.
proof fn lemma_subseq_wider(a: Seq<char>, rest: Seq<char>, b: Seq<char>)
    requires
        subseq(a, rest),
        b.len() > 0,
        rest == b.skip(1),
    ensures
        subseq(a, b),
    decreases b.len(), 0int,
{
    if a.len() > 0 && a[0] == b[0] {
        lemma_subseq_drop_first(a, rest);
    }
}

proof fn lemma_subseq_skip(a: Seq<char>, b: Seq<char>, k: int)
    requires
        0 <= k <= b.len(),
        subseq(a, b.skip(k)),
    ensures
        subseq(a, b),
    decreases k,
{
    if k > 0 {
        assert(b.skip(k - 1).skip(1) =~= b.skip(k));
        lemma_subseq_wider(a, b.skip(k), b.skip(k - 1));
        lemma_subseq_skip(a, b, k - 1);
    } else {
        assert(b.skip(0) =~= b);
    }
}

/// What comes out of taking the comments out from position `i` on is a subsequence of the
/// text from `i` on.
pub proof fn lemma_strip_subseq(s: Seq<char>, i: int, in_string: bool, escape: bool)
    requires
        0 <= i <= s.len(),
    ensures
        subseq(strip_comments(s, i, in_string, escape), s.skip(i)),
    decreases s.len() - i, 1int,
{
    if i < s.len() {
        let c = s[i];
        let t = strip_comments(s, i, in_string, escape);
        let here = s.skip(i);
        assert(here.skip(1) =~= s.skip(i + 1));
        if escape || (c == '\\' && in_string) || c == '"' || !(!in_string && c == '/' && i + 1 < s.len() && (s[i + 1] == '/' || s[i + 1] == '*')) {
            let st2 = if escape { in_string } else if c == '\\' && in_string { in_string } else if c == '"' { !in_string } else { in_string };
            let e2 = !escape && c == '\\' && in_string;
            lemma_strip_subseq(s, i + 1, st2, e2);
            let r = strip_comments(s, i + 1, st2, e2);
            assert(t == seq![c] + r);
            assert(t.skip(1) =~= r);
            assert(t[0] == here[0]);
            assert(t.len() > 0 && here.len() > 0);
            assert(subseq(t.skip(1), here.skip(1)));
            assert(subseq(t, here));
        } else if s[i + 1] == '/' {
            let j = next_nl(s, i + 2);
            lemma_next_nl(s, i + 2);
            assert(i < j <= s.len());
            assert(t == strip_after(s, i, j));
            assert(t == strip_comments(s, j, false, false));
            lemma_strip_subseq(s, j, false, false);
            assert(here.skip(j - i) =~= s.skip(j));
            lemma_subseq_skip(t, here, j - i);
        } else {
            lemma_block_end(s, i + 2);
            match block_end(s, i + 2) {
                Some(k) => {
                    assert(t == strip_after(s, i, k + 2));
                    assert(t == strip_comments(s, k + 2, false, false));
                    lemma_strip_subseq(s, k + 2, false, false);
                    assert(here.skip(k + 2 - i) =~= s.skip(k + 2));
                    lemma_subseq_skip(t, here, k + 2 - i);
                },
                None => {
                    assert(t == seq![c]);
                    assert(t.skip(1) =~= Seq::<char>::empty());
                    assert(here[0] == c);
                    assert(subseq(t.skip(1), here.skip(1)));
                    assert(subseq(t, here));
                },
            }
        }
    }
}

/// Law: taking the comments out keeps the other characters in their order: the result is
/// a subsequence of the text.
pub proof fn lemma_strip_comments_subsequence(s: Seq<char>)
    ensures
        subseq(strip_comments(s, 0, false, false), s),
{
    lemma_strip_subseq(s, 0, false, false);
    assert(s.skip(0) =~= s);
}

/// Whether the scan is inside a string, and after a backslash there, once it has read
/// `t` from position `i` on, starting in the state given.
pub open spec fn scan_state(t: Seq<char>, i: int, in_string: bool, escape: bool) -> (bool, bool)
    decreases t.len() - i,
{
    if i < 0 || i >= t.len() {
        (in_string, escape)
    } else {
        let c = t[i];
        if escape {
            scan_state(t, i + 1, in_string, false)
        } else if c == '\\' && in_string {
            scan_state(t, i + 1, in_string, true)
        } else if c == '"' {
            scan_state(t, i + 1, !in_string, false)
        } else {
            scan_state(t, i + 1, in_string, false)
        }
    }
}

proof fn lemma_next_nl_shift(a: Seq<char>, b: Seq<char>, j: int)
    requires
        0 <= j,
    ensures
        next_nl(a + b, a.len() + j) == a.len() + next_nl(b, j),
    decreases b.len() - j,
{
    if j < b.len() {
        assert((a + b)[a.len() + j] == b[j]);
        lemma_next_nl_shift(a, b, j + 1);
    }
}

proof fn lemma_block_end_shift(a: Seq<char>, b: Seq<char>, j: int)
    requires
        0 <= j,
    ensures
        block_end(a + b, a.len() + j) == (match block_end(b, j) {
            Some(k) => Some(a.len() + k),
            None => None,
        }),
    decreases b.len() - j,
{
    if j + 1 < b.len() {
        assert((a + b)[a.len() + j] == b[j]);
        assert((a + b)[a.len() + j + 1] == b[j + 1]);
        lemma_block_end_shift(a, b, j + 1);
    }
}

/// Taking comments out of `a + b` from a position in `b` on is taking them out of `b`.
proof fn lemma_strip_shift(a: Seq<char>, b: Seq<char>, j: int, in_string: bool, escape: bool)
    requires
        0 <= j,
    ensures
        strip_comments(a + b, a.len() + j, in_string, escape) == strip_comments(b, j, in_string, escape),
    decreases b.len() - j, 1int,
{
    let t = a + b;
    let i = a.len() + j;
    if j < b.len() {
        let c = b[j];
        assert(t[i] == c);
        if j + 1 < b.len() {
            assert(t[i + 1] == b[j + 1]);
        }
        if escape {
            lemma_strip_shift(a, b, j + 1, in_string, false);
        } else if c == '\\' && in_string {
            lemma_strip_shift(a, b, j + 1, in_string, true);
        } else if c == '"' {
            lemma_strip_shift(a, b, j + 1, !in_string, false);
        } else if !in_string && c == '/' && j + 1 < b.len() && b[j + 1] == '/' {
            lemma_next_nl_shift(a, b, j + 2);
            lemma_next_nl(b, j + 2);
            let k = next_nl(b, j + 2);
            lemma_strip_shift(a, b, k, false, false);
            assert(j < k <= b.len());
            assert(strip_comments(b, j, in_string, escape) == strip_after(b, j, k));
            assert(strip_comments(b, j, in_string, escape) == strip_comments(b, k, false, false));
            assert(strip_comments(t, i, in_string, escape) == strip_after(t, i, a.len() + k));
            assert(strip_comments(t, i, in_string, escape) == strip_comments(t, a.len() + k, false, false));
        } else if !in_string && c == '/' && j + 1 < b.len() && b[j + 1] == '*' {
            lemma_block_end_shift(a, b, j + 2);
            lemma_block_end(b, j + 2);
            match block_end(b, j + 2) {
                Some(k) => {
                    lemma_strip_shift(a, b, k + 2, false, false);
                    assert(strip_comments(b, j, in_string, escape) == strip_after(b, j, k + 2));
                    assert(strip_comments(b, j, in_string, escape) == strip_comments(b, k + 2, false, false));
                    assert(strip_comments(t, i, in_string, escape) == strip_after(t, i, a.len() + k + 2));
                    assert(strip_comments(t, i, in_string, escape) == strip_comments(t, a.len() + k + 2, false, false));
                },
                None => {},
            }
        } else {
            lemma_strip_shift(a, b, j + 1, in_string, false);
        }
    }
}

/// Law: text in which no comment opens, that leaves the scan outside any string and does
/// not end in `/` (a JSON string literal such as `"http://x"` is such a text) is kept as
/// it is, whatever follows it: `strip(a + b)` is `a` followed by `strip(b)`.
pub proof fn lemma_strip_keeps_prefix(a: Seq<char>, b: Seq<char>, i: int, in_string: bool, escape: bool)
    requires
        0 <= i <= a.len(),
        comment_free(a, i, in_string, escape),
        scan_state(a, i, in_string, escape) == (false, false),
        a.len() == 0 || a.last() != '/',
    ensures
        strip_comments(a + b, i, in_string, escape) == a.skip(i) + strip_comments(b, 0, false, false),
    decreases a.len() - i,
{
    let t = a + b;
    if i < a.len() {
        let c = a[i];
        assert(t[i] == c);
        if i + 1 < a.len() {
            assert(t[i + 1] == a[i + 1]);
        }
        assert(a.skip(i) =~= seq![c] + a.skip(i + 1));
        if escape {
            lemma_strip_keeps_prefix(a, b, i + 1, in_string, false);
        } else if c == '\\' && in_string {
            lemma_strip_keeps_prefix(a, b, i + 1, in_string, true);
        } else if c == '"' {
            lemma_strip_keeps_prefix(a, b, i + 1, !in_string, false);
        } else {
            if !in_string && c == '/' {
                assert(i + 1 < a.len()) by {
                    if i + 1 >= a.len() {
                        assert(a.last() == c);
                    }
                }
            }
            lemma_strip_keeps_prefix(a, b, i + 1, in_string, false);
        }
        assert(seq![c] + (a.skip(i + 1) + strip_comments(b, 0, false, false)) =~= a.skip(i) + strip_comments(b, 0, false, false));
    } else {
        lemma_strip_shift(a, b, 0, false, false);
        assert(a.skip(i) =~= Seq::<char>::empty());
        assert(Seq::<char>::empty() + strip_comments(b, 0, false, false) =~= strip_comments(b, 0, false, false));
    }
}

/// Law: taking the comments out twice gives what taking them out once gives.
pub proof fn lemma_strip_comments_idempotent(s: Seq<char>)
    ensures
        strip_comments(strip_comments(s, 0, false, false), 0, false, false) == strip_comments(s, 0, false, false),
{
    let t = strip_comments(s, 0, false, false);
    lemma_strip_comment_free(s, 0, false, false);
    lemma_comment_free_unchanged(t, 0, false, false);
    assert(t.subrange(0, t.len() as int) =~= t);
}

/// Law: text without a `/` has no comment to take out and comes back unchanged.
pub proof fn lemma_no_slash_unchanged(s: Seq<char>, i: int, in_string: bool, escape: bool)
    requires
        0 <= i <= s.len(),
        forall|k: int| 0 <= k < s.len() ==> s[k] != '/',
    ensures
        strip_comments(s, i, in_string, escape) == s.subrange(i, s.len() as int),
    decreases s.len() - i,
{
    if i < s.len() {
        let c = s[i];
        if escape {
            lemma_no_slash_unchanged(s, i + 1, in_string, false);
        } else if c == '\\' && in_string {
            lemma_no_slash_unchanged(s, i + 1, in_string, true);
        } else if c == '"' {
            lemma_no_slash_unchanged(s, i + 1, !in_string, false);
        } else {
            lemma_no_slash_unchanged(s, i + 1, in_string, false);
        }
        assert(s.subrange(i, s.len() as int) =~= seq![c] + s.subrange(i + 1, s.len() as int));
    } else {
        assert(s.subrange(i, s.len() as int) =~= Seq::<char>::empty());
    }
}

/// What the server runs with: the embedding service, the chat provider, where vectors
/// are stored, and the ingestion settings.
pub struct ServerSettings {
    pub embedding: EmbeddingConfig,
    pub context_provider: String,
    pub context_api_key: String,
    pub context_base_url: String,
    pub db_path: String,
    pub ingest: IngestConfig,
}

/// Embedding provider, model, key, base URL, dimension; chat provider, key, base URL;
/// storage path; chunking; embedding model of ingestion.
pub type SettingsView = (Seq<char>, Seq<char>, Seq<char>, Seq<char>, nat, Seq<char>, Seq<char>, Seq<char>, Seq<char>, ChunkingConfig, Seq<char>);

pub open spec fn settings_view(s: ServerSettings) -> SettingsView {
    (
        s.embedding.provider@,
        s.embedding.model@,
        s.embedding.api_key@,
        s.embedding.base_url@,
        s.embedding.dimension as nat,
        s.context_provider@,
        s.context_api_key@,
        s.context_base_url@,
        s.db_path@,
        s.ingest.chunking,
        s.ingest.embedding_model@,
    )
}

pub open spec fn default_base_url() -> Seq<char> {
    "https://api.openai.com/v1"@
}

pub open spec fn or_default(o: Option<Seq<char>>, d: Seq<char>) -> Seq<char> {
    match o {
        Some(v) => v,
        None => d,
    }
}

pub open spec fn invalid_model(m: Seq<char>) -> Seq<char> {
    "Invalid model format '"@ + m + "'. Expected 'provider/model-name'"@
}

pub open spec fn provider_missing(p: Seq<char>) -> Seq<char> {
    "Provider '"@ + p + "' not found in config"@
}

/// The chunking of the configuration file: its values where given, else 1000 target,
/// 200 overlap and 2000 maximum; the default configuration when it has no chunking.
pub open spec fn chunking_of(c: LlmConfigFile) -> ChunkingConfig {
    match c.chunking {
        Some(ch) => ChunkingConfig {
            target_chars: match ch.target_chars { Some(v) => v, None => 1000 },
            overlap_chars: match ch.overlap_chars { Some(v) => v, None => 200 },
            max_chars: match ch.max_chars { Some(v) => v, None => 2000 },
            min_chars: 200,
        },
        None => ChunkingConfig { target_chars: 1000, max_chars: 1500, min_chars: 200, overlap_chars: 200 },
    }
}

pub open spec fn db_path_of(c: LlmConfigFile) -> Seq<char> {
    match c.storage {
        Some(st) => or_default(opt_str(st.path), "./data/lancedb"@),
        None => "./data/lancedb"@,
    }
}

/// The provider, model, API key and base URL of the model a configuration names for a
/// role (`embedding` or `context`), or the first thing it lacks: the model
/// `provider/model`, that provider, its options, its API key. The base URL defaults
/// to OpenAI's.
pub open spec fn resolve_role(c: LlmConfigFile, m: Option<Seq<char>>, role: Seq<char>) -> Result<(Seq<char>, Seq<char>, Seq<char>, Seq<char>), Seq<char>> {
    match m {
        None => Err("No "@ + role + " model configured"@),
        Some(em) => match split_model(em) {
            None => Err(invalid_model(em)),
            Some((ep, emodel)) => match provider_options(c, ep) {
                None => Err(provider_missing(ep)),
                Some(None) => Err("No options configured for "@ + role + " provider"@),
                Some(Some(eo)) => match eo.0 {
                    None => Err("No API key configured for "@ + role + " provider"@),
                    Some(ekey) => Ok((ep, emodel, ekey, or_default(eo.2, default_base_url()))),
                },
            },
        },
    }
}

/// The server settings a configuration file gives, or the first thing it lacks: the
/// embedding model and its provider (see `resolve_role`), an embedding dimension, then
/// the context model and its provider.
pub open spec fn resolve_spec(c: LlmConfigFile) -> Result<SettingsView, Seq<char>> {
    match resolve_role(c, opt_str(c.embedding_model), "embedding"@) {
        Err(e) => Err(e),
        Ok((ep, emodel, ekey, ebase)) => match c.embedding_dimension {
            None => Err("No embedding dimension configured"@),
            Some(dim) => match resolve_role(c, opt_str(c.context_model), "context"@) {
                Err(e) => Err(e),
                Ok((cp, _cmodel, ckey, cbase)) => Ok(
                    (ep, emodel, ekey, ebase, dim as nat, cp, ckey, cbase, db_path_of(c), chunking_of(c), emodel),
                ),
            },
        },
    }
}

fn str_or(o: &Option<String>, d: &str) -> (r: String)
    ensures
        r@ == or_default(opt_str(*o), d@),
{
    match o {
        Some(v) => v.clone(),
        None => owned(d),
    }
}

fn phrase(a: &str, b: &str, c: &str) -> (r: String)
    ensures
        r@ == a@ + b@ + c@,
{
    let mut v = chars_of(a);
    append_chars(&mut v, &chars_of(b));
    append_chars(&mut v, &chars_of(c));
    string_of(&v)
}

fn resolve_role_exec(config_file: &LlmConfigFile, model: &Option<String>, role: &str) -> (r: Result<(String, String, String, String), String>)
    ensures
        match resolve_role(*config_file, opt_str(*model), role@) {
            Ok(v) => r matches Ok(t) && (t.0@, t.1@, t.2@, t.3@) == v,
            Err(e) => r matches Err(m) && m@ == e,
        },
{
    let m = match model {
        Some(m) => m,
        None => {
            return Err(phrase("No ", role, " model configured"));
        },
    };
    let parsed = match parse_model_string(m.as_str()) {
        Ok(p) => p,
        Err(e) => {
            return Err(e);
        },
    };
    let provider = match get_provider_config(config_file, parsed.provider.as_str()) {
        Ok(p) => p,
        Err(e) => {
            return Err(e);
        },
    };
    let options = match &provider.options {
        Some(o) => o,
        None => {
            return Err(phrase("No options configured for ", role, " provider"));
        },
    };
    let key = match &options.api_key {
        Some(k) => k.clone(),
        None => {
            return Err(phrase("No API key configured for ", role, " provider"));
        },
    };
    let base = str_or(&options.base_url, "https://api.openai.com/v1");
    Ok((parsed.provider, parsed.model, key, base))
}

/// Works out the server settings from the configuration file (see `resolve_spec`).
pub fn resolve_server_settings(config_file: &LlmConfigFile) -> (r: Result<ServerSettings, String>)
    ensures
        match resolve_spec(*config_file) {
            Ok(v) => r matches Ok(s) && settings_view(s) == v && s.ingest.tokenizer_model@ == "gpt-4"@,
            Err(e) => r matches Err(m) && m@ == e,
        },
{
    let (ep, emodel, ekey, ebase) = match resolve_role_exec(config_file, &config_file.embedding_model, "embedding") {
        Ok(t) => t,
        Err(e) => {
            return Err(e);
        },
    };
    let dimension = match config_file.embedding_dimension {
        Some(d) => d,
        None => {
            return Err(owned("No embedding dimension configured"));
        },
    };
    let (cp, _cmodel, ckey, cbase) = match resolve_role_exec(config_file, &config_file.context_model, "context") {
        Ok(t) => t,
        Err(e) => {
            return Err(e);
        },
    };
    let db_path = match &config_file.storage {
        Some(st) => str_or(&st.path, "./data/lancedb"),
        None => owned("./data/lancedb"),
    };
    let chunking = match &config_file.chunking {
        Some(ch) => ChunkingConfig {
            target_chars: match ch.target_chars { Some(v) => v, None => 1000 },
            overlap_chars: match ch.overlap_chars { Some(v) => v, None => 200 },
            max_chars: match ch.max_chars { Some(v) => v, None => 2000 },
            min_chars: 200,
        },
        None => ChunkingConfig::default(),
    };
    let ingest = IngestConfig { chunking, embedding_model: emodel.clone(), tokenizer_model: owned("gpt-4") };
    let embedding = EmbeddingConfig { provider: ep, model: emodel, api_key: ekey, base_url: ebase, dimension };
    Ok(ServerSettings { embedding, context_provider: cp, context_api_key: ckey, context_base_url: cbase, db_path, ingest })
}


/// The configuration files looked for, in order: in the project's `.llm-wiki`, or,
/// without a project, in `~/.config/opencode-llm-wiki` and then `~/.config/opencode`;
/// `llm-wiki.jsonc` before `llm-config.jsonc` in each.
pub open spec fn config_candidates_spec(project_path: Option<Seq<char>>, home: Seq<char>) -> Seq<Seq<char>> {
    match project_path {
        Some(p) => seq![
            crate::project_registry::path_join(crate::project_registry::path_join(p, ".llm-wiki"@), "llm-wiki.jsonc"@),
            crate::project_registry::path_join(crate::project_registry::path_join(p, ".llm-wiki"@), "llm-config.jsonc"@),
        ],
        None => {
            let c = crate::project_registry::path_join(home, ".config"@);
            let a = crate::project_registry::path_join(c, "opencode-llm-wiki"@);
            let b = crate::project_registry::path_join(c, "opencode"@);
            seq![
                crate::project_registry::path_join(a, "llm-wiki.jsonc"@),
                crate::project_registry::path_join(a, "llm-config.jsonc"@),
                crate::project_registry::path_join(b, "llm-wiki.jsonc"@),
                crate::project_registry::path_join(b, "llm-config.jsonc"@),
            ]
        },
    }
}

/// The configuration files looked for, in order (see `config_candidates_spec`); the
/// first that exists is used, else the first.
pub fn config_candidates(project_path: Option<&str>, home: &str) -> (r: Vec<String>)
    ensures
        r@.map_values(|s: String| s@) == config_candidates_spec(
            match project_path {
                Some(p) => Some(p@),
                None => None,
            },
            home@,
        ),
{
    let mut r: Vec<String> = Vec::new();
    match project_path {
        Some(p) => {
            let d = crate::project_registry::join_path(p, ".llm-wiki");
            r.push(crate::project_registry::join_path(d.as_str(), "llm-wiki.jsonc"));
            r.push(crate::project_registry::join_path(d.as_str(), "llm-config.jsonc"));
        },
        None => {
            let c = crate::project_registry::join_path(home, ".config");
            let a = crate::project_registry::join_path(c.as_str(), "opencode-llm-wiki");
            let b = crate::project_registry::join_path(c.as_str(), "opencode");
            r.push(crate::project_registry::join_path(a.as_str(), "llm-wiki.jsonc"));
            r.push(crate::project_registry::join_path(a.as_str(), "llm-config.jsonc"));
            r.push(crate::project_registry::join_path(b.as_str(), "llm-wiki.jsonc"));
            r.push(crate::project_registry::join_path(b.as_str(), "llm-config.jsonc"));
        },
    }
    proof {
        let pp = match project_path {
            Some(p) => Some(p@),
            None => None,
        };
        assert(r@.map_values(|s: String| s@) =~= config_candidates_spec(pp, home@));
    }
    r
}

} // verus!
