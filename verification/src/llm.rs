use vstd::prelude::*;

use crate::page_text::{begins, views_of};
use crate::text::{append_chars, chars_of, owned, slice_range, split_on, string_of, trim, trim_exec};

verus! {

/// The chat providers the client can talk to.
#[derive(Debug, Clone, Copy, PartialEq, Eq, Structural)]
pub enum ProviderKind {
    OpenAi,
    Anthropic,
    Google,
}

/// The provider a name stands for, letter case aside.
pub open spec fn provider_named(lower: Seq<char>) -> Option<ProviderKind> {
    if lower == "openai"@ {
        Some(ProviderKind::OpenAi)
    } else if lower == "anthropic"@ {
        Some(ProviderKind::Anthropic)
    } else if lower == "google"@ {
        Some(ProviderKind::Google)
    } else {
        None
    }
}

/// The provider of the given name (`openai`, `anthropic` or `google`, compared in
/// lower case), or the error `Unsupported provider: ` and the name.
pub fn provider_kind(name: &str) -> (r: Result<ProviderKind, String>)
    ensures
        match r {
            Ok(k) => provider_named(crate::index::lowercase(name@)) == Some(k),
            Err(e) => provider_named(crate::index::lowercase(name@)) is None && e@ == "Unsupported provider: "@ + name@,
        },
{
    let lower = crate::index::lowercase_of(name);
    match provider_of_lower(lower.as_str()) {
        Some(k) => Ok(k),
        None => {
            let mut e = chars_of("Unsupported provider: ");
            append_chars(&mut e, &chars_of(name));
            Err(string_of(&e))
        },
    }
}

/// The provider a name already in lower case stands for (see `provider_named`).
pub fn provider_of_lower(lower: &str) -> (r: Option<ProviderKind>)
    ensures
        r == provider_named(lower@),
{
    let l = owned(lower);
    if crate::text::same_text(&l, &owned("openai")) {
        Some(ProviderKind::OpenAi)
    } else if crate::text::same_text(&l, &owned("anthropic")) {
        Some(ProviderKind::Anthropic)
    } else if crate::text::same_text(&l, &owned("google")) {
        Some(ProviderKind::Google)
    } else {
        None
    }
}

/// Where a provider's chat requests go unless a base URL is given; Google's URL
/// names the model and carries the key.
pub open spec fn default_endpoint(k: ProviderKind, api_key: Seq<char>) -> Seq<char> {
    match k {
        ProviderKind::OpenAi => "https://api.openai.com/v1/chat/completions"@,
        ProviderKind::Anthropic => "https://api.anthropic.com/v1/messages"@,
        ProviderKind::Google => "https://generativelanguage.googleapis.com/v1beta/models/"@ + "gemini-1.5-pro"@
            + ":streamGenerateContent?key="@ + api_key,
    }
}

/// Where a provider's chat requests go: the given base URL, else its default.
pub fn provider_endpoint(k: ProviderKind, api_key: &str, base_url: Option<String>) -> (r: String)
    ensures
        r@ == match base_url {
            Some(u) => u@,
            None => default_endpoint(k, api_key@),
        },
{
    match base_url {
        Some(u) => u,
        None => match k {
            ProviderKind::OpenAi => owned("https://api.openai.com/v1/chat/completions"),
            ProviderKind::Anthropic => owned("https://api.anthropic.com/v1/messages"),
            ProviderKind::Google => {
                let mut v = chars_of("https://generativelanguage.googleapis.com/v1beta/models/");
                append_chars(&mut v, &chars_of("gemini-1.5-pro"));
                append_chars(&mut v, &chars_of(":streamGenerateContent?key="));
                append_chars(&mut v, &chars_of(api_key));
                string_of(&v)
            },
        },
    }
}

/// The role Gemini is told for a chat message: `model` for the assistant, else `user`.
pub fn google_role(role: &str) -> (r: String)
    ensures
        r@ == if role@ == "assistant"@ { "model"@ } else { "user"@ },
{
    if crate::text::same_text(&owned(role), &owned("assistant")) {
        owned("model")
    } else {
        owned("user")
    }
}

/// The payload of a server-sent event line: what follows `data: `, if the line is one.
pub fn sse_data(line: &str) -> (r: Option<String>)
    ensures
        match r {
            Some(d) => begins(line@, "data: "@) && d@ == line@.skip("data: "@.len() as int),
            None => !begins(line@, "data: "@),
        },
{
    let cs = chars_of(line);
    let p = chars_of("data: ");
    if crate::text::starts_with_chars(&cs, &p) {
        let rest = slice_range(&cs, p.len(), cs.len());
        proof {
            assert(rest@ =~= line@.skip(p@.len() as int));
            assert(cs@.take(p@.len() as int) =~= cs@.subrange(0, p@.len() as int));
        }
        Some(string_of(&rest))
    } else {
        proof {
            if begins(line@, "data: "@) {
                assert(cs@.take(p@.len() as int) =~= cs@.subrange(0, p@.len() as int));
            }
        }
        None
    }
}

/// The non-blank lines among `pieces`, each trimmed.
pub open spec fn trimmed_lines(pieces: Seq<Seq<char>>) -> Seq<Seq<char>>
    decreases pieces.len(),
{
    if pieces.len() == 0 {
        Seq::empty()
    } else {
        let rest = trimmed_lines(pieces.drop_last());
        if trim(pieces.last()).len() > 0 {
            rest.push(trim(pieces.last()))
        } else {
            rest
        }
    }
}

/// Cuts a streamed reply into lines: text comes in pieces, and each complete line,
/// trimmed, is handed out unless it is blank; what follows the last newline waits
/// for more text.
pub struct LineSplitter {
    pending: Vec<char>,
}

impl LineSplitter {
    /// The text received after the last newline.
    pub closed spec fn rest(self) -> Seq<char> {
        self.pending@
    }

    pub fn new() -> (r: Self)
        ensures
            r.rest() == Seq::<char>::empty(),
    {
        LineSplitter { pending: Vec::new() }
    }

    /// Takes more text; hands out the lines it completes (see `trimmed_lines`).
    pub fn feed(&mut self, text: &str) -> (r: Vec<String>)
        ensures
            views_of(r@) == trimmed_lines(split_on(old(self).rest() + text@, '\n').drop_last()),
            final(self).rest() == split_on(old(self).rest() + text@, '\n').last(),
    {
        let mut all = Vec::new();
        std::mem::swap(&mut all, &mut self.pending);
        append_chars(&mut all, &chars_of(text));
        let pieces = crate::text::split_on_exec(&all, '\n');
        let ghost ps = split_on(all@, '\n');
        proof {
            crate::text::lemma_split_on_nonempty(all@, '\n');
        }
        let mut out: Vec<String> = Vec::new();
        let mut i: usize = 0;
        while i + 1 < pieces.len()
            invariant
                i < pieces.len(),
                pieces@.map_values(|l: Vec<char>| l@) == ps,
                views_of(out@) == trimmed_lines(ps.take(i as int)),
            decreases pieces.len() - i,
        {
            let t = trim_exec(&pieces[i]);
            proof {
                assert(ps[i as int] == pieces@[i as int]@);
                assert(ps.take(i + 1).drop_last() =~= ps.take(i as int));
            }
            if t.len() > 0 {
                let ghost before = out@;
                let s = string_of(&t);
                out.push(s);
                proof {
                    crate::page_text::lemma_views_push(before, s);
                }
            }
            i = i + 1;
        }
        proof {
            assert(ps.take(i as int) =~= ps.drop_last());
            assert(ps.last() == pieces@[i as int]@);
        }
        self.pending = crate::text::copy_of(&pieces[i]);
        out
    }

    /// The text left when the stream ends, trimmed, unless it is blank.
    pub fn finish(&self) -> (r: Option<String>)
        ensures
            match r {
                Some(l) => trim(self.rest()).len() > 0 && l@ == trim(self.rest()),
                None => trim(self.rest()).len() == 0,
            },
    {
        let t = trim_exec(&self.pending);
        if t.len() > 0 {
            Some(string_of(&t))
        } else {
            None
        }
    }
}


proof fn lemma_split_no_sep(s: Seq<char>, sep: char)
    requires
        !s.contains(sep),
    ensures
        split_on(s, sep) == seq![s],
    decreases s.len(),
{
    if s.len() > 0 {
        assert(!s.drop_last().contains(sep)) by {
            if s.drop_last().contains(sep) {
                let k = choose|k: int| 0 <= k < s.drop_last().len() && s.drop_last()[k] == sep;
                assert(s[k] == sep);
            }
        }
        lemma_split_no_sep(s.drop_last(), sep);
        assert(s.last() != sep) by {
            assert(s[s.len() - 1] == s.last());
        }
        assert(s.drop_last().push(s.last()) =~= s);
        assert(seq![s.drop_last()].update(0, s.drop_last().push(s.last())) =~= seq![s]);
    } else {
        assert(s =~= Seq::<char>::empty());
    }
}

proof fn lemma_split_last_no_sep(s: Seq<char>, sep: char)
    ensures
        split_on(s, sep).len() >= 1,
        !split_on(s, sep).last().contains(sep),
    decreases s.len(),
{
    crate::text::lemma_split_on_nonempty(s, sep);
    if s.len() > 0 {
        lemma_split_last_no_sep(s.drop_last(), sep);
        let rest = split_on(s.drop_last(), sep);
        if s.last() != sep {
            let nl = rest.last().push(s.last());
            assert(split_on(s, sep).last() == nl);
            assert(!nl.contains(sep)) by {
                if nl.contains(sep) {
                    let k = choose|k: int| 0 <= k < nl.len() && nl[k] == sep;
                    if k < rest.last().len() {
                        assert(rest.last()[k] == sep);
                    }
                }
            }
        } else {
            assert(!Seq::<char>::empty().contains(sep));
        }
    } else {
        assert(!Seq::<char>::empty().contains(sep));
    }
}

proof fn lemma_split_append(x: Seq<char>, y: Seq<char>, sep: char)
    ensures
        split_on(x + y, sep) == split_on(x, sep).drop_last() + split_on(split_on(x, sep).last() + y, sep),
    decreases y.len(),
{
    lemma_split_last_no_sep(x, sep);
    let px = split_on(x, sep);
    let d = px.drop_last();
    let l = px.last();
    if y.len() == 0 {
        assert(x + y =~= x);
        assert(l + y =~= l);
        lemma_split_no_sep(l, sep);
        assert(d + seq![l] =~= px);
    } else {
        let y0 = y.drop_last();
        let c = y.last();
        lemma_split_append(x, y0, sep);
        assert((x + y).drop_last() =~= x + y0);
        assert((x + y).last() == c);
        assert((l + y).drop_last() =~= l + y0);
        assert((l + y).last() == c);
        let r0 = split_on(l + y0, sep);
        crate::text::lemma_split_on_nonempty(l + y0, sep);
        if c == sep {
            assert((d + r0).push(Seq::empty()) =~= d + r0.push(Seq::empty()));
        } else {
            assert((d + r0).update((d + r0).len() - 1, (d + r0).last().push(c)) =~= d + r0.update(
                r0.len() - 1,
                r0.last().push(c),
            ));
        }
    }
}

proof fn lemma_trimmed_lines_append(a: Seq<Seq<char>>, b: Seq<Seq<char>>)
    ensures
        trimmed_lines(a + b) == trimmed_lines(a) + trimmed_lines(b),
    decreases b.len(),
{
    if b.len() == 0 {
        assert(a + b =~= a);
        assert(trimmed_lines(a) + Seq::<Seq<char>>::empty() =~= trimmed_lines(a));
    } else {
        lemma_trimmed_lines_append(a, b.drop_last());
        assert((a + b).drop_last() =~= a + b.drop_last());
        assert((a + b).last() == b.last());
        let ta = trimmed_lines(a);
        let tb0 = trimmed_lines(b.drop_last());
        if trim(b.last()).len() > 0 {
            assert((ta + tb0).push(trim(b.last())) =~= ta + tb0.push(trim(b.last())));
        }
    }
}

/// Text fed in two pieces gives the same lines, and leaves the same text waiting,
/// as the two pieces fed at once: where a piece ends does not matter.
pub proof fn lemma_feed_in_pieces(rest: Seq<char>, a: Seq<char>, b: Seq<char>)
    ensures
        ({
            let p1 = split_on(rest + a, '\n');
            let p2 = split_on(p1.last() + b, '\n');
            let p = split_on(rest + a + b, '\n');
            &&& trimmed_lines(p1.drop_last()) + trimmed_lines(p2.drop_last()) == trimmed_lines(p.drop_last())
            &&& p2.last() == p.last()
        }),
{
    let p1 = split_on(rest + a, '\n');
    let p2 = split_on(p1.last() + b, '\n');
    lemma_split_append(rest + a, b, '\n');
    lemma_split_last_no_sep(rest + a, '\n');
    lemma_split_last_no_sep(p1.last() + b, '\n');
    let p = split_on(rest + a + b, '\n');
    assert(p == p1.drop_last() + p2);
    assert(p.drop_last() =~= p1.drop_last() + p2.drop_last());
    assert(p.last() == p2.last());
    lemma_trimmed_lines_append(p1.drop_last(), p2.drop_last());
}

/// One step into a JSON value: the member of an object under a key, or the element of an
/// array at an index.
pub enum JsonStep {
    Key(String),
    Index(usize),
}

/// A step of a path, as plain values.
pub enum JsonStepView {
    Key(Seq<char>),
    Index(nat),
}

pub open spec fn step_view(s: JsonStep) -> JsonStepView {
    match s {
        JsonStep::Key(k) => JsonStepView::Key(k@),
        JsonStep::Index(i) => JsonStepView::Index(i as nat),
    }
}

pub open spec fn steps_view(p: Seq<JsonStep>) -> Seq<JsonStepView> {
    p.map_values(|s: JsonStep| step_view(s))
}

/// Whether a text parses as JSON (as `serde_json::from_str` into a `Value` decides).
pub uninterp spec fn json_parses(data: Seq<char>) -> bool;

/// The string found in the JSON text `data` by following `path` (member by key, element by
/// index), or `None` where a step finds nothing or the value found is not a string, as
/// `serde_json::Value` indexing and `as_str` give it.
pub uninterp spec fn json_string_at_spec(data: Seq<char>, path: Seq<JsonStepView>) -> Option<Seq<char>>;

pub open spec fn opt_view(o: Option<String>) -> Option<Seq<char>> {
    match o {
        Some(s) => Some(s@),
        None => None,
    }
}

/// Calls `serde_json::from_str` into a `serde_json::Value`, then indexes the value along
/// `path` (`value[key]`, `value[index]`, which give `Null` where nothing is found) and
/// takes `as_str`. Claims: an error exactly where the text does not parse (the error is
/// serde_json's message), else the string found is `json_string_at_spec` of the text and
/// the path.
#[verifier::external_body]
fn json_string_at(data: &str, path: &Vec<JsonStep>) -> (r: Result<Option<String>, String>)
    ensures
        r is Ok <==> json_parses(data@),
        r matches Ok(o) ==> opt_view(o) == json_string_at_spec(data@, steps_view(path@)),
{
    let parsed: serde_json::Value = serde_json::from_str(data).map_err(|e| e.to_string())?;
    let mut v = &parsed;
    for step in path {
        v = match step {
            JsonStep::Key(k) => &v[k.as_str()],
            JsonStep::Index(i) => &v[*i],
        };
    }
    Ok(v.as_str().map(|t| t.to_string()))
}

/// The path to the text of a streamed reply: OpenAI's `choices[0].delta.content`,
/// Anthropic's `delta.text`, Gemini's `candidates[0].content.parts[0].text`.
pub open spec fn text_path(k: ProviderKind) -> Seq<JsonStepView> {
    match k {
        ProviderKind::OpenAi => seq![
            JsonStepView::Key("choices"@),
            JsonStepView::Index(0),
            JsonStepView::Key("delta"@),
            JsonStepView::Key("content"@),
        ],
        ProviderKind::Anthropic => seq![JsonStepView::Key("delta"@), JsonStepView::Key("text"@)],
        ProviderKind::Google => seq![
            JsonStepView::Key("candidates"@),
            JsonStepView::Index(0),
            JsonStepView::Key("content"@),
            JsonStepView::Key("parts"@),
            JsonStepView::Index(0),
            JsonStepView::Key("text"@),
        ],
    }
}

/// The text a provider's event payload carries, given that it parses: the string at the
/// provider's text path; for Anthropic only in a `content_block_delta` event.
pub open spec fn token_text(k: ProviderKind, data: Seq<char>) -> Option<Seq<char>> {
    if k == ProviderKind::Anthropic && json_string_at_spec(data, seq![JsonStepView::Key("type"@)]) != Some(
        "content_block_delta"@,
    ) {
        None
    } else {
        json_string_at_spec(data, text_path(k))
    }
}

/// The payload of a streamed line that is to be read as JSON: what follows `data: `, but
/// not OpenAI's closing `[DONE]`.
pub open spec fn json_payload(k: ProviderKind, line: Seq<char>) -> Option<Seq<char>> {
    if !begins(line, "data: "@) {
        None
    } else if k == ProviderKind::OpenAi && line.skip(6) == "[DONE]"@ {
        None
    } else {
        Some(line.skip(6))
    }
}

fn key_step(k: &str) -> (r: JsonStep)
    ensures
        step_view(r) == JsonStepView::Key(k@),
{
    JsonStep::Key(owned(k))
}

fn text_path_exec(k: ProviderKind) -> (r: Vec<JsonStep>)
    ensures
        steps_view(r@) == text_path(k),
{
    let mut p: Vec<JsonStep> = Vec::new();
    match k {
        ProviderKind::OpenAi => {
            p.push(key_step("choices"));
            p.push(JsonStep::Index(0));
            p.push(key_step("delta"));
            p.push(key_step("content"));
        },
        ProviderKind::Anthropic => {
            p.push(key_step("delta"));
            p.push(key_step("text"));
        },
        ProviderKind::Google => {
            p.push(key_step("candidates"));
            p.push(JsonStep::Index(0));
            p.push(key_step("content"));
            p.push(key_step("parts"));
            p.push(JsonStep::Index(0));
            p.push(key_step("text"));
        },
    }
    proof {
        assert(steps_view(p@) =~= text_path(k));
    }
    p
}

/// The text token in one line of a provider's streamed reply: nothing for a line that is
/// not a `data: ` event or is OpenAI's `[DONE]`; an error (`Failed to parse SSE data: `
/// and the parser's message) for a payload that is not JSON; else the text the payload
/// carries (see `token_text`).
pub fn stream_token(kind: ProviderKind, line: &str) -> (r: Result<Option<String>, String>)
    ensures
        json_payload(kind, line@) is None ==> r == Ok::<Option<String>, String>(None),
        json_payload(kind, line@) matches Some(d) ==> {
            &&& r is Err <==> !json_parses(d)
            &&& r matches Ok(o) ==> opt_view(o) == token_text(kind, d)
            &&& r matches Err(e) ==> begins(e@, "Failed to parse SSE data: "@)
        },
{
    let data = match sse_data(line) {
        Some(d) => d,
        None => {
            return Ok(None);
        },
    };
    proof {
        reveal_strlit("data: ");
        assert("data: "@.len() == 6);
    }
    if kind == ProviderKind::OpenAi && crate::text::same_text(&data, &owned("[DONE]")) {
        return Ok(None);
    }
    if kind == ProviderKind::Anthropic {
        let mut tp: Vec<JsonStep> = Vec::new();
        tp.push(key_step("type"));
        proof {
            assert(steps_view(tp@) =~= seq![JsonStepView::Key("type"@)]);
        }
        match json_string_at(data.as_str(), &tp) {
            Ok(t) => {
                let is_delta = match &t {
                    Some(v) => crate::text::same_text(v, &owned("content_block_delta")),
                    None => false,
                };
                if !is_delta {
                    return Ok(None);
                }
            },
            Err(e) => {
                return Err(parse_error(&e));
            },
        }
    }
    let path = text_path_exec(kind);
    match json_string_at(data.as_str(), &path) {
        Ok(t) => Ok(t),
        Err(e) => Err(parse_error(&e)),
    }
}

fn parse_error(e: &String) -> (r: String)
    ensures
        begins(r@, "Failed to parse SSE data: "@),
{
    let mut v = chars_of("Failed to parse SSE data: ");
    let p = v.clone();
    append_chars(&mut v, &chars_of(e.as_str()));
    proof {
        assert(v@.take(p@.len() as int) =~= p@);
    }
    string_of(&v)
}

} // verus!
