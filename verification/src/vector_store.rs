use vstd::prelude::*;

use crate::project_registry::{join_path, path_join};
use crate::text::{append_chars, chars_of, owned, string_of};

verus! {

/// The error of a vector storage operation.
#[derive(Debug, Clone)]
pub struct StorageError {
    pub message: String,
}

impl StorageError {
    /// An error with the given message.
    pub fn new(message: String) -> (r: Self)
        ensures
            r.message@ == message@,
    {
        StorageError { message }
    }

    /// The error as text: `Storage error: ` and the message.
    pub fn describe(&self) -> (r: String)
        ensures
            r@ == "Storage error: "@ + self.message@,
    {
        let mut v = chars_of("Storage error: ");
        append_chars(&mut v, &chars_of(self.message.as_str()));
        string_of(&v)
    }
}

/// What the vector store keeps beside a chunk's vector.
#[derive(Debug, Clone)]
pub struct ChunkMetadata {
    pub chunk_id: String,
    pub page_id: String,
    pub chunk_index: u32,
    pub chunk_text: String,
    pub heading_path: String,
    pub token_ids: Option<Vec<u32>>,
    pub token_count: Option<u32>,
}

/// The wrapper of `char::is_alphanumeric`; the name stands for its result.
pub uninterp spec fn alphanumeric(c: char) -> bool;

/// Among ASCII characters, the letters and digits.
pub open spec fn ascii_alphanumeric(c: char) -> bool {
    ('a' <= c && c <= 'z') || ('A' <= c && c <= 'Z') || ('0' <= c && c <= '9')
}

/// Calls `char::is_alphanumeric`: whether the character is alphabetic or numeric in
/// Unicode's tables. The tables are named, not written out: the result is
/// `alphanumeric(c)`, and among ASCII characters exactly the letters and digits are so.
#[verifier::external_body]
fn is_alnum(c: char) -> (r: bool)
    ensures
        r == alphanumeric(c),
        (c as u32) < 128 ==> r == ascii_alphanumeric(c),
{
    c.is_alphanumeric()
}

/// A character a page id may hold: alphanumeric, `-`, `_` or `.`.
pub open spec fn page_id_char(c: char) -> bool {
    alphanumeric(c) || c == '-' || c == '_' || c == '.'
}

/// Why a page id is refused, if it is: empty or over 256 bytes of UTF-8, or holding
/// a character other than those `page_id_char` allows.
pub open spec fn page_id_problem(id: Seq<char>) -> Option<Seq<char>> {
    if id.len() == 0 || vstd::utf8::encode_utf8(id).len() > 256 {
        Some("Invalid page_id: empty or too long"@)
    } else if exists|i: int| 0 <= i < id.len() && !page_id_char(#[trigger] id[i]) {
        Some("Invalid page_id: contains disallowed characters: "@ + id)
    } else {
        None
    }
}

proof fn lemma_encode_len_split(a: Seq<char>, b: Seq<char>)
    ensures
        vstd::utf8::encode_utf8(a + b).len() == vstd::utf8::encode_utf8(a).len() + vstd::utf8::encode_utf8(b).len(),
    decreases a.len(),
{
    if a.len() > 0 {
        assert((a + b).drop_first() =~= a.drop_first() + b);
        assert((a + b)[0] == a[0]);
        lemma_encode_len_split(a.drop_first(), b);
    }
}

/// Whether the UTF-8 encoding of `cs` is longer than `limit` bytes.
fn utf8_longer_than(cs: &Vec<char>, limit: usize) -> (r: bool)
    requires
        limit < usize::MAX - 4,
    ensures
        r == (vstd::utf8::encode_utf8(cs@).len() > limit),
{
    let mut total: usize = 0;
    let mut i: usize = 0;
    while i < cs.len() && total <= limit
        invariant
            i <= cs.len(),
            limit < usize::MAX - 4,
            total <= limit + 4,
            total == vstd::utf8::encode_utf8(cs@.take(i as int)).len(),
        decreases cs.len() - i,
    {
        let c = cs[i];
        let code = c as u32;
        let w: usize = if code <= 0x7F {
            1
        } else if code <= 0x7FF {
            2
        } else if code <= 0xFFFF {
            3
        } else {
            4
        };
        proof {
            assert(cs@.take(i + 1) =~= cs@.take(i as int) + seq![c]);
            lemma_encode_len_split(cs@.take(i as int), seq![c]);
            assert(seq![c].drop_first() =~= Seq::<char>::empty());
            assert(vstd::utf8::encode_utf8(seq![c].drop_first()) =~= Seq::<u8>::empty());
            vstd::utf8::char_is_scalar(c);
            assert(vstd::utf8::encode_scalar(c as u32).len() == w);
            assert(vstd::utf8::encode_utf8(seq![c]).len() == w);
        }
        total = total + w;
        i = i + 1;
    }
    proof {
        if total <= limit {
            assert(cs@.take(cs@.len() as int) =~= cs@);
        } else {
            assert(cs@ =~= cs@.take(i as int) + cs@.skip(i as int));
            lemma_encode_len_split(cs@.take(i as int), cs@.skip(i as int));
        }
    }
    total > limit
}

/// The vector store of a project, kept under `.llm-wiki/lancedb` in the project.
pub struct LanceDbStorage {
    project_path: String,
}

impl LanceDbStorage {
    pub closed spec fn project(self) -> Seq<char> {
        self.project_path@
    }

    /// The store of the project at `project_path`.
    pub fn new(project_path: String) -> (r: Self)
        ensures
            r.project() == project_path@,
    {
        LanceDbStorage { project_path }
    }

    /// The directory of the database.
    pub fn db_path(&self) -> (r: String)
        ensures
            r@ == path_join(self.project(), ".llm-wiki/lancedb"@),
    {
        join_path(self.project_path.as_str(), ".llm-wiki/lancedb")
    }

    /// Checks a page id before it goes into a filter of the database (see `page_id_problem`).
    pub fn validate_page_id(&self, page_id: &str) -> (r: Result<(), String>)
        ensures
            match r {
                Ok(()) => page_id_problem(page_id@) is None,
                Err(e) => page_id_problem(page_id@) == Some(e@),
            },
    {
        let cs = chars_of(page_id);
        if cs.len() == 0 || utf8_longer_than(&cs, 256) {
            return Err(owned("Invalid page_id: empty or too long"));
        }
        let mut i: usize = 0;
        while i < cs.len()
            invariant
                i <= cs.len(),
                cs@ == page_id@,
                cs.len() > 0,
                !(vstd::utf8::encode_utf8(cs@).len() > 256),
                forall|j: int| 0 <= j < i ==> page_id_char(#[trigger] cs@[j]),
            decreases cs.len() - i,
        {
            let c = cs[i];
            if !(is_alnum(c) || c == '-' || c == '_' || c == '.') {
                let mut v = chars_of("Invalid page_id: contains disallowed characters: ");
                append_chars(&mut v, &cs);
                let e = string_of(&v);
                proof {
                    assert(!page_id_char(page_id@[i as int]));
                    assert(exists|j: int| 0 <= j < page_id@.len() && !page_id_char(#[trigger] page_id@[j]));
                    assert(!(page_id@.len() == 0 || vstd::utf8::encode_utf8(page_id@).len() > 256));
                    assert(e@ == "Invalid page_id: contains disallowed characters: "@ + page_id@);
                }
                return Err(e);
            }
            i = i + 1;
        }
        Ok(())
    }

    /// The length of the vectors the store keeps.
    pub fn embedding_dim(&self) -> (r: usize)
        ensures
            r == 1536,
    {
        1536
    }
}


/// The id of a stored chunk: the page id, `#`, and the chunk's index.
pub fn chunk_id(page_id: &str, chunk_index: u32) -> (r: String)
    ensures
        r@ == page_id@ + "#"@ + crate::embedding::decimal(chunk_index as nat),
{
    let mut v = chars_of(page_id);
    append_chars(&mut v, &chars_of("#"));
    append_chars(&mut v, &crate::embedding::decimal_exec(chunk_index as usize));
    string_of(&v)
}

/// The filter that selects a page's chunks; the page id must have passed
/// `validate_page_id`, so it holds no quote.
pub fn page_filter(page_id: &str) -> (r: String)
    ensures
        r@ == "page_id = '"@ + page_id@ + "'"@,
{
    let mut v = chars_of("page_id = '");
    append_chars(&mut v, &chars_of(page_id));
    append_chars(&mut v, &chars_of("'"));
    string_of(&v)
}

/// Why a batch of chunks cannot be stored: given each chunk's index and the length of
/// its embedding, the first chunk whose embedding is not `dim` long, or an empty
/// first embedding.
pub open spec fn batch_problem_spec(chunks: Seq<(u32, usize)>, dim: usize) -> Option<Seq<char>> {
    if chunks.len() > 0 && dim == 0 {
        Some("Chunk #0 has empty embedding"@)
    } else if exists|i: int| 0 <= i < chunks.len() && (#[trigger] chunks[i]).1 != dim {
        let i = choose|i: int| 0 <= i < chunks.len() && (#[trigger] chunks[i]).1 != dim && forall|j: int| 0 <= j < i ==> chunks[j].1 == dim;
        Some("Chunk #"@ + crate::embedding::decimal(chunks[i].0 as nat) + " has embedding dim "@ + crate::embedding::decimal(chunks[i].1 as nat)
            + " but batch dim is "@ + crate::embedding::decimal(dim as nat))
    } else {
        None
    }
}

/// Checks a batch of chunks before it is stored (see `batch_problem_spec`); the
/// batch's length is that of the first embedding.
pub fn batch_problem(chunks: &Vec<(u32, usize)>, dim: usize) -> (r: Option<String>)
    ensures
        match r {
            Some(e) => batch_problem_spec(chunks@, dim) == Some(e@),
            None => batch_problem_spec(chunks@, dim) is None,
        },
{
    if chunks.len() > 0 && dim == 0 {
        return Some(owned("Chunk #0 has empty embedding"));
    }
    let mut i: usize = 0;
    while i < chunks.len()
        invariant
            i <= chunks.len(),
            !(chunks.len() > 0 && dim == 0),
            forall|j: int| 0 <= j < i ==> chunks@[j].1 == dim,
        decreases chunks.len() - i,
    {
        if chunks[i].1 != dim {
            let mut v = chars_of("Chunk #");
            append_chars(&mut v, &crate::embedding::decimal_exec(chunks[i].0 as usize));
            append_chars(&mut v, &chars_of(" has embedding dim "));
            append_chars(&mut v, &crate::embedding::decimal_exec(chunks[i].1));
            append_chars(&mut v, &chars_of(" but batch dim is "));
            append_chars(&mut v, &crate::embedding::decimal_exec(dim));
            let e = string_of(&v);
            proof {
                let k = choose|k: int| 0 <= k < chunks@.len() && (#[trigger] chunks@[k]).1 != dim && forall|j: int| 0 <= j < k ==> chunks@[j].1 == dim;
                assert(chunks@[i as int].1 != dim);
                if k < i {
                    assert(chunks@[k].1 == dim);
                }
                if k > i {
                    assert(chunks@[i as int].1 == dim);
                }
            }
            return Some(e);
        }
        i = i + 1;
    }
    None
}

} // verus!
