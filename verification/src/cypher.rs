use vstd::prelude::*;

use crate::page_text::begins;
use crate::text::{append_chars, chars_of, owned, string_of, trim, trim_exec};

verus! {

/// A Cypher query and its parameters (each a name and a JSON value as text).
#[derive(Debug, Clone)]
pub struct CypherQuery {
    pub query: String,
    pub parameters: Option<Vec<(String, String)>>,
}

/// The answer to a Cypher query: column names and rows of JSON values as text.
#[derive(Debug, Clone)]
pub struct CypherResult {
    pub columns: Vec<String>,
    pub rows: Vec<Vec<String>>,
    pub row_count: usize,
}

/// The kinds of Cypher query that the engine takes.
pub enum CypherKind {
    Match,
    Create,
    Return,
}

/// The wrapper of `str::to_uppercase`; the name stands for its result.
pub uninterp spec fn uppercase(s: Seq<char>) -> Seq<char>;

/// Calls `str::to_uppercase`: the text with each character mapped to its uppercase
/// form under Unicode's case mapping, a table that is only named here: the result is
/// `uppercase` of the text.
#[verifier::external_body]
fn to_upper(s: &str) -> (r: String)
    ensures
        r@ == uppercase(s@),
{
    s.to_uppercase()
}

/// The kind of a query, by the first word of its trimmed, uppercased text.
pub open spec fn cypher_kind(q: Seq<char>) -> Option<CypherKind> {
    kind_of_upper(uppercase(trim(q)))
}

/// The kind of a query whose text is already trimmed and in upper case: by its first word.
pub open spec fn kind_of_upper(u: Seq<char>) -> Option<CypherKind> {
    if begins(u, "MATCH"@) {
        Some(CypherKind::Match)
    } else if begins(u, "CREATE"@) {
        Some(CypherKind::Create)
    } else if begins(u, "RETURN"@) {
        Some(CypherKind::Return)
    } else {
        None
    }
}

/// The kind of a query whose text is already trimmed and in upper case (see
/// `kind_of_upper`).
pub fn cypher_kind_of_upper(u: &str) -> (r: Option<CypherKind>)
    ensures
        r == kind_of_upper(u@),
{
    let uc = chars_of(u);
    if crate::text::starts_with_chars(&uc, &chars_of("MATCH")) {
        Some(CypherKind::Match)
    } else if crate::text::starts_with_chars(&uc, &chars_of("CREATE")) {
        Some(CypherKind::Create)
    } else if crate::text::starts_with_chars(&uc, &chars_of("RETURN")) {
        Some(CypherKind::Return)
    } else {
        None
    }
}

pub open spec fn strings_view(v: Seq<String>) -> Seq<Seq<char>> {
    v.map_values(|s: String| s@)
}

/// A small Cypher engine: it tells the kinds of query apart and answers each with
/// an empty result (`MATCH` with the columns `n.title` and `n.path`).
pub struct CypherEngine {}

impl CypherEngine {
    pub fn new() -> (r: Self) {
        CypherEngine {  }
    }

    /// Runs a query: an empty result of the query's kind, or an error for any other query.
    pub fn execute(&self, query: &CypherQuery) -> (r: Result<CypherResult, String>)
        ensures
            match r {
                Ok(res) => {
                    &&& cypher_kind(query.query@) is Some
                    &&& res.rows@.len() == 0
                    &&& res.row_count == 0
                    &&& strings_view(res.columns@) == (if cypher_kind(query.query@) matches Some(CypherKind::Match) {
                        seq!["n.title"@, "n.path"@]
                    } else {
                        Seq::empty()
                    })
                },
                Err(e) => cypher_kind(query.query@) is None && e@ == "Unsupported Cypher query: "@ + query.query@,
            },
    {
        let t = trim_exec(&chars_of(query.query.as_str()));
        let u = to_upper(string_of(&t).as_str());
        match cypher_kind_of_upper(u.as_str()) {
            Some(CypherKind::Match) => self.execute_match(query),
            Some(CypherKind::Create) => self.execute_create(query),
            Some(CypherKind::Return) => self.execute_return(query),
            None => {
                let mut v = chars_of("Unsupported Cypher query: ");
                append_chars(&mut v, &chars_of(query.query.as_str()));
                Err(string_of(&v))
            },
        }
    }

    /// Answers a `MATCH` query: no rows, under the columns `n.title` and `n.path`.
    fn execute_match(&self, _query: &CypherQuery) -> (r: Result<CypherResult, String>)
        ensures
            r matches Ok(res) && res.rows@.len() == 0 && res.row_count == 0
                && strings_view(res.columns@) == seq!["n.title"@, "n.path"@],
    {
        let mut columns: Vec<String> = Vec::new();
        columns.push(owned("n.title"));
        columns.push(owned("n.path"));
        proof {
            assert(strings_view(columns@) =~= seq!["n.title"@, "n.path"@]);
        }
        Ok(CypherResult { columns, rows: Vec::new(), row_count: 0 })
    }

    /// Answers a `CREATE` query: no columns and no rows.
    fn execute_create(&self, _query: &CypherQuery) -> (r: Result<CypherResult, String>)
        ensures
            r matches Ok(res) && res.rows@.len() == 0 && res.row_count == 0
                && strings_view(res.columns@) == Seq::<Seq<char>>::empty(),
    {
        let columns: Vec<String> = Vec::new();
        proof {
            assert(strings_view(columns@) =~= Seq::<Seq<char>>::empty());
        }
        Ok(CypherResult { columns, rows: Vec::new(), row_count: 0 })
    }

    /// Answers a `RETURN` query: no columns and no rows.
    fn execute_return(&self, _query: &CypherQuery) -> (r: Result<CypherResult, String>)
        ensures
            r matches Ok(res) && res.rows@.len() == 0 && res.row_count == 0
                && strings_view(res.columns@) == Seq::<Seq<char>>::empty(),
    {
        let columns: Vec<String> = Vec::new();
        proof {
            assert(strings_view(columns@) =~= Seq::<Seq<char>>::empty());
        }
        Ok(CypherResult { columns, rows: Vec::new(), row_count: 0 })
    }
}

} // verus!
