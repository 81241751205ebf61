use vstd::prelude::*;

use crate::text::{append_chars, chars_of, owned, string_of};

verus! {

/// How to reach the embedding model.
pub struct EmbeddingConfig {
    pub provider: String,
    pub model: String,
    pub api_key: String,
    pub base_url: String,
    pub dimension: usize,
}

impl Default for EmbeddingConfig {
    fn default() -> (r: Self)
        ensures
            r.provider@ == "openai"@,
            r.model@ == "text-embedding-ada-002"@,
            r.api_key@ == Seq::<char>::empty(),
            r.base_url@ == "https://api.openai.com/v1"@,
            r.dimension == 1536,
    {
        EmbeddingConfig {
            provider: owned("openai"),
            model: owned("text-embedding-ada-002"),
            api_key: String::new(),
            base_url: owned("https://api.openai.com/v1"),
            dimension: 1536,
        }
    }
}

/// The decimal digits of a number.
pub open spec fn decimal(n: nat) -> Seq<char>
    decreases n,
{
    if n < 10 {
        seq![digit(n)]
    } else {
        decimal(n / 10) + seq![digit(n % 10)]
    }
}

pub open spec fn digit(d: nat) -> char {
    if d == 0 { '0' } else if d == 1 { '1' } else if d == 2 { '2' } else if d == 3 { '3' } else if d == 4 { '4' }
    else if d == 5 { '5' } else if d == 6 { '6' } else if d == 7 { '7' } else if d == 8 { '8' } else { '9' }
}

fn digit_exec(d: usize) -> (r: char)
    requires
        d < 10,
    ensures
        r == digit(d as nat),
{
    if d == 0 { '0' } else if d == 1 { '1' } else if d == 2 { '2' } else if d == 3 { '3' } else if d == 4 { '4' }
    else if d == 5 { '5' } else if d == 6 { '6' } else if d == 7 { '7' } else if d == 8 { '8' } else { '9' }
}

/// The decimal digits of a number.
pub fn decimal_exec(n: usize) -> (r: Vec<char>)
    ensures
        r@ == decimal(n as nat),
    decreases n,
{
    if n < 10 {
        let mut v = Vec::new();
        v.push(digit_exec(n));
        proof {
            assert(v@ =~= seq![digit(n as nat)]);
        }
        v
    } else {
        let mut v = decimal_exec(n / 10);
        v.push(digit_exec(n % 10));
        proof {
            assert(v@ =~= decimal((n / 10) as nat) + seq![digit((n % 10) as nat)]);
        }
        v
    }
}

/// The message for an embedding of the wrong dimension.
pub open spec fn dimension_error(i: nat, got: nat, expected: nat) -> Seq<char> {
    "Embedding #"@ + decimal(i) + " has dimension "@ + decimal(got) + " but expected "@ + decimal(expected)
}

/// The first embedding, by position, whose dimension differs from the expected one.
pub open spec fn first_bad_dimension(dims: Seq<usize>, expected: usize, from: int) -> Option<int>
    decreases dims.len() - from,
{
    if from < 0 || from >= dims.len() {
        None
    } else if dims[from] != expected {
        Some(from)
    } else {
        first_bad_dimension(dims, expected, from + 1)
    }
}

/// Checks the dimensions of the embeddings an API returned against the configured one;
/// the error names the first that differs.
pub fn check_embedding_dimensions(dims: &Vec<usize>, expected: usize) -> (r: Result<(), String>)
    ensures
        match first_bad_dimension(dims@, expected, 0) {
            None => r is Ok,
            Some(i) => r matches Err(e) && e@ == dimension_error(i as nat, dims@[i] as nat, expected as nat),
        },
{
    let mut i: usize = 0;
    while i < dims.len()
        invariant
            i <= dims.len(),
            first_bad_dimension(dims@, expected, 0) == first_bad_dimension(dims@, expected, i as int),
        decreases dims.len() - i,
    {
        if dims[i] != expected {
            let mut msg = chars_of("Embedding #");
            append_chars(&mut msg, &decimal_exec(i));
            append_chars(&mut msg, &chars_of(" has dimension "));
            append_chars(&mut msg, &decimal_exec(dims[i]));
            append_chars(&mut msg, &chars_of(" but expected "));
            append_chars(&mut msg, &decimal_exec(expected));
            return Err(string_of(&msg));
        }
        i = i + 1;
    }
    Ok(())
}

} // verus!
