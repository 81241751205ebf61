use vstd::prelude::*;

verus! {

/// Whether tiktoken has a tokenizer for the model of this name.
pub uninterp spec fn model_known(model: Seq<char>) -> bool;

/// The token ids that the tokenizer of a model gives a text, special tokens allowed.
pub uninterp spec fn bpe_tokens(model: Seq<char>, text: Seq<char>) -> Seq<u32>;

/// Whether the tokenizer of a model can split a text (its regex does not give up on it).
pub uninterp spec fn bpe_ok(model: Seq<char>, text: Seq<char>) -> bool;

/// Calls `tiktoken_rs::get_bpe_from_model`; claims that it succeeds exactly for the model
/// names that `model_known` holds of.
#[verifier::external_body]
#[allow(deprecated)]
fn lookup_model(model: &str) -> (r: bool)
    ensures
        r == model_known(model@),
{
    tiktoken_rs::get_bpe_from_model(model).is_ok()
}

/// Calls `tiktoken_rs::get_bpe_from_model` and then `CoreBPE::encode` on the text, with
/// every special token of the model allowed. `encode` returns an error where the regex
/// that splits the text fails (fancy-regex stops past its backtracking limit); that is
/// decided by the model and the text alone, and named `bpe_ok`. Claims: the call succeeds
/// exactly where `bpe_ok` holds, and then the ids are `bpe_tokens` of the model and the
/// text. `encode` still unwraps its search for special tokens, a regex that is an
/// alternation of the model's literal special-token strings; that unwrap stays.
#[verifier::external_body]
#[allow(deprecated)]
fn encode_with_model(model: &str, text: &str) -> (r: Result<Vec<u32>, String>)
    requires
        model_known(model@),
    ensures
        r is Ok <==> bpe_ok(model@, text@),
        r matches Ok(v) ==> v@ == bpe_tokens(model@, text@),
{
    match tiktoken_rs::get_bpe_from_model(model) {
        Ok(bpe) => bpe.encode(text, &bpe.special_tokens()).map(|found| found.0).map_err(|e| e.to_string()),
        Err(e) => Err(e.to_string()),
    }
}

/// A BPE tokenizer, named by the model it belongs to.
pub struct Tokenizer {
    model: String,
}

impl Tokenizer {
    #[verifier::type_invariant]
    spec fn known(self) -> bool {
        model_known(self.model@)
    }

    /// The model whose tokenizer this is.
    pub closed spec fn model(self) -> Seq<char> {
        self.model@
    }

    /// The tokenizer of a model, when tiktoken has one.
    pub fn for_model(model: &str) -> (r: Option<Tokenizer>)
        ensures
            r is Some <==> model_known(model@),
            r matches Some(t) ==> t.model() == model@,
    {
        if lookup_model(model) {
            Some(Tokenizer { model: crate::text::owned(model) })
        } else {
            None
        }
    }

    /// The model name.
    pub fn model_name(&self) -> (r: String)
        ensures
            r@ == self.model(),
    {
        self.model.clone()
    }

    /// The token ids of a text; an error where the tokenizer cannot split it (see
    /// `bpe_ok`).
    pub fn encode(&self, text: &str) -> (r: Result<Vec<u32>, String>)
        ensures
            r is Ok <==> bpe_ok(self.model(), text@),
            r matches Ok(v) ==> v@ == bpe_tokens(self.model(), text@),
    {
        proof {
            use_type_invariant(self);
        }
        encode_with_model(self.model.as_str(), text)
    }
}

} // verus!
