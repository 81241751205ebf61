use vstd::prelude::*;

use crate::keyed::{kmap, lemma_kmap_at, lemma_kmap_dom, lemma_kmap_len, lemma_kmap_push, unique_keys};
use crate::text::{append_chars, chars_of, owned, same_text, string_of};
use crate::tokenizer::{bpe_ok, bpe_tokens, model_known, Tokenizer};

verus! {

/// A chunk with its token ids computed ahead of queries.
pub struct TokenizedChunk {
    pub chunk_id: String,
    pub page_id: String,
    pub chunk_index: u32,
    pub chunk_text: String,
    pub token_ids: Vec<usize>,
    pub token_count: usize,
}

/// Statistics of the token cache.
pub struct CacheStats {
    pub cached_chunks: usize,
    pub memory_usage_bytes: usize,
}

/// Token ids widened to `usize`.
pub open spec fn widen(v: Seq<u32>) -> Seq<usize> {
    v.map_values(|t: u32| t as usize)
}

pub open spec fn cache_list(v: Seq<(String, Vec<usize>)>) -> Seq<(Seq<char>, Seq<usize>)> {
    v.map_values(|e: (String, Vec<usize>)| (e.0@, e.1@))
}

/// The total length of the cached token lists.
pub open spec fn cached_len(v: Seq<(Seq<char>, Seq<usize>)>) -> nat
    decreases v.len(),
{
    if v.len() == 0 {
        0
    } else {
        cached_len(v.drop_last()) + v.last().1.len()
    }
}

/// The total token count of chunks.
pub open spec fn token_total(cs: Seq<TokenizedChunk>) -> nat
    decreases cs.len(),
{
    if cs.len() == 0 {
        0
    } else {
        (token_total(cs.drop_last()) + cs.last().token_count) as nat
    }
}

/// Computes token ids of chunks once and keeps them by chunk id.
pub struct TokenCacheService {
    bpe: Tokenizer,
    memory_cache: Vec<(String, Vec<usize>)>,
}

fn widen_exec(v: &Vec<u32>) -> (r: Vec<usize>)
    ensures
        r@ == widen(v@),
{
    let mut out: Vec<usize> = Vec::new();
    let mut i: usize = 0;
    while i < v.len()
        invariant
            i <= v.len(),
            out@ == widen(v@.take(i as int)),
        decreases v.len() - i,
    {
        out.push(v[i] as usize);
        proof {
            assert(out@ =~= widen(v@.take(i + 1)));
        }
        i = i + 1;
    }
    proof {
        assert(v@.take(v.len() as int) =~= v@);
    }
    out
}

fn copy_ids(v: &Vec<usize>) -> (r: Vec<usize>)
    ensures
        r@ == v@,
{
    let mut out: Vec<usize> = Vec::new();
    let mut i: usize = 0;
    while i < v.len()
        invariant
            i <= v.len(),
            out@ == v@.take(i as int),
        decreases v.len() - i,
    {
        out.push(v[i]);
        proof {
            assert(out@ =~= v@.take(i + 1));
        }
        i = i + 1;
    }
    proof {
        assert(v@.take(v.len() as int) =~= v@);
    }
    out
}

/// Chunk `k` of a batch has to be computed (its id is neither cached nor met earlier in
/// the batch) and its text cannot be split.
pub open spec fn batch_fails(
    cache: Map<Seq<char>, Seq<usize>>,
    model: Seq<char>,
    chunks: Seq<(String, String, String, u32)>,
    k: int,
) -> bool {
    &&& !cache.dom().contains(chunks[k].0@)
    &&& forall|j: int| 0 <= j < k ==> chunks[j].0@ != chunks[k].0@
    &&& !bpe_ok(model, chunks[k].2@)
}

impl TokenCacheService {
    #[verifier::type_invariant]
    spec fn wf(self) -> bool {
        unique_keys(cache_list(self.memory_cache@))
    }

    /// The model whose tokenizer counts.
    pub closed spec fn model(self) -> Seq<char> {
        self.bpe.model()
    }

    /// The cached token ids by chunk id.
    pub closed spec fn cache(self) -> Map<Seq<char>, Seq<usize>> {
        kmap(cache_list(self.memory_cache@))
    }

    pub closed spec fn cache_entries(self) -> Seq<(Seq<char>, Seq<usize>)> {
        cache_list(self.memory_cache@)
    }

    /// A service for the tokenizer of `model`; fails when tiktoken has none.
    pub fn new(model: &str) -> (r: Result<Self, String>)
        ensures
            r is Ok <==> model_known(model@),
            r matches Ok(s) ==> s.model() == model@ && s.cache() == Map::<Seq<char>, Seq<usize>>::empty(),
            r matches Err(e) ==> e@ == "Failed to load BPE for model: "@ + model@,
    {
        match Tokenizer::for_model(model) {
            Some(bpe) => {
                let s = TokenCacheService { bpe, memory_cache: Vec::new() };
                proof {
                    assert(cache_list(s.memory_cache@) =~= Seq::<(Seq<char>, Seq<usize>)>::empty());
                }
                Ok(s)
            },
            None => {
                let mut msg = chars_of("Failed to load BPE for model: ");
                append_chars(&mut msg, &chars_of(model));
                Err(string_of(&msg))
            },
        }
    }

    fn find(&self, chunk_id: &str) -> (r: Option<usize>)
        ensures
            match r {
                Some(i) => i < self.memory_cache.len() && self.memory_cache@[i as int].0@ == chunk_id@,
                None => !self.cache().dom().contains(chunk_id@),
            },
    {
        let key = owned(chunk_id);
        let mut i: usize = 0;
        while i < self.memory_cache.len()
            invariant
                i <= self.memory_cache.len(),
                key@ == chunk_id@,
                forall|j: int| 0 <= j < i ==> #[trigger] self.memory_cache@[j].0@ != chunk_id@,
            decreases self.memory_cache.len() - i,
        {
            if same_text(&self.memory_cache[i].0, &key) {
                return Some(i);
            }
            i = i + 1;
        }
        proof {
            lemma_kmap_dom(cache_list(self.memory_cache@), chunk_id@);
            assert forall|j: int| 0 <= j < self.memory_cache.len() implies #[trigger] cache_list(self.memory_cache@)[j].0 != chunk_id@ by {
                assert(cache_list(self.memory_cache@)[j].0 == self.memory_cache@[j].0@);
            }
        }
        None
    }

    /// The token ids of a chunk: from the cache when the chunk id is there, else computed
    /// and cached under the id; an error, changing nothing, where the text cannot be split.
    pub fn tokenize_chunk(&mut self, chunk_id: &str, text: &str) -> (r: Result<Vec<usize>, String>)
        ensures
            final(self).model() == old(self).model(),
            r is Err <==> (!old(self).cache().dom().contains(chunk_id@) && !bpe_ok(old(self).model(), text@)),
            r is Err ==> final(self).cache() == old(self).cache(),
            r matches Ok(v) ==> if old(self).cache().dom().contains(chunk_id@) {
                v@ == old(self).cache()[chunk_id@] && final(self).cache() == old(self).cache()
            } else {
                v@ == widen(bpe_tokens(old(self).model(), text@)) && final(self).cache() == old(self).cache().insert(chunk_id@, v@)
            },
    {
        proof {
            use_type_invariant(&*self);
        }
        match self.find(chunk_id) {
            Some(i) => {
                proof {
                    lemma_kmap_at(cache_list(self.memory_cache@), i as int);
                }
                Ok(copy_ids(&self.memory_cache[i].1))
            },
            None => {
                let raw = match self.bpe.encode(text) {
                    Ok(v) => v,
                    Err(e) => {
                        return Err(e);
                    },
                };
                let ids = widen_exec(&raw);
                let ghost cl = cache_list(self.memory_cache@);
                proof {
                    lemma_kmap_push(cl, chunk_id@, ids@);
                }
                let mut cache: Vec<(String, Vec<usize>)> = Vec::new();
                proof {
                    assert(cache_list(cache@) =~= Seq::<(Seq<char>, Seq<usize>)>::empty());
                }
                std::mem::swap(&mut cache, &mut self.memory_cache);
                cache.push((owned(chunk_id), copy_ids(&ids)));
                proof {
                    assert(cache_list(cache@) =~= cl.push((chunk_id@, ids@)));
                }
                self.memory_cache = cache;
                Ok(ids)
            },
        }
    }

    /// Tokenizes chunks given as (chunk id, page id, text, chunk index), in order; an error
    /// at the first chunk that is not cached (nor met before) and whose text cannot be split.
    pub fn tokenize_chunks_batch(&mut self, chunks: Vec<(String, String, String, u32)>) -> (r: Result<Vec<TokenizedChunk>, String>)
        ensures
            final(self).model() == old(self).model(),
            r is Err <==> exists|k: int| 0 <= k < chunks.len() && #[trigger] batch_fails(old(self).cache(), old(self).model(), chunks@, k),
            r matches Ok(v) ==> v.len() == chunks.len() && forall|k: int| 0 <= k < v.len() ==> {
                &&& (#[trigger] v@[k]).chunk_id@ == chunks@[k].0@
                &&& v@[k].page_id@ == chunks@[k].1@
                &&& v@[k].chunk_text@ == chunks@[k].2@
                &&& v@[k].chunk_index == chunks@[k].3
                &&& v@[k].token_count == v@[k].token_ids.len()
            },
            forall|k: int| 0 <= k < chunks.len() && !old(self).cache().dom().contains(#[trigger] chunks@[k].0@)
                && (forall|j: int| 0 <= j < k ==> chunks@[j].0@ != chunks@[k].0@)
                ==> (r matches Ok(v) ==> v@[k].token_ids@ == widen(bpe_tokens(old(self).model(), chunks@[k].2@))),
    {
        let mut results: Vec<TokenizedChunk> = Vec::new();
        let mut i: usize = 0;
        while i < chunks.len()
            invariant
                i <= chunks.len(),
                self.model() == old(self).model(),
                results.len() == i,
                forall|k: int| 0 <= k < i ==> {
                    &&& (#[trigger] results@[k]).chunk_id@ == chunks@[k].0@
                    &&& results@[k].page_id@ == chunks@[k].1@
                    &&& results@[k].chunk_text@ == chunks@[k].2@
                    &&& results@[k].chunk_index == chunks@[k].3
                    &&& results@[k].token_count == results@[k].token_ids.len()
                },
                forall|k: int| 0 <= k < i && !old(self).cache().dom().contains(#[trigger] chunks@[k].0@)
                    && (forall|j: int| 0 <= j < k ==> chunks@[j].0@ != chunks@[k].0@)
                    ==> results@[k].token_ids@ == widen(bpe_tokens(old(self).model(), chunks@[k].2@)),
                forall|h: Seq<char>| #[trigger] self.cache().dom().contains(h) <==> (old(self).cache().dom().contains(h)
                    || exists|j: int| 0 <= j < i && chunks@[j].0@ == h),
                forall|k: int| 0 <= k < i ==> !#[trigger] batch_fails(old(self).cache(), old(self).model(), chunks@, k),
            decreases chunks.len() - i,
        {
            let c = &chunks[i];
            let ghost before = self.cache();
            proof {
                assert(self.cache().dom().contains(chunks@[i as int].0@) <==> !(!old(self).cache().dom().contains(
                    chunks@[i as int].0@,
                ) && (forall|j: int| 0 <= j < i ==> chunks@[j].0@ != chunks@[i as int].0@)));
            }
            let ids = match self.tokenize_chunk(c.0.as_str(), c.2.as_str()) {
                Ok(v) => v,
                Err(e) => {
                    proof {
                        assert(batch_fails(old(self).cache(), old(self).model(), chunks@, i as int));
                    }
                    return Err(e);
                },
            };
            let n = ids.len();
            results.push(TokenizedChunk {
                chunk_id: c.0.clone(),
                page_id: c.1.clone(),
                chunk_index: c.3,
                chunk_text: c.2.clone(),
                token_ids: ids,
                token_count: n,
            });
            proof {
                assert forall|h: Seq<char>| #[trigger] self.cache().dom().contains(h) <==> (old(self).cache().dom().contains(h)
                    || exists|j: int| 0 <= j < i + 1 && chunks@[j].0@ == h) by {
                    if self.cache().dom().contains(h) {
                        if !before.dom().contains(h) {
                            assert(chunks@[i as int].0@ == h);
                        } else if !old(self).cache().dom().contains(h) {
                            let j = choose|j: int| 0 <= j < i && chunks@[j].0@ == h;
                            assert(0 <= j < i + 1 && chunks@[j].0@ == h);
                        }
                    }
                    if old(self).cache().dom().contains(h) || exists|j: int| 0 <= j < i + 1 && chunks@[j].0@ == h {
                        if !old(self).cache().dom().contains(h) {
                            let j = choose|j: int| 0 <= j < i + 1 && chunks@[j].0@ == h;
                            if j < i {
                                assert(before.dom().contains(h));
                            }
                        }
                    }
                }
                assert(!batch_fails(old(self).cache(), old(self).model(), chunks@, i as int));
            }
            i = i + 1;
        }
        Ok(results)
    }

    /// The number of tokens of a text, not cached; an error where the text cannot be split.
    pub fn count_tokens(&self, text: &str) -> (r: Result<usize, String>)
        ensures
            r is Ok <==> bpe_ok(self.model(), text@),
            r matches Ok(n) ==> n == bpe_tokens(self.model(), text@).len(),
    {
        match self.bpe.encode(text) {
            Ok(v) => Ok(v.len()),
            Err(e) => Err(e),
        }
    }

    /// Empties the cache.
    pub fn clear_cache(&mut self)
        ensures
            final(self).cache() == Map::<Seq<char>, Seq<usize>>::empty(),
            final(self).model() == old(self).model(),
    {
        self.memory_cache = Vec::new();
        proof {
            assert(cache_list(self.memory_cache@) =~= Seq::<(Seq<char>, Seq<usize>)>::empty());
        }
    }

    /// The number of cached chunks and the bytes their ids take; the total must fit.
    pub fn cache_stats(&self) -> (r: CacheStats)
        requires
            cached_len(self.cache_entries()) * vstd::layout::size_of::<usize>() <= usize::MAX,
        ensures
            r.cached_chunks == self.cache().dom().len(),
            r.memory_usage_bytes == cached_len(self.cache_entries()) * vstd::layout::size_of::<usize>(),
    {
        proof {
            use_type_invariant(self);
            lemma_kmap_len(cache_list(self.memory_cache@));
        }
        let ghost cl = cache_list(self.memory_cache@);
        let w = std::mem::size_of::<usize>();
        let mut total: usize = 0;
        let mut i: usize = 0;
        proof {
            assert(cl.take(0) =~= Seq::<(Seq<char>, Seq<usize>)>::empty());
        }
        while i < self.memory_cache.len()
            invariant
                i <= self.memory_cache.len(),
                cl == cache_list(self.memory_cache@),
                w as nat == vstd::layout::size_of::<usize>(),
                cached_len(cl) * w <= usize::MAX,
                total == cached_len(cl.take(i as int)) * w,
            decreases self.memory_cache.len() - i,
        {
            proof {
                assert(cl.take(i + 1).drop_last() =~= cl.take(i as int));
                assert(cl.take(i + 1).last() == cl[i as int]);
                assert(cl[i as int].1 == self.memory_cache@[i as int].1@);
                lemma_cached_len_prefix(cl, i + 1);
                let a = cached_len(cl.take(i as int));
                let b = self.memory_cache@[i as int].1.len();
                let c = cached_len(cl);
                assert((a + b) * w <= c * w) by (nonlinear_arith)
                    requires a + b <= c;
                assert((a + b) * w == a * w + b * w) by (nonlinear_arith);
            }
            total = total + self.memory_cache[i].1.len() * w;
            i = i + 1;
        }
        proof {
            assert(cl.take(self.memory_cache.len() as int) =~= cl);
        }
        CacheStats { cached_chunks: self.memory_cache.len(), memory_usage_bytes: total }
    }
}

pub proof fn lemma_cached_len_prefix(v: Seq<(Seq<char>, Seq<usize>)>, i: int)
    requires
        0 <= i <= v.len(),
    ensures
        cached_len(v.take(i)) <= cached_len(v),
    decreases v.len() - i,
{
    if i < v.len() {
        lemma_cached_len_prefix(v, i + 1);
        assert(v.take(i + 1).drop_last() =~= v.take(i));
    } else {
        assert(v.take(i) =~= v);
    }
}

/// The longest leading run of chunks whose token counts sum to at most the budget.
pub open spec fn budget_prefix(cs: Seq<TokenizedChunk>, budget: nat) -> nat
    decreases cs.len(),
{
    if cs.len() == 0 {
        0
    } else if token_total(cs) <= budget {
        cs.len()
    } else {
        budget_prefix(cs.drop_last(), budget)
    }
}

/// Picks query context within a token budget, from token ids computed ahead.
pub struct QueryOptimizer {
    token_cache: TokenCacheService,
}

impl QueryOptimizer {
    pub closed spec fn model(self) -> Seq<char> {
        self.token_cache.model()
    }

    /// An optimizer for the tokenizer of `model`; fails when tiktoken has none.
    pub fn new(model: &str) -> (r: Result<Self, String>)
        ensures
            r is Ok <==> model_known(model@),
            r matches Ok(s) ==> s.model() == model@,
    {
        match TokenCacheService::new(model) {
            Ok(token_cache) => Ok(QueryOptimizer { token_cache }),
            Err(e) => Err(e),
        }
    }

    /// The chunks, in order, up to the first one that would take the total past the
    /// budget.
    pub fn optimize_context(&self, chunks: Vec<TokenizedChunk>, token_budget: usize) -> (r: Vec<TokenizedChunk>)
        ensures
            r@ == chunks@.take(budget_prefix(chunks@, token_budget as nat) as int),
            token_total(r@) <= token_budget,
            r@.len() < chunks@.len() ==> token_total(chunks@.take(r@.len() + 1int)) > token_budget,
    {
        let ghost cs = chunks@;
        let mut selected: Vec<TokenizedChunk> = Vec::new();
        let mut total: usize = 0;
        let mut rest = chunks;
        let mut i: usize = 0;
        let n = rest.len();
        proof {
            assert(cs.take(0) =~= Seq::<TokenizedChunk>::empty());
            assert(cs.skip(0) =~= cs);
            assert(cs.len() == n);
        }
        let mut fits = true;
        while rest.len() > 0 && fits
            invariant
                i <= cs.len(),
                cs.len() <= usize::MAX,
                rest@ == cs.skip(i as int),
                selected@ == cs.take(i as int),
                total == token_total(cs.take(i as int)),
                total <= token_budget,
                !fits ==> i < cs.len() && token_total(cs.take(i + 1)) > token_budget,
            decreases rest.len() + (if fits { 1int } else { 0int }),
        {
            let c = rest[0].token_count;
            proof {
                assert(cs.take(i + 1).drop_last() =~= cs.take(i as int));
                assert(cs.take(i + 1).last() == cs[i as int]);
                assert(rest@[0] == cs[i as int]);
            }
            if c <= token_budget - total {
                total = total + c;
                let x = rest.remove(0);
                selected.push(x);
                proof {
                    assert(selected@ =~= cs.take(i + 1));
                    assert(rest@ =~= cs.skip(i + 1));
                }
                i = i + 1;
            } else {
                fits = false;
            }
        }
        proof {
            lemma_budget_prefix(cs, token_budget as nat, i as nat);
        }
        selected
    }
}

/// The budget prefix is the number of leading chunks that fit before the first that
/// does not.
pub proof fn lemma_budget_prefix(cs: Seq<TokenizedChunk>, budget: nat, i: nat)
    requires
        i <= cs.len(),
        token_total(cs.take(i as int)) <= budget,
        i < cs.len() ==> token_total(cs.take(i + 1int)) > budget,
    ensures
        budget_prefix(cs, budget) == i,
    decreases cs.len(),
{
    if cs.len() > 0 {
        if i == cs.len() {
            assert(cs.take(i as int) =~= cs);
        } else {
            lemma_token_total_mono(cs, i + 1int);
            assert(token_total(cs) > budget);
            assert(cs.drop_last().take(i as int) =~= cs.take(i as int));
            if i + 1 < cs.len() {
                assert(cs.drop_last().take(i + 1int) =~= cs.take(i + 1int));
            }
            lemma_budget_prefix(cs.drop_last(), budget, i);
        }
    }
}

pub proof fn lemma_token_total_mono(cs: Seq<TokenizedChunk>, i: int)
    requires
        0 <= i <= cs.len(),
    ensures
        token_total(cs.take(i)) <= token_total(cs),
    decreases cs.len() - i,
{
    if i < cs.len() {
        lemma_token_total_mono(cs, i + 1);
        assert(cs.take(i + 1).drop_last() =~= cs.take(i));
    } else {
        assert(cs.take(i) =~= cs);
    }
}

impl QueryOptimizer {
    /// The tokens of a query with its context: the query's token count and the chunks'
    /// token counts; the total must fit.
    pub fn estimate_query_tokens(&self, query: &str, context_chunks: &Vec<TokenizedChunk>) -> (r: Result<usize, String>)
        requires
            bpe_tokens(self.model(), query@).len() + token_total(context_chunks@) <= usize::MAX,
        ensures
            r is Ok <==> bpe_ok(self.model(), query@),
            r matches Ok(n) ==> n == bpe_tokens(self.model(), query@).len() + token_total(context_chunks@),
    {
        let query_tokens = match self.token_cache.count_tokens(query) {
            Ok(n) => n,
            Err(e) => {
                return Err(e);
            },
        };
        let mut context_tokens: usize = 0;
        let mut i: usize = 0;
        proof {
            assert(context_chunks@.take(0) =~= Seq::<TokenizedChunk>::empty());
        }
        while i < context_chunks.len()
            invariant
                i <= context_chunks.len(),
                query_tokens + token_total(context_chunks@) <= usize::MAX,
                context_tokens == token_total(context_chunks@.take(i as int)),
            decreases context_chunks.len() - i,
        {
            proof {
                assert(context_chunks@.take(i + 1).drop_last() =~= context_chunks@.take(i as int));
                lemma_token_total_mono(context_chunks@, i + 1);
            }
            context_tokens = context_tokens + context_chunks[i].token_count;
            i = i + 1;
        }
        proof {
            assert(context_chunks@.take(context_chunks.len() as int) =~= context_chunks@);
        }
        Ok(query_tokens + context_tokens)
    }

    /// The tokens of a query with its context, or `None` when the total does not fit; an
    /// error where the query cannot be split.
    pub fn estimate_query_tokens_checked(&self, query: &str, context_chunks: &Vec<TokenizedChunk>) -> (r: Result<Option<usize>, String>)
        ensures
            r is Ok <==> bpe_ok(self.model(), query@),
            match r {
                Ok(Some(n)) => n == bpe_tokens(self.model(), query@).len() + token_total(context_chunks@),
                Ok(None) => bpe_tokens(self.model(), query@).len() + token_total(context_chunks@) > usize::MAX,
                Err(_) => true,
            },
    {
        let q = match self.token_cache.count_tokens(query) {
            Ok(n) => n,
            Err(e) => {
                return Err(e);
            },
        };
        let mut total: usize = q;
        let mut i: usize = 0;
        proof {
            assert(context_chunks@.take(0) =~= Seq::<TokenizedChunk>::empty());
        }
        while i < context_chunks.len()
            invariant
                i <= context_chunks.len(),
                q == bpe_tokens(self.model(), query@).len(),
                bpe_ok(self.model(), query@),
                total == q + token_total(context_chunks@.take(i as int)),
            decreases context_chunks.len() - i,
        {
            proof {
                assert(context_chunks@.take(i + 1).drop_last() =~= context_chunks@.take(i as int));
            }
            let c = context_chunks[i].token_count;
            if c > usize::MAX - total {
                proof {
                    lemma_token_total_mono(context_chunks@, i + 1);
                }
                return Ok(None);
            }
            total = total + c;
            i = i + 1;
        }
        proof {
            assert(context_chunks@.take(context_chunks.len() as int) =~= context_chunks@);
        }
        match self.estimate_query_tokens(query, context_chunks) {
            Ok(n) => Ok(Some(n)),
            Err(e) => Err(e),
        }
    }
}


} // verus!
