use vstd::prelude::*;

use crate::clock::now_rfc3339;
use crate::filesystem::{without_md, WikiFileSystem};
use crate::lex::{lemma_lex_asym, lemma_lex_total, lemma_lex_trans, lex_less, lex_lt};
use crate::page_text::{
    count_words, extract_links, extract_title, lemma_views_push, page_links, page_title, views_of, word_count,
};
use crate::project_registry::path_join;
use crate::text::{append_chars, chars_of, has_at, has_at_exec, owned, same_text, string_of};

verus! {

/// What the index records of a page. Times are RFC 3339 text.
#[derive(Debug, Clone)]
pub struct PageMetadata {
    pub id: String,
    pub path: String,
    pub title: String,
    pub summary: Option<String>,
    pub tags: Vec<String>,
    pub category: Option<String>,
    pub importance: u8,
    pub created_at: String,
    pub updated_at: String,
    pub word_count: usize,
    pub links_to: Vec<String>,
    pub linked_from: Vec<String>,
}

/// A page's metadata as plain values.
pub struct PageView {
    pub id: Seq<char>,
    pub path: Seq<char>,
    pub title: Seq<char>,
    pub summary: Option<Seq<char>>,
    pub tags: Seq<Seq<char>>,
    pub category: Option<Seq<char>>,
    pub importance: u8,
    pub created_at: Seq<char>,
    pub updated_at: Seq<char>,
    pub word_count: usize,
    pub links_to: Seq<Seq<char>>,
    pub linked_from: Seq<Seq<char>>,
}

pub open spec fn opt_text(o: Option<String>) -> Option<Seq<char>> {
    match o {
        Some(s) => Some(s@),
        None => None,
    }
}

impl View for PageMetadata {
    type V = PageView;

    open spec fn view(&self) -> PageView {
        PageView {
            id: self.id@,
            path: self.path@,
            title: self.title@,
            summary: opt_text(self.summary),
            tags: views_of(self.tags@),
            category: opt_text(self.category),
            importance: self.importance,
            created_at: self.created_at@,
            updated_at: self.updated_at@,
            word_count: self.word_count,
            links_to: views_of(self.links_to@),
            linked_from: views_of(self.linked_from@),
        }
    }
}

/// The summary of the index: page count, last update, categories and most used tags.
#[derive(Debug, Clone)]
pub struct IndexMetadata {
    pub total_pages: usize,
    pub last_updated: String,
    pub categories: Vec<String>,
    pub top_tags: Vec<String>,
}

/// The wiki's index: a version, the pages' metadata and a summary of them.
#[derive(Debug, Clone)]
pub struct WikiIndex {
    pub version: String,
    pub pages: Vec<PageMetadata>,
    pub metadata: IndexMetadata,
}

pub open spec fn pages_view(v: Seq<PageMetadata>) -> Seq<PageView> {
    v.map_values(|p: PageMetadata| p@)
}

/// A copy of a list of strings.
pub fn copy_strings(v: &Vec<String>) -> (r: Vec<String>)
    ensures
        views_of(r@) == views_of(v@),
{
    let mut r: Vec<String> = Vec::new();
    let mut i: usize = 0;
    while i < v.len()
        invariant
            i <= v.len(),
            views_of(r@) == views_of(v@.take(i as int)),
        decreases v.len() - i,
    {
        let x = v[i].clone();
        let ghost before = r@;
        r.push(x);
        proof {
            assert(v@.take(i + 1) =~= v@.take(i as int).push(v@[i as int]));
            lemma_views_push(before, x);
            lemma_views_push(v@.take(i as int), v@[i as int]);
        }
        i = i + 1;
    }
    proof {
        assert(v@.take(v@.len() as int) =~= v@);
    }
    r
}

fn copy_opt(o: &Option<String>) -> (r: Option<String>)
    ensures
        opt_text(r) == opt_text(*o),
{
    match o {
        Some(s) => Some(s.clone()),
        None => None,
    }
}

impl PageMetadata {
    /// A copy of this page's metadata.
    pub fn duplicate(&self) -> (r: PageMetadata)
        ensures
            r@ == self@,
    {
        self.with_linked_from(copy_strings(&self.linked_from))
    }

    /// A copy of this page's metadata with the given pages linking to it.
    pub fn with_linked_from(&self, linked_from: Vec<String>) -> (r: PageMetadata)
        ensures
            r@ == (PageView { linked_from: views_of(linked_from@), ..self@ }),
    {
        PageMetadata {
            id: self.id.clone(),
            path: self.path.clone(),
            title: self.title.clone(),
            summary: copy_opt(&self.summary),
            tags: copy_strings(&self.tags),
            category: copy_opt(&self.category),
            importance: self.importance,
            created_at: self.created_at.clone(),
            updated_at: self.updated_at.clone(),
            word_count: self.word_count,
            links_to: copy_strings(&self.links_to),
            linked_from,
        }
    }
}

/// The number of times `t` occurs in `s`.
pub open spec fn count_in(s: Seq<Seq<char>>, t: Seq<char>) -> nat
    decreases s.len(),
{
    if s.len() == 0 {
        0
    } else {
        count_in(s.drop_last(), t) + if s.last() == t {
            1nat
        } else {
            0nat
        }
    }
}

pub proof fn lemma_count_in_bound(s: Seq<Seq<char>>, t: Seq<char>)
    ensures
        count_in(s, t) <= s.len(),
        count_in(s, t) > 0 ==> s.contains(t),
    decreases s.len(),
{
    if s.len() > 0 {
        lemma_count_in_bound(s.drop_last(), t);
        if count_in(s.drop_last(), t) > 0 {
            let k = choose|k: int| 0 <= k < s.drop_last().len() && s.drop_last()[k] == t;
            assert(s[k] == t);
        }
    }
}

/// The ids of the pages that link to `target`, a page once for each of its links
/// to it, in the order of the pages and of their links.
pub open spec fn backlinks(ps: Seq<PageView>, target: Seq<char>) -> Seq<Seq<char>>
    decreases ps.len(),
{
    if ps.len() == 0 {
        Seq::empty()
    } else {
        backlinks(ps.drop_last(), target) + Seq::new(
            count_in(ps.last().links_to, target),
            |k: int| ps.last().id,
        )
    }
}

/// The pages with `linked_from` set from the links of all pages.
pub open spec fn with_backlinks(ps: Seq<PageView>) -> Seq<PageView> {
    Seq::new(ps.len(), |i: int| PageView { linked_from: backlinks(ps, ps[i].id), ..ps[i] })
}

/// The ids of the pages that link to `target`.
pub fn backlinks_of(pages: &Vec<PageMetadata>, target: &String) -> (r: Vec<String>)
    ensures
        views_of(r@) == backlinks(pages_view(pages@), target@),
{
    let ghost ps = pages_view(pages@);
    let mut r: Vec<String> = Vec::new();
    let mut i: usize = 0;
    while i < pages.len()
        invariant
            i <= pages.len(),
            ps == pages_view(pages@),
            views_of(r@) == backlinks(ps.take(i as int), target@),
        decreases pages.len() - i,
    {
        let page = &pages[i];
        let ghost links = views_of(page.links_to@);
        let ghost base = backlinks(ps.take(i as int), target@);
        let mut j: usize = 0;
        proof {
            assert(links.take(0) =~= Seq::<Seq<char>>::empty());
            assert(Seq::new(0, |k: int| page.id@) =~= Seq::<Seq<char>>::empty());
            assert(views_of(r@) =~= base + Seq::new(0, |k: int| page.id@));
        }
        while j < page.links_to.len()
            invariant
                j <= page.links_to.len(),
                page == &pages[i as int],
                links == views_of(page.links_to@),
                views_of(r@) == base + Seq::new(count_in(links.take(j as int), target@), |k: int| page.id@),
            decreases page.links_to.len() - j,
        {
            proof {
                assert(links.take(j + 1).drop_last() =~= links.take(j as int));
                assert(links.take(j + 1).last() == page.links_to@[j as int]@);
            }
            if same_text(&page.links_to[j], target) {
                let ghost before = views_of(r@);
                r.push(page.id.clone());
                proof {
                    let n = count_in(links.take(j as int), target@);
                    assert(views_of(r@) =~= before.push(page.id@));
                    assert(base + Seq::new(n + 1, |k: int| page.id@) =~= (base + Seq::new(n, |k: int| page.id@)).push(
                        page.id@,
                    ));
                }
            }
            j = j + 1;
        }
        proof {
            assert(links.take(links.len() as int) =~= links);
            assert(ps.take(i + 1).drop_last() =~= ps.take(i as int));
            assert(ps.take(i + 1).last() == page@);
        }
        i = i + 1;
    }
    proof {
        assert(ps.take(ps.len() as int) =~= ps);
    }
    r
}

/// The strings are in strictly increasing order.
pub open spec fn strictly_sorted(s: Seq<Seq<char>>) -> bool {
    forall|i: int, j: int| 0 <= i < j < s.len() ==> lex_lt(#[trigger] s[i], #[trigger] s[j])
}

/// Some page has category `c`.
pub open spec fn has_category(ps: Seq<PageView>, c: Seq<char>) -> bool {
    exists|k: int| 0 <= k < ps.len() && (#[trigger] ps[k]).category == Some(c)
}

/// The categories of the pages, each once, in increasing order.
pub open spec fn categories_ok(ps: Seq<PageView>, r: Seq<Seq<char>>) -> bool {
    &&& strictly_sorted(r)
    &&& forall|c: Seq<char>| r.contains(c) <==> has_category(ps, c)
}

/// Puts `c` into a strictly sorted list unless it is there already.
fn insert_sorted(r: &mut Vec<String>, c: &String)
    requires
        strictly_sorted(views_of(old(r)@)),
    ensures
        strictly_sorted(views_of(final(r)@)),
        forall|x: Seq<char>| views_of(final(r)@).contains(x) <==> (views_of(old(r)@).contains(x) || x == c@),
{
    let ghost old_v = views_of(r@);
    let mut j: usize = 0;
    while j < r.len() && lex_less(&r[j], c)
        invariant
            j <= r.len(),
            old_v == views_of(r@),
            forall|k: int| 0 <= k < j ==> lex_lt(#[trigger] old_v[k], c@),
        decreases r.len() - j,
    {
        j = j + 1;
    }
    if j < r.len() && same_text(&r[j], c) {
        proof {
            assert(old_v[j as int] == c@);
        }
        return;
    }
    proof {
        if j < r.len() {
            lemma_lex_total(old_v[j as int], c@);
            assert(lex_lt(c@, old_v[j as int]));
        }
    }
    r.insert(j, c.clone());
    proof {
        let nv = views_of(r@);
        assert(nv =~= old_v.insert(j as int, c@));
        assert forall|a: int, b: int| 0 <= a < b < nv.len() implies lex_lt(#[trigger] nv[a], #[trigger] nv[b]) by {
            if b < j {
                assert(nv[a] == old_v[a] && nv[b] == old_v[b]);
            } else if b == j {
                assert(nv[a] == old_v[a]);
            } else if a < j {
                assert(nv[a] == old_v[a] && nv[b] == old_v[b - 1]);
                lemma_lex_trans(old_v[a], c@, old_v[j as int]);
                if b - 1 > j {
                    lemma_lex_trans(old_v[a], old_v[j as int], old_v[b - 1]);
                }
            } else if a == j {
                assert(nv[b] == old_v[b - 1]);
                if b - 1 > j {
                    lemma_lex_trans(c@, old_v[j as int], old_v[b - 1]);
                }
            } else {
                assert(nv[a] == old_v[a - 1] && nv[b] == old_v[b - 1]);
            }
        }
        assert forall|x: Seq<char>| nv.contains(x) <==> (old_v.contains(x) || x == c@) by {
            if nv.contains(x) {
                let k = choose|k: int| 0 <= k < nv.len() && nv[k] == x;
                if k < j {
                    assert(old_v[k] == x);
                } else if k > j {
                    assert(old_v[k - 1] == x);
                }
            }
            if old_v.contains(x) {
                let k = choose|k: int| 0 <= k < old_v.len() && old_v[k] == x;
                if k < j {
                    assert(nv[k] == x);
                } else {
                    assert(nv[k + 1] == x);
                }
            }
            if x == c@ {
                assert(nv[j as int] == x);
            }
        }
    }
}

/// The categories of the pages, each once, in increasing order.
pub fn sorted_categories(pages: &Vec<PageMetadata>) -> (r: Vec<String>)
    ensures
        categories_ok(pages_view(pages@), views_of(r@)),
{
    let ghost ps = pages_view(pages@);
    let mut r: Vec<String> = Vec::new();
    let mut i: usize = 0;
    while i < pages.len()
        invariant
            i <= pages.len(),
            ps == pages_view(pages@),
            strictly_sorted(views_of(r@)),
            forall|c: Seq<char>| views_of(r@).contains(c) <==> has_category(ps.take(i as int), c),
        decreases pages.len() - i,
    {
        let ghost before = views_of(r@);
        match &pages[i].category {
            Some(c) => insert_sorted(&mut r, c),
            None => {},
        }
        proof {
            assert(ps[i as int] == pages@[i as int]@);
            assert forall|c: Seq<char>| views_of(r@).contains(c) <==> has_category(ps.take(i + 1), c) by {
                if has_category(ps.take(i + 1), c) {
                    let k = choose|k: int| 0 <= k < i + 1 && (#[trigger] ps.take(i + 1)[k]).category == Some(c);
                    if k < i {
                        assert(ps.take(i as int)[k] == ps.take(i + 1)[k]);
                    }
                }
                if has_category(ps.take(i as int), c) {
                    let k = choose|k: int| 0 <= k < i && (#[trigger] ps.take(i as int)[k]).category == Some(c);
                    assert(ps.take(i + 1)[k] == ps.take(i as int)[k]);
                }
                if views_of(r@).contains(c) && !before.contains(c) {
                    assert(ps.take(i + 1)[i as int].category == Some(c));
                }
            }
        }
        i = i + 1;
    }
    proof {
        assert(ps.take(ps.len() as int) =~= ps);
    }
    r
}


/// All the tags of the pages, page by page, each page's in its order.
pub open spec fn all_tags(ps: Seq<PageView>) -> Seq<Seq<char>>
    decreases ps.len(),
{
    if ps.len() == 0 {
        Seq::empty()
    } else {
        all_tags(ps.drop_last()) + ps.last().tags
    }
}

proof fn lemma_all_tags_mono(ps: Seq<PageView>, i: int, n: int)
    requires
        0 <= i <= n <= ps.len(),
    ensures
        all_tags(ps.take(i)).len() <= all_tags(ps.take(n)).len(),
    decreases n - i,
{
    if i < n {
        assert(ps.take(n).drop_last() =~= ps.take(n - 1));
        lemma_all_tags_mono(ps, i, n - 1);
    }
}

/// At most twenty: the number of tags the index lists as most used.
pub open spec fn top_count(n: nat) -> nat {
    if n < 20 {
        n
    } else {
        20
    }
}

/// `r` lists the most used tags of the pages: as many as there are distinct tags, up
/// to twenty, each once, from the most used down, and no tag left out is used more
/// than one listed. (Between tags used equally often the choice is free.)
pub open spec fn top_tags_ok(ps: Seq<PageView>, r: Seq<Seq<char>>) -> bool {
    let all = all_tags(ps);
    &&& r.len() == top_count(all.to_set().len())
    &&& r.no_duplicates()
    &&& forall|i: int| 0 <= i < r.len() ==> all.contains(#[trigger] r[i])
    &&& forall|i: int, j: int|
        0 <= i < j < r.len() ==> count_in(all, #[trigger] r[j]) <= count_in(all, #[trigger] r[i])
    &&& forall|t: Seq<char>, i: int|
        #![trigger all.contains(t), r[i]]
        all.contains(t) && !r.contains(t) && 0 <= i < r.len() ==> count_in(all, t) <= count_in(all, r[i])
}

/// `keys` are the distinct tags of `seen` in order of first use, and `counts` how
/// often each occurs there.
pub open spec fn counted(keys: Seq<Seq<char>>, counts: Seq<usize>, seen: Seq<Seq<char>>) -> bool {
    &&& counts.len() == keys.len()
    &&& keys.no_duplicates()
    &&& forall|t: Seq<char>| keys.contains(t) <==> seen.contains(t)
    &&& forall|k: int| 0 <= k < keys.len() ==> counts[k] == count_in(seen, #[trigger] keys[k])
}

proof fn lemma_push_contains(s: Seq<Seq<char>>, t: Seq<char>, x: Seq<char>)
    ensures
        s.push(t).contains(x) <==> (s.contains(x) || x == t),
{
    if s.push(t).contains(x) && x != t {
        let q = choose|q: int| 0 <= q < s.push(t).len() && s.push(t)[q] == x;
        assert(s[q] == x);
    }
    if s.contains(x) {
        let q = choose|q: int| 0 <= q < s.len() && s[q] == x;
        assert(s.push(t)[q] == x);
    }
    if x == t {
        assert(s.push(t)[s.len() as int] == x);
    }
}

/// Counts one more use of tag `t`.
fn add_tag(keys: &mut Vec<String>, counts: &mut Vec<usize>, t: &String, Ghost(seen): Ghost<Seq<Seq<char>>>)
    requires
        counted(views_of(old(keys)@), old(counts)@, seen),
        seen.len() < usize::MAX,
    ensures
        counted(views_of(final(keys)@), final(counts)@, seen.push(t@)),
{
    let ghost kv = views_of(keys@);
    proof {
        assert(seen.push(t@).drop_last() =~= seen);
        assert forall|x: Seq<char>| #![auto] seen.push(t@).contains(x) <==> (seen.contains(x) || x == t@) by {
            lemma_push_contains(seen, t@, x);
        }
    }
    let mut k: usize = 0;
    while k < keys.len() && !same_text(&keys[k], t)
        invariant
            k <= keys.len(),
            kv == views_of(keys@),
            forall|m: int| 0 <= m < k ==> kv[m] != t@,
        decreases keys.len() - k,
    {
        k = k + 1;
    }
    if k < keys.len() {
        proof {
            lemma_count_in_bound(seen, t@);
            assert(kv[k as int] == t@);
        }
        let c = counts[k] + 1;
        counts.set(k, c);
        proof {
            assert forall|m: int| 0 <= m < keys.len() implies counts@[m] == count_in(seen.push(t@), #[trigger] views_of(keys@)[m]) by {
                if m != k {
                    assert(kv[m] != kv[k as int]);
                }
            }
            assert forall|x: Seq<char>| views_of(keys@).contains(x) <==> seen.push(t@).contains(x) by {
                if x == t@ {
                    assert(kv[k as int] == x);
                }
            }
        }
    } else {
        proof {
            assert(!kv.contains(t@));
            lemma_count_in_bound(seen, t@);
        }
        let ghost kbefore = keys@;
        let tc = t.clone();
        keys.push(tc);
        counts.push(1);
        proof {
            lemma_views_push(kbefore, tc);
            let nk = views_of(keys@);
            assert(nk == kv.push(t@));
            assert forall|m: int| 0 <= m < keys.len() implies counts@[m] == count_in(seen.push(t@), #[trigger] nk[m]) by {
                if m < kv.len() {
                    assert(nk[m] == kv[m]);
                }
            }
            assert forall|a: int, b: int| 0 <= a < b < nk.len() implies nk[a] != nk[b] by {
                if b == kv.len() {
                    assert(nk[a] == kv[a]);
                    assert(kv.contains(nk[a]));
                } else {
                    assert(kv[a] != kv[b]);
                }
            }
            assert forall|x: Seq<char>| nk.contains(x) <==> seen.push(t@).contains(x) by {
                lemma_push_contains(kv, t@, x);
            }
        }
    }
}

/// The distinct tags of the pages in order of first use, with how often each is used.
fn tag_counts(pages: &Vec<PageMetadata>) -> (r: (Vec<String>, Vec<usize>))
    requires
        all_tags(pages_view(pages@)).len() <= usize::MAX,
    ensures
        counted(views_of(r.0@), r.1@, all_tags(pages_view(pages@))),
{
    let ghost ps = pages_view(pages@);
    let mut keys: Vec<String> = Vec::new();
    let mut counts: Vec<usize> = Vec::new();
    let mut i: usize = 0;
    proof {
        assert(ps.take(0) =~= Seq::<PageView>::empty());
        assert(views_of(keys@) =~= Seq::<Seq<char>>::empty());
    }
    while i < pages.len()
        invariant
            i <= pages.len(),
            ps == pages_view(pages@),
            all_tags(ps).len() <= usize::MAX,
            counted(views_of(keys@), counts@, all_tags(ps.take(i as int))),
        decreases pages.len() - i,
    {
        let tags = &pages[i].tags;
        let ghost base = all_tags(ps.take(i as int));
        let ghost tv = views_of(tags@);
        proof {
            assert(ps[i as int] == pages@[i as int]@);
            assert(ps.take(i + 1).drop_last() =~= ps.take(i as int));
            assert(all_tags(ps.take(i + 1)) == base + tv);
            lemma_all_tags_mono(ps, i + 1, ps.len() as int);
            assert(ps.take(ps.len() as int) =~= ps);
            assert(base + tv.take(0) =~= base);
        }
        let mut j: usize = 0;
        while j < tags.len()
            invariant
                j <= tags.len(),
                tags == &pages[i as int].tags,
                tv == views_of(tags@),
                base.len() + tv.len() <= usize::MAX,
                counted(views_of(keys@), counts@, base + tv.take(j as int)),
            decreases tags.len() - j,
        {
            proof {
                assert(base + tv.take(j + 1) =~= (base + tv.take(j as int)).push(tags@[j as int]@));
            }
            add_tag(&mut keys, &mut counts, &tags[j], Ghost(base + tv.take(j as int)));
            j = j + 1;
        }
        proof {
            assert(tv.take(tv.len() as int) =~= tv);
        }
        i = i + 1;
    }
    proof {
        assert(ps.take(ps.len() as int) =~= ps);
    }
    (keys, counts)
}


/// The selection loop's state: `r` taken so far, `pk`/`pc` the tags left and their counts.
pub open spec fn selection_ok(
    all: Seq<Seq<char>>,
    d: nat,
    r: Seq<Seq<char>>,
    pk: Seq<Seq<char>>,
    pc: Seq<usize>,
) -> bool {
    &&& pc.len() == pk.len()
    &&& r.len() + pk.len() == d
    &&& r.no_duplicates()
    &&& pk.no_duplicates()
    &&& forall|a: int, b: int| 0 <= a < r.len() && 0 <= b < pk.len() ==> r[a] != pk[b]
    &&& forall|t: Seq<char>| all.contains(t) <==> (r.contains(t) || pk.contains(t))
    &&& forall|k: int| 0 <= k < pk.len() ==> pc[k] == count_in(all, #[trigger] pk[k])
    &&& forall|i: int, j: int| 0 <= i < j < r.len() ==> count_in(all, #[trigger] r[j]) <= count_in(all, #[trigger] r[i])
    &&& forall|k: int, i: int|
        0 <= k < pk.len() && 0 <= i < r.len() ==> count_in(all, #[trigger] pk[k]) <= count_in(all, #[trigger] r[i])
}

/// Takes the most used tags, at most twenty, from the most used down.
fn select_top(keys: Vec<String>, counts: Vec<usize>, Ghost(all): Ghost<Seq<Seq<char>>>) -> (r: Vec<String>)
    requires
        counted(views_of(keys@), counts@, all),
    ensures
        views_of(r@).len() == top_count(keys.len() as nat),
        views_of(r@).no_duplicates(),
        forall|i: int| 0 <= i < r.len() ==> all.contains(#[trigger] views_of(r@)[i]),
        forall|i: int, j: int|
            0 <= i < j < r.len() ==> count_in(all, #[trigger] views_of(r@)[j]) <= count_in(all, #[trigger] views_of(r@)[i]),
        forall|t: Seq<char>, i: int|
            #![trigger all.contains(t), views_of(r@)[i]]
            all.contains(t) && !views_of(r@).contains(t) && 0 <= i < r.len() ==> count_in(all, t) <= count_in(all, views_of(r@)[i]),
{
    let ghost d = keys.len() as nat;
    let mut pk = keys;
    let mut pc = counts;
    let mut r: Vec<String> = Vec::new();
    proof {
        assert(views_of(r@) =~= Seq::<Seq<char>>::empty());
    }
    while r.len() < 20 && pk.len() > 0
        invariant
            r.len() <= 20,
            selection_ok(all, d, views_of(r@), views_of(pk@), pc@),
        decreases pk.len(),
    {
        let ghost rv = views_of(r@);
        let ghost pv = views_of(pk@);
        let mut b: usize = 0;
        let mut k: usize = 1;
        while k < pk.len()
            invariant
                1 <= k <= pk.len(),
                b < pk.len(),
                pc.len() == pk.len(),
                forall|m: int| 0 <= m < k ==> pc@[m] <= pc@[b as int],
            decreases pk.len() - k,
        {
            if pc[k] > pc[b] {
                b = k;
            }
            k = k + 1;
        }
        let ghost pcv = pc@;
        let key = pk.remove(b);
        let _count = pc.remove(b);
        let ghost rbefore = r@;
        r.push(key);
        proof {
            lemma_views_push(rbefore, key);
            let nr = views_of(r@);
            let npk = views_of(pk@);
            let npc = pc@;
            assert(nr == rv.push(pv[b as int]));
            assert(npk =~= pv.remove(b as int));
            assert forall|m: int| 0 <= m < npk.len() implies npk[m] == pv[if m < b { m } else { m + 1 }] by {}
            assert(npc =~= pcv.remove(b as int));
            assert(pcv[b as int] == count_in(all, pv[b as int]));
            assert forall|m: int| 0 <= m < npk.len() implies npc[m] == count_in(all, #[trigger] npk[m]) by {
                let m2 = if m < b { m } else { m + 1 };
                assert(npc[m] == pcv[m2]);
                assert(pcv[m2] == count_in(all, pv[m2]));
            }
            assert forall|i: int, j: int| 0 <= i < j < nr.len() implies count_in(all, #[trigger] nr[j]) <= count_in(all, #[trigger] nr[i]) by {
                if j == rv.len() {
                    assert(nr[i] == rv[i]);
                    assert(count_in(all, pv[b as int]) <= count_in(all, rv[i]));
                } else {
                    assert(nr[i] == rv[i] && nr[j] == rv[j]);
                }
            }
            assert forall|m: int, i: int| 0 <= m < npk.len() && 0 <= i < nr.len() implies count_in(all, #[trigger] npk[m]) <= count_in(all, #[trigger] nr[i]) by {
                let m2 = if m < b { m } else { m + 1 };
                assert(npk[m] == pv[m2]);
                assert(pcv[m2] <= pcv[b as int]);
                assert(pcv[m2] == count_in(all, pv[m2]));
                if i < rv.len() {
                    assert(nr[i] == rv[i]);
                }
            }
            assert forall|t: Seq<char>| all.contains(t) <==> (nr.contains(t) || npk.contains(t)) by {
                lemma_push_contains(rv, pv[b as int], t);
                if pv.contains(t) {
                    let q = choose|q: int| 0 <= q < pv.len() && pv[q] == t;
                    if q < b {
                        assert(npk[q] == t);
                    } else if q > b {
                        assert(npk[q - 1] == t);
                    }
                }
                if npk.contains(t) {
                    let q = choose|q: int| 0 <= q < npk.len() && npk[q] == t;
                    assert(pv.contains(t));
                }
            }
            assert forall|a: int, c: int| 0 <= a < c < npk.len() implies npk[a] != npk[c] by {
                let a2 = if a < b { a } else { a + 1 };
                let c2 = if c < b { c } else { c + 1 };
                assert(pv[a2] != pv[c2]);
            }
            assert forall|a: int, c: int| 0 <= a < c < nr.len() implies nr[a] != nr[c] by {
                if c == rv.len() {
                    assert(rv[a] != pv[b as int]);
                }
            }
            assert forall|a: int, c: int| 0 <= a < nr.len() && 0 <= c < npk.len() implies nr[a] != npk[c] by {
                let c2 = if c < b { c } else { c + 1 };
                if a < rv.len() {
                    assert(rv[a] != pv[c2]);
                } else {
                    assert(pv[b as int] != pv[c2]);
                }
            }
        }
    }
    proof {
        let rv = views_of(r@);
        let pv = views_of(pk@);
        assert forall|i: int| 0 <= i < r.len() implies all.contains(#[trigger] views_of(r@)[i]) by {
            assert(rv.contains(rv[i]));
        }
        assert forall|t: Seq<char>, i: int|
            #![trigger all.contains(t), views_of(r@)[i]]
            all.contains(t) && !views_of(r@).contains(t) && 0 <= i < r.len() implies count_in(all, t) <= count_in(all, views_of(r@)[i]) by {
            assert(pv.contains(t));
            let q = choose|q: int| 0 <= q < pv.len() && pv[q] == t;
            assert(count_in(all, pv[q]) <= count_in(all, rv[i]));
        }
    }
    r
}


/// The most used tags of the pages (see `top_tags_ok`).
pub fn top_tags(pages: &Vec<PageMetadata>) -> (r: Vec<String>)
    requires
        all_tags(pages_view(pages@)).len() <= usize::MAX,
    ensures
        top_tags_ok(pages_view(pages@), views_of(r@)),
{
    let ghost all = all_tags(pages_view(pages@));
    let (keys, counts) = tag_counts(pages);
    proof {
        let kv = views_of(keys@);
        kv.unique_seq_to_set();
        assert(kv.to_set() =~= all.to_set());
        assert(kv.len() == keys.len());
    }
    select_top(keys, counts, Ghost(all))
}

/// The pages with each page's `linked_from` set from the links of all pages.
pub fn pages_with_backlinks(pages: &Vec<PageMetadata>) -> (r: Vec<PageMetadata>)
    ensures
        pages_view(r@) == with_backlinks(pages_view(pages@)),
{
    let ghost ps = pages_view(pages@);
    let mut r: Vec<PageMetadata> = Vec::new();
    let mut i: usize = 0;
    while i < pages.len()
        invariant
            i <= pages.len(),
            ps == pages_view(pages@),
            pages_view(r@) == with_backlinks(ps).take(i as int),
        decreases pages.len() - i,
    {
        let links = backlinks_of(pages, &pages[i].id);
        let p = pages[i].with_linked_from(links);
        let ghost before = r@;
        r.push(p);
        proof {
            assert(ps[i as int] == pages@[i as int]@);
            assert(pages_view(r@) =~= pages_view(before).push(p@));
            assert(with_backlinks(ps).take(i + 1) =~= with_backlinks(ps).take(i as int).push(with_backlinks(ps)[i as int]));
        }
        i = i + 1;
    }
    proof {
        assert(with_backlinks(ps).take(ps.len() as int) =~= with_backlinks(ps));
    }
    r
}

/// The index's summary fits its pages `ps`: their number, their categories and their
/// most used tags (the time of the update is not stated).
pub open spec fn summary_ok(ps: Seq<PageView>, m: IndexMetadata) -> bool {
    &&& m.total_pages == ps.len()
    &&& categories_ok(ps, views_of(m.categories@))
    &&& top_tags_ok(ps, views_of(m.top_tags@))
}

/// The index after an update of its pages to `ps`: the same version, the pages with
/// their `linked_from` recomputed, and a summary of them.
pub open spec fn index_updated(version: Seq<char>, ps: Seq<PageView>, r: WikiIndex) -> bool {
    &&& r.version@ == version
    &&& pages_view(r.pages@) == with_backlinks(ps)
    &&& summary_ok(ps, r.metadata)
}

proof fn lemma_backlinks_keep_tags(ps: Seq<PageView>)
    ensures
        all_tags(with_backlinks(ps)) == all_tags(ps),
        forall|c: Seq<char>| has_category(with_backlinks(ps), c) == has_category(ps, c),
    decreases ps.len(),
{
    assert forall|c: Seq<char>| has_category(with_backlinks(ps), c) == has_category(ps, c) by {
        if has_category(ps, c) {
            let k = choose|k: int| 0 <= k < ps.len() && (#[trigger] ps[k]).category == Some(c);
            assert(with_backlinks(ps)[k].category == Some(c));
        }
        if has_category(with_backlinks(ps), c) {
            let k = choose|k: int| 0 <= k < ps.len() && (#[trigger] with_backlinks(ps)[k]).category == Some(c);
            assert(ps[k].category == Some(c));
        }
    }
    lemma_all_tags_same(with_backlinks(ps), ps);
}

proof fn lemma_all_tags_same(a: Seq<PageView>, b: Seq<PageView>)
    requires
        a.len() == b.len(),
        forall|i: int| 0 <= i < a.len() ==> (#[trigger] a[i]).tags == b[i].tags,
    ensures
        all_tags(a) == all_tags(b),
    decreases a.len(),
{
    if a.len() > 0 {
        lemma_all_tags_same(a.drop_last(), b.drop_last());
    }
}

/// Sets the summary of `index` and each page's `linked_from` from its pages.
fn refresh(version: String, pages: Vec<PageMetadata>) -> (r: WikiIndex)
    requires
        all_tags(pages_view(pages@)).len() <= usize::MAX,
    ensures
        index_updated(version@, pages_view(pages@), r),
{
    let n = pages.len();
    let categories = sorted_categories(&pages);
    let tops = top_tags(&pages);
    let linked = pages_with_backlinks(&pages);
    WikiIndex {
        version,
        pages: linked,
        metadata: IndexMetadata { total_pages: n, last_updated: now_rfc3339(), categories, top_tags: tops },
    }
}

/// The pages of `ps` whose id is not `id`, in order.
pub open spec fn without_page(ps: Seq<PageView>, id: Seq<char>) -> Seq<PageView>
    decreases ps.len(),
{
    if ps.len() == 0 {
        Seq::empty()
    } else if ps.last().id == id {
        without_page(ps.drop_last(), id)
    } else {
        without_page(ps.drop_last(), id).push(ps.last())
    }
}

fn pages_without(pages: &Vec<PageMetadata>, id: &String) -> (r: Vec<PageMetadata>)
    ensures
        pages_view(r@) == without_page(pages_view(pages@), id@),
{
    let ghost ps = pages_view(pages@);
    let mut r: Vec<PageMetadata> = Vec::new();
    let mut i: usize = 0;
    while i < pages.len()
        invariant
            i <= pages.len(),
            ps == pages_view(pages@),
            pages_view(r@) == without_page(ps.take(i as int), id@),
        decreases pages.len() - i,
    {
        proof {
            assert(ps[i as int] == pages@[i as int]@);
            assert(ps.take(i + 1).drop_last() =~= ps.take(i as int));
        }
        if !same_text(&pages[i].id, id) {
            let p = pages[i].duplicate();
            let ghost before = r@;
            r.push(p);
            proof {
                assert(pages_view(r@) =~= pages_view(before).push(p@));
            }
        }
        i = i + 1;
    }
    proof {
        assert(ps.take(ps.len() as int) =~= ps);
    }
    r
}

/// The first page of `ps` from position `i` on with the given id.
pub open spec fn page_with_id(ps: Seq<PageView>, id: Seq<char>, i: int) -> Option<PageView>
    decreases ps.len() - i,
{
    if i < 0 || i >= ps.len() {
        None
    } else if ps[i].id == id {
        Some(ps[i])
    } else {
        page_with_id(ps, id, i + 1)
    }
}

/// The wrapper of `str::to_lowercase`; the name stands for its result.
pub uninterp spec fn lowercase(s: Seq<char>) -> Seq<char>;

/// Calls `str::to_lowercase`: the text with each character mapped to its lowercase
/// form under Unicode's case mapping. That mapping is a table, so only its name is
/// stated: the result is `lowercase` of the text.
#[verifier::external_body]
fn to_lower(s: &str) -> (r: String)
    ensures
        r@ == lowercase(s@),
{
    s.to_lowercase()
}

/// The text in lower case (see `lowercase`).
pub fn lowercase_of(s: &str) -> (r: String)
    ensures
        r@ == lowercase(s@),
{
    to_lower(s)
}

/// `needle` occurs in `hay`.
pub open spec fn occurs(hay: Seq<char>, needle: Seq<char>) -> bool {
    exists|i: int| has_at(hay, i, needle)
}

fn occurs_exec(hay: &String, needle: &Vec<char>) -> (r: bool)
    ensures
        r == occurs(hay@, needle@),
{
    let h = chars_of(hay.as_str());
    let mut i: usize = 0;
    while i < h.len()
        invariant
            i <= h.len(),
            h@ == hay@,
            forall|j: int| 0 <= j < i ==> !has_at(h@, j, needle@),
        decreases h.len() - i,
    {
        if has_at_exec(&h, i, needle) {
            proof {
                assert(has_at(hay@, i as int, needle@));
            }
            return true;
        }
        i = i + 1;
    }
    if has_at_exec(&h, h.len(), needle) {
        proof {
            assert(has_at(hay@, h.len() as int, needle@));
        }
        return true;
    }
    proof {
        assert forall|j: int| !has_at(hay@, j, needle@) by {
            if 0 <= j < h.len() {
                assert(!has_at(h@, j, needle@));
            }
        }
    }
    false
}

/// A search for `q` matches page `p`: its lowercased query occurs in the lowercased
/// title, in a lowercased tag or in the lowercased category.
pub open spec fn page_matches(p: PageView, q: Seq<char>) -> bool {
    let ql = lowercase(q);
    ||| occurs(lowercase(p.title), ql)
    ||| exists|k: int| 0 <= k < p.tags.len() && occurs(lowercase(#[trigger] p.tags[k]), ql)
    ||| (p.category matches Some(c) && occurs(lowercase(c), ql))
}

/// The pages of `ps` that a search for `q` matches, in order.
pub open spec fn search_results(ps: Seq<PageView>, q: Seq<char>) -> Seq<PageView>
    decreases ps.len(),
{
    if ps.len() == 0 {
        Seq::empty()
    } else if page_matches(ps.last(), q) {
        search_results(ps.drop_last(), q).push(ps.last())
    } else {
        search_results(ps.drop_last(), q)
    }
}

/// Law: a search finds every page whose title, any one of its tags, or its category holds
/// the query, letter case aside; and it finds nothing else: each page it returns is a page
/// of the index of which one of these holds.
pub proof fn lemma_search_results_exact(ps: Seq<PageView>, q: Seq<char>)
    ensures
        forall|j: int| 0 <= j < ps.len() && occurs(lowercase(ps[j].title), lowercase(q))
            ==> #[trigger] search_results(ps, q).contains(ps[j]),
        forall|j: int, k: int|
            #![trigger search_results(ps, q).contains(ps[j]), ps[j].tags[k]]
            0 <= j < ps.len() && 0 <= k < ps[j].tags.len() && occurs(lowercase(ps[j].tags[k]), lowercase(q))
            ==> search_results(ps, q).contains(ps[j]),
        forall|j: int| 0 <= j < ps.len() && (ps[j].category matches Some(c) && occurs(lowercase(c), lowercase(q)))
            ==> #[trigger] search_results(ps, q).contains(ps[j]),
        forall|x: PageView| #[trigger] search_results(ps, q).contains(x) ==> ps.contains(x) && (
            occurs(lowercase(x.title), lowercase(q))
            || (exists|k: int| 0 <= k < x.tags.len() && occurs(lowercase(#[trigger] x.tags[k]), lowercase(q)))
            || (x.category matches Some(c) && occurs(lowercase(c), lowercase(q)))),
    decreases ps.len(),
{
    if ps.len() > 0 {
        let pre = ps.drop_last();
        lemma_search_results_exact(pre, q);
        let rp = search_results(pre, q);
        let r = search_results(ps, q);
        assert forall|j: int| 0 <= j < ps.len() && page_matches(ps[j], q) implies r.contains(ps[j]) by {
            if j == ps.len() - 1 {
                assert(r[r.len() - 1] == ps[j]);
            } else {
                assert(pre[j] == ps[j]);
                if occurs(lowercase(pre[j].title), lowercase(q)) {
                    assert(rp.contains(pre[j]));
                } else if exists|k: int| 0 <= k < pre[j].tags.len() && occurs(lowercase(#[trigger] pre[j].tags[k]), lowercase(q)) {
                    let k = choose|k: int| 0 <= k < pre[j].tags.len() && occurs(lowercase(#[trigger] pre[j].tags[k]), lowercase(q));
                    assert(occurs(lowercase(pre[j].tags[k]), lowercase(q)));
                    assert(rp.contains(pre[j]));
                } else {
                    assert(rp.contains(pre[j]));
                }
                let t = choose|t: int| 0 <= t < rp.len() && rp[t] == pre[j];
                assert(r.len() >= rp.len());
                assert(r[t] == rp[t]);
            }
        }
        assert forall|x: PageView| #[trigger] r.contains(x) implies ps.contains(x) && page_matches(x, q) by {
            let t = choose|t: int| 0 <= t < r.len() && r[t] == x;
            if t < rp.len() {
                assert(rp[t] == x);
                assert(rp.contains(x));
                let u = choose|u: int| 0 <= u < pre.len() && pre[u] == x;
                assert(ps[u] == x);
            } else {
                assert(x == ps.last());
                assert(ps[ps.len() - 1] == x);
            }
        }
    }
}

/// Law: a search keeps the index order and lists no page twice: its results are the pages at
/// rising positions `f` of the index, and every page there that a search for `q` matches
/// (see `lemma_search_results_exact`) has its position among them.
pub proof fn lemma_search_results_in_order(ps: Seq<PageView>, q: Seq<char>) -> (f: Seq<int>)
    ensures
        f.len() == search_results(ps, q).len(),
        forall|t: int| 0 <= t < f.len() ==> 0 <= #[trigger] f[t] < ps.len() && search_results(ps, q)[t] == ps[f[t]],
        forall|t: int, u: int| 0 <= t < u < f.len() ==> #[trigger] f[t] < #[trigger] f[u],
        forall|j: int| 0 <= j < ps.len() && page_matches(ps[j], q) ==> #[trigger] f.contains(j),
    decreases ps.len(),
{
    if ps.len() == 0 {
        Seq::empty()
    } else {
        let pre = ps.drop_last();
        let f0 = lemma_search_results_in_order(pre, q);
        let n = pre.len() as int;
        assert forall|t: int| 0 <= t < f0.len() implies #[trigger] f0[t] < n && ps[f0[t]] == pre[f0[t]] by {
        }
        if page_matches(ps.last(), q) {
            let f = f0.push(n);
            assert(f[f0.len() as int] == n);
            assert forall|j: int| 0 <= j < ps.len() && page_matches(ps[j], q) implies #[trigger] f.contains(j) by {
                if j < n {
                    assert(pre[j] == ps[j]);
                    assert(f0.contains(j));
                    let t = choose|t: int| 0 <= t < f0.len() && f0[t] == j;
                    assert(f[t] == j);
                } else {
                    assert(f[f0.len() as int] == j);
                }
            }
            f
        } else {
            assert forall|j: int| 0 <= j < ps.len() && page_matches(ps[j], q) implies #[trigger] f0.contains(j) by {
                assert(j != n);
                assert(pre[j] == ps[j]);
            }
            f0
        }
    }
}

/// Whether a search for `q` matches a page by its title, its tags or its category, all of
/// them (and `q`) already in lower case: `q` occurs in one of them.
pub open spec fn lowered_matches(title: Seq<char>, tags: Seq<Seq<char>>, category: Option<Seq<char>>, q: Seq<char>) -> bool {
    ||| occurs(title, q)
    ||| exists|k: int| 0 <= k < tags.len() && occurs(#[trigger] tags[k], q)
    ||| (category matches Some(c) && occurs(c, q))
}

/// Whether a search matches a page, given the page's title, tags and category and the
/// query already in lower case (see `lowered_matches`).
pub fn matches_lowered(title: &str, tags: &Vec<String>, category: &Option<String>, query: &str) -> (r: bool)
    ensures
        r == lowered_matches(title@, views_of(tags@), opt_text(*category), query@),
{
    let ql = chars_of(query);
    if occurs_exec(&owned(title), &ql) {
        return true;
    }
    let mut k: usize = 0;
    while k < tags.len()
        invariant
            k <= tags.len(),
            ql@ == query@,
            forall|m: int| 0 <= m < k ==> !occurs(#[trigger] views_of(tags@)[m], query@),
        decreases tags.len() - k,
    {
        if occurs_exec(&tags[k], &ql) {
            proof {
                assert(views_of(tags@)[k as int] == tags@[k as int]@);
            }
            return true;
        }
        proof {
            assert(views_of(tags@)[k as int] == tags@[k as int]@);
        }
        k = k + 1;
    }
    match category {
        Some(c) => occurs_exec(c, &ql),
        None => false,
    }
}

fn page_matches_exec(p: &PageMetadata, ql: &String, Ghost(q): Ghost<Seq<char>>) -> (r: bool)
    requires
        ql@ == lowercase(q),
    ensures
        r == page_matches(p@, q),
{
    let title = to_lower(p.title.as_str());
    let mut tags: Vec<String> = Vec::new();
    let mut k: usize = 0;
    while k < p.tags.len()
        invariant
            k <= p.tags.len(),
            tags.len() == k,
            forall|m: int| 0 <= m < k ==> (#[trigger] tags@[m])@ == lowercase(p.tags@[m]@),
        decreases p.tags.len() - k,
    {
        tags.push(to_lower(p.tags[k].as_str()));
        k = k + 1;
    }
    let category = match &p.category {
        Some(c) => Some(to_lower(c.as_str())),
        None => None,
    };
    let r = matches_lowered(title.as_str(), &tags, &category, ql.as_str());
    proof {
        assert forall|m: int| 0 <= m < tags.len() implies #[trigger] views_of(tags@)[m] == lowercase(p@.tags[m]) by {
            assert(views_of(p.tags@)[m] == p.tags@[m]@);
        }
        if exists|m: int| 0 <= m < p@.tags.len() && occurs(lowercase(#[trigger] p@.tags[m]), ql@) {
            let m = choose|m: int| 0 <= m < p@.tags.len() && occurs(lowercase(#[trigger] p@.tags[m]), ql@);
            assert(occurs(views_of(tags@)[m], ql@));
        }
    }
    r
}

/// The metadata read from a page: its id, its file under `pages/`, its title, its
/// word count and its links; no summary, tags or category, importance 5, and nobody
/// linking to it yet. Its times are `created` and `updated`.
pub open spec fn extracted_page(id: Seq<char>, content: Seq<char>, created: Seq<char>, updated: Seq<char>) -> PageView {
    PageView {
        id,
        path: "pages/"@ + id + ".md"@,
        title: page_title(id, content),
        summary: None,
        tags: Seq::empty(),
        category: None,
        importance: 5,
        created_at: created,
        updated_at: updated,
        word_count: word_count(content) as usize,
        links_to: page_links(content),
        linked_from: Seq::empty(),
    }
}

proof fn lemma_no_tags(ps: Seq<PageView>)
    requires
        forall|i: int| 0 <= i < ps.len() ==> (#[trigger] ps[i]).tags.len() == 0,
    ensures
        all_tags(ps).len() == 0,
    decreases ps.len(),
{
    if ps.len() > 0 {
        lemma_no_tags(ps.drop_last());
    }
}

/// The index of the wiki: reads and updates `WikiIndex` values; the wiki's
/// `index.json` holds them.
pub struct IndexManager {
    fs: std::sync::Arc<WikiFileSystem>,
}

impl IndexManager {
    pub closed spec fn wiki(self) -> WikiFileSystem {
        *self.fs
    }

    /// A manager for the index of the given wiki.
    pub fn new(fs: std::sync::Arc<WikiFileSystem>) -> (r: Self)
        ensures
            r.wiki() == *fs,
    {
        IndexManager { fs }
    }

    /// The file that holds the index.
    pub fn index_file(&self) -> (r: String)
        ensures
            r@ == path_join(path_join(self.wiki().root(), "_meta"@), "index.json"@),
    {
        self.fs.index_path()
    }

    /// An index without pages, of version 1.0.
    pub fn empty_index() -> (r: WikiIndex)
        ensures
            r.version@ == "1.0"@,
            r.pages@.len() == 0,
            r.metadata.total_pages == 0,
            r.metadata.categories@.len() == 0,
            r.metadata.top_tags@.len() == 0,
    {
        WikiIndex {
            version: owned("1.0"),
            pages: Vec::new(),
            metadata: IndexMetadata {
                total_pages: 0,
                last_updated: now_rfc3339(),
                categories: Vec::new(),
                top_tags: Vec::new(),
            },
        }
    }

    /// Brings the summary and each page's `linked_from` up to date with the pages.
    pub fn update_metadata(&self, index: &mut WikiIndex)
        requires
            all_tags(pages_view(old(index).pages@)).len() <= usize::MAX,
        ensures
            index_updated(old(index).version@, pages_view(old(index).pages@), *final(index)),
    {
        let mut pages: Vec<PageMetadata> = Vec::new();
        let mut version = String::new();
        std::mem::swap(&mut pages, &mut index.pages);
        std::mem::swap(&mut version, &mut index.version);
        *index = refresh(version, pages);
    }

    /// Puts `page` into the index in place of any page with its id, at the end, and
    /// updates the summary.
    pub fn add_page(&self, index: &mut WikiIndex, page: PageMetadata)
        requires
            all_tags(without_page(pages_view(old(index).pages@), page.id@).push(page@)).len() <= usize::MAX,
        ensures
            index_updated(
                old(index).version@,
                without_page(pages_view(old(index).pages@), page.id@).push(page@),
                *final(index),
            ),
    {
        let mut pages = pages_without(&index.pages, &page.id);
        let ghost before = pages@;
        pages.push(page);
        proof {
            assert(pages_view(pages@) =~= pages_view(before).push(page@));
        }
        let mut version = String::new();
        std::mem::swap(&mut version, &mut index.version);
        *index = refresh(version, pages);
    }

    /// Takes the pages with the given id out of the index and updates the summary.
    pub fn remove_page(&self, index: &mut WikiIndex, page_id: &str)
        requires
            all_tags(without_page(pages_view(old(index).pages@), page_id@)).len() <= usize::MAX,
        ensures
            index_updated(old(index).version@, without_page(pages_view(old(index).pages@), page_id@), *final(index)),
    {
        let id = owned(page_id);
        let pages = pages_without(&index.pages, &id);
        let mut version = String::new();
        std::mem::swap(&mut version, &mut index.version);
        *index = refresh(version, pages);
    }

    /// The first page of the index with the given id.
    pub fn get_page(&self, index: &WikiIndex, page_id: &str) -> (r: Option<PageMetadata>)
        ensures
            match r {
                Some(p) => page_with_id(pages_view(index.pages@), page_id@, 0) == Some(p@),
                None => page_with_id(pages_view(index.pages@), page_id@, 0) is None,
            },
    {
        let ghost ps = pages_view(index.pages@);
        let id = owned(page_id);
        let mut i: usize = 0;
        while i < index.pages.len()
            invariant
                i <= index.pages.len(),
                ps == pages_view(index.pages@),
                page_with_id(ps, page_id@, 0) == page_with_id(ps, page_id@, i as int),
                id@ == page_id@,
            decreases index.pages.len() - i,
        {
            proof {
                assert(ps[i as int] == index.pages@[i as int]@);
            }
            if same_text(&index.pages[i].id, &id) {
                return Some(index.pages[i].duplicate());
            }
            i = i + 1;
        }
        None
    }

    /// The pages of the index.
    pub fn list_pages(&self, index: &WikiIndex) -> (r: Vec<PageMetadata>)
        ensures
            pages_view(r@) == pages_view(index.pages@),
    {
        let mut r: Vec<PageMetadata> = Vec::new();
        let mut i: usize = 0;
        while i < index.pages.len()
            invariant
                i <= index.pages.len(),
                pages_view(r@) == pages_view(index.pages@).take(i as int),
            decreases index.pages.len() - i,
        {
            let p = index.pages[i].duplicate();
            let ghost before = r@;
            r.push(p);
            proof {
                assert(pages_view(r@) =~= pages_view(before).push(p@));
                assert(pages_view(index.pages@).take(i + 1) =~= pages_view(index.pages@).take(i as int).push(
                    index.pages@[i as int]@,
                ));
            }
            i = i + 1;
        }
        proof {
            assert(pages_view(index.pages@).take(index.pages.len() as int) =~= pages_view(index.pages@));
        }
        r
    }

    /// The pages whose title, a tag or the category holds the query, letter case
    /// aside (see `page_matches`), in index order.
    pub fn search_pages(&self, index: &WikiIndex, query: &str) -> (r: Vec<PageMetadata>)
        ensures
            pages_view(r@) == search_results(pages_view(index.pages@), query@),
    {
        let ghost ps = pages_view(index.pages@);
        let ql = to_lower(query);
        let mut r: Vec<PageMetadata> = Vec::new();
        let mut i: usize = 0;
        while i < index.pages.len()
            invariant
                i <= index.pages.len(),
                ps == pages_view(index.pages@),
                ql@ == lowercase(query@),
                pages_view(r@) == search_results(ps.take(i as int), query@),
            decreases index.pages.len() - i,
        {
            proof {
                assert(ps[i as int] == index.pages@[i as int]@);
                assert(ps.take(i + 1).drop_last() =~= ps.take(i as int));
            }
            if page_matches_exec(&index.pages[i], &ql, Ghost(query@)) {
                let p = index.pages[i].duplicate();
                let ghost before = r@;
                r.push(p);
                proof {
                    assert(pages_view(r@) =~= pages_view(before).push(p@));
                }
            }
            i = i + 1;
        }
        proof {
            assert(ps.take(ps.len() as int) =~= ps);
        }
        r
    }

    /// The metadata read from a page's content (see `extracted_page`); the times are now.
    pub fn extract_metadata(&self, page_id: &str, content: &str) -> (r: Result<PageMetadata, String>)
        ensures
            r matches Ok(p) && p@ == extracted_page(page_id@, content@, p.created_at@, p.updated_at@),
    {
        let title = extract_title(page_id, content);
        let word_count = count_words(content);
        let links_to = extract_links(content);
        let mut path = chars_of("pages/");
        append_chars(&mut path, &chars_of(page_id));
        append_chars(&mut path, &chars_of(".md"));
        let created_at = now_rfc3339();
        let updated_at = now_rfc3339();
        let p = PageMetadata {
            id: owned(page_id),
            path: string_of(&path),
            title,
            summary: None,
            tags: Vec::new(),
            category: None,
            importance: 5,
            created_at,
            updated_at,
            word_count,
            links_to,
            linked_from: Vec::new(),
        };
        proof {
            assert(views_of(p.tags@) =~= Seq::<Seq<char>>::empty());
            assert(views_of(p.linked_from@) =~= Seq::<Seq<char>>::empty());
        }
        Ok(p)
    }

    /// An index of the given pages (id and content each), of version 1.0: each page's
    /// metadata read from its content, then the summary and the links between them.
    pub fn rebuild(&self, pages: &Vec<(String, String)>) -> (r: WikiIndex)
        ensures
            r.version@ == "1.0"@,
            r.pages.len() == pages.len(),
            forall|i: int|
                0 <= i < pages.len() ==> (#[trigger] pages_view(r.pages@)[i]) == (PageView {
                    linked_from: backlinks(pages_view(r.pages@), pages@[i].0@),
                    ..extracted_page(
                        pages@[i].0@,
                        pages@[i].1@,
                        pages_view(r.pages@)[i].created_at,
                        pages_view(r.pages@)[i].updated_at,
                    )
                }),
            summary_ok(pages_view(r.pages@), r.metadata),
    {
        let mut metas: Vec<PageMetadata> = Vec::new();
        let mut i: usize = 0;
        while i < pages.len()
            invariant
                i <= pages.len(),
                metas.len() == i,
                forall|k: int|
                    0 <= k < i ==> (#[trigger] metas@[k])@ == extracted_page(
                        pages@[k].0@,
                        pages@[k].1@,
                        metas@[k].created_at@,
                        metas@[k].updated_at@,
                    ),
            decreases pages.len() - i,
        {
            let m = self.extract_metadata(pages[i].0.as_str(), pages[i].1.as_str());
            match m {
                Ok(p) => metas.push(p),
                Err(_) => {
                    return IndexManager::empty_index();
                },
            }
            i = i + 1;
        }
        let ghost pre = pages_view(metas@);
        proof {
            assert forall|k: int| 0 <= k < pre.len() implies (#[trigger] pre[k]).tags.len() == 0 by {
                assert(pre[k] == metas@[k]@);
            }
            lemma_no_tags(pre);
        }
        let r = refresh(owned("1.0"), metas);
        proof {
            let fv = pages_view(r.pages@);
            assert forall|k: int| #![auto] 0 <= k < pre.len() implies backlinks(fv, pre[k].id) == backlinks(pre, pre[k].id) by {
                lemma_backlinks_same(fv, pre, pre[k].id);
            }
            lemma_backlinks_keep_tags(pre);
            assert forall|c: Seq<char>| #![auto] has_category(fv, c) == has_category(pre, c) by {}
            assert(all_tags(fv) == all_tags(pre));
            assert forall|k: int| 0 <= k < pages.len() implies (#[trigger] pages_view(r.pages@)[k]) == (PageView {
                    linked_from: backlinks(pages_view(r.pages@), pages@[k].0@),
                    ..extracted_page(pages@[k].0@, pages@[k].1@, pages_view(r.pages@)[k].created_at, pages_view(r.pages@)[k].updated_at)
                }) by {
                assert(pre[k] == metas@[k]@);
            }
            assert(categories_ok(fv, views_of(r.metadata.categories@)));
        }
        r
    }
}

proof fn lemma_backlinks_same(a: Seq<PageView>, b: Seq<PageView>, t: Seq<char>)
    requires
        a.len() == b.len(),
        forall|i: int| 0 <= i < a.len() ==> (#[trigger] a[i]).id == b[i].id && a[i].links_to == b[i].links_to,
    ensures
        backlinks(a, t) == backlinks(b, t),
    decreases a.len(),
{
    if a.len() > 0 {
        lemma_backlinks_same(a.drop_last(), b.drop_last(), t);
    }
}


proof fn lemma_without_page_ids(ps: Seq<PageView>, id: Seq<char>)
    ensures
        forall|k: int| 0 <= k < without_page(ps, id).len() ==> (#[trigger] without_page(ps, id)[k]).id != id,
    decreases ps.len(),
{
    if ps.len() > 0 {
        lemma_without_page_ids(ps.drop_last(), id);
        let w0 = without_page(ps.drop_last(), id);
        if ps.last().id != id {
            assert forall|k: int| 0 <= k < w0.push(ps.last()).len() implies (#[trigger] w0.push(ps.last())[k]).id != id by {
                if k < w0.len() {
                    assert(w0.push(ps.last())[k] == w0[k]);
                }
            }
        }
    }
}

proof fn lemma_page_with_id_last(s: Seq<PageView>, id: Seq<char>, i: int)
    requires
        s.len() > 0,
        0 <= i < s.len(),
        s.last().id == id,
        forall|k: int| 0 <= k < s.len() - 1 ==> (#[trigger] s[k]).id != id,
    ensures
        page_with_id(s, id, i) == Some(s.last()),
    decreases s.len() - i,
{
    if i < s.len() - 1 {
        lemma_page_with_id_last(s, id, i + 1);
    }
}

proof fn lemma_page_with_id_none(s: Seq<PageView>, id: Seq<char>, i: int)
    requires
        0 <= i,
        forall|k: int| 0 <= k < s.len() ==> (#[trigger] s[k]).id != id,
    ensures
        page_with_id(s, id, i) is None,
    decreases s.len() - i,
{
    if i < s.len() {
        lemma_page_with_id_none(s, id, i + 1);
    }
}

/// After a page is added, looking its id up gives that page, with the pages that
/// link to it.
pub proof fn lemma_get_after_add(ps: Seq<PageView>, p: PageView)
    ensures
        page_with_id(with_backlinks(without_page(ps, p.id).push(p)), p.id, 0) == Some(
            PageView { linked_from: backlinks(without_page(ps, p.id).push(p), p.id), ..p },
        ),
{
    let w = without_page(ps, p.id).push(p);
    lemma_without_page_ids(ps, p.id);
    let b = with_backlinks(w);
    assert forall|k: int| 0 <= k < b.len() - 1 implies (#[trigger] b[k]).id != p.id by {
        assert(b[k].id == w[k].id);
        assert(w[k] == without_page(ps, p.id)[k]);
    }
    assert(b.last().id == p.id);
    lemma_page_with_id_last(b, p.id, 0);
}

/// After the pages of an id are removed, looking the id up finds nothing.
pub proof fn lemma_get_after_remove(ps: Seq<PageView>, id: Seq<char>)
    ensures
        page_with_id(with_backlinks(without_page(ps, id)), id, 0) is None,
{
    let w = without_page(ps, id);
    lemma_without_page_ids(ps, id);
    let b = with_backlinks(w);
    assert forall|k: int| 0 <= k < b.len() implies (#[trigger] b[k]).id != id by {
        assert(b[k].id == w[k].id);
    }
    lemma_page_with_id_none(b, id, 0);
}


/// The number of tags over all pages, if it fits in a `usize`.
pub fn total_tags(pages: &Vec<PageMetadata>) -> (r: Option<usize>)
    ensures
        match r {
            Some(n) => n == all_tags(pages_view(pages@)).len(),
            None => all_tags(pages_view(pages@)).len() > usize::MAX,
        },
{
    let ghost ps = pages_view(pages@);
    let mut n: usize = 0;
    let mut i: usize = 0;
    while i < pages.len()
        invariant
            i <= pages.len(),
            ps == pages_view(pages@),
            n == all_tags(ps.take(i as int)).len(),
        decreases pages.len() - i,
    {
        proof {
            assert(ps.take(i + 1).drop_last() =~= ps.take(i as int));
            assert(ps[i as int] == pages@[i as int]@);
            assert(all_tags(ps.take(i + 1)).len() == n + pages@[i as int].tags.len());
        }
        let k = pages[i].tags.len();
        if k > usize::MAX - n {
            proof {
                lemma_all_tags_mono(ps, i + 1, ps.len() as int);
                assert(ps.take(ps.len() as int) =~= ps);
            }
            return None;
        }
        n = n + k;
        i = i + 1;
    }
    proof {
        assert(ps.take(ps.len() as int) =~= ps);
    }
    Some(n)
}


/// Setting `linked_from` a second time changes nothing: it depends only on the
/// pages' ids and links, which the first time leaves as they were.
pub proof fn lemma_backlinks_stable(ps: Seq<PageView>)
    ensures
        with_backlinks(with_backlinks(ps)) == with_backlinks(ps),
{
    let once = with_backlinks(ps);
    assert forall|i: int| 0 <= i < once.len() implies (#[trigger] once[i]).id == ps[i].id && once[i].links_to == ps[i].links_to by {}
    assert forall|i: int| 0 <= i < once.len() implies #[trigger] with_backlinks(once)[i] == once[i] by {
        lemma_backlinks_same(once, ps, once[i].id);
    }
    assert(with_backlinks(once) =~= once);
}

} // verus!
