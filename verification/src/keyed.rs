use vstd::prelude::*;

verus! {

/// No key occurs twice.
pub open spec fn unique_keys<V>(s: Seq<(Seq<char>, V)>) -> bool {
    forall|i: int, j: int| 0 <= i < s.len() && 0 <= j < s.len() && i != j ==> #[trigger] s[i].0 != #[trigger] s[j].0
}

/// The map that a list of keyed entries stands for.
pub open spec fn kmap<V>(s: Seq<(Seq<char>, V)>) -> Map<Seq<char>, V>
    decreases s.len(),
{
    if s.len() == 0 {
        Map::empty()
    } else {
        kmap(s.drop_last()).insert(s.last().0, s.last().1)
    }
}

pub proof fn lemma_kmap_dom<V>(s: Seq<(Seq<char>, V)>, k: Seq<char>)
    ensures
        kmap(s).dom().contains(k) <==> exists|i: int| 0 <= i < s.len() && #[trigger] s[i].0 == k,
        kmap(s).dom().finite(),
    decreases s.len(),
{
    if s.len() > 0 {
        lemma_kmap_dom(s.drop_last(), k);
        if kmap(s.drop_last()).dom().contains(k) {
            let i = choose|i: int| 0 <= i < s.drop_last().len() && #[trigger] s.drop_last()[i].0 == k;
            assert(s[i].0 == k);
        }
        if exists|i: int| 0 <= i < s.len() && #[trigger] s[i].0 == k {
            let i = choose|i: int| 0 <= i < s.len() && #[trigger] s[i].0 == k;
            if i < s.len() - 1 {
                assert(s.drop_last()[i].0 == k);
            }
        }
    }
}

pub proof fn lemma_kmap_at<V>(s: Seq<(Seq<char>, V)>, i: int)
    requires
        unique_keys(s),
        0 <= i < s.len(),
    ensures
        kmap(s).dom().contains(s[i].0),
        kmap(s)[s[i].0] == s[i].1,
    decreases s.len(),
{
    lemma_kmap_dom(s, s[i].0);
    if i < s.len() - 1 {
        let p = s.drop_last();
        assert(unique_keys(p)) by {
            assert forall|a: int, b: int| 0 <= a < p.len() && 0 <= b < p.len() && a != b implies #[trigger] p[a].0 != #[trigger] p[b].0 by {
                assert(p[a] == s[a]);
                assert(p[b] == s[b]);
            }
        }
        assert(p[i] == s[i]);
        lemma_kmap_at(p, i);
        assert(s[i].0 != s[s.len() - 1].0);
    }
}

pub proof fn lemma_unique_prefix<V>(s: Seq<(Seq<char>, V)>)
    requires
        unique_keys(s),
        s.len() > 0,
    ensures
        unique_keys(s.drop_last()),
{
    let p = s.drop_last();
    assert forall|a: int, b: int| 0 <= a < p.len() && 0 <= b < p.len() && a != b implies #[trigger] p[a].0 != #[trigger] p[b].0 by {
        assert(p[a] == s[a]);
        assert(p[b] == s[b]);
    }
}

pub proof fn lemma_kmap_update<V>(s: Seq<(Seq<char>, V)>, i: int, v: V)
    requires
        unique_keys(s),
        0 <= i < s.len(),
    ensures
        unique_keys(s.update(i, (s[i].0, v))),
        kmap(s.update(i, (s[i].0, v))) == kmap(s).insert(s[i].0, v),
    decreases s.len(),
{
    let u = s.update(i, (s[i].0, v));
    assert forall|a: int, b: int| 0 <= a < u.len() && 0 <= b < u.len() && a != b implies #[trigger] u[a].0 != #[trigger] u[b].0 by {
        assert(u[a].0 == s[a].0);
        assert(u[b].0 == s[b].0);
    }
    if i == s.len() - 1 {
        assert(u.drop_last() =~= s.drop_last());
        lemma_unique_prefix(s);
        lemma_kmap_dom(s.drop_last(), s[i].0);
        assert(kmap(u) =~= kmap(s).insert(s[i].0, v));
    } else {
        lemma_unique_prefix(s);
        assert(u.drop_last() =~= s.drop_last().update(i, (s[i].0, v)));
        lemma_kmap_update(s.drop_last(), i, v);
        assert(s.last().0 != s[i].0);
        assert(kmap(u) =~= kmap(s).insert(s[i].0, v));
    }
}

pub proof fn lemma_kmap_push<V>(s: Seq<(Seq<char>, V)>, k: Seq<char>, v: V)
    requires
        unique_keys(s),
        !kmap(s).dom().contains(k),
    ensures
        unique_keys(s.push((k, v))),
        kmap(s.push((k, v))) == kmap(s).insert(k, v),
{
    lemma_kmap_dom(s, k);
    let u = s.push((k, v));
    assert forall|a: int, b: int| 0 <= a < u.len() && 0 <= b < u.len() && a != b implies #[trigger] u[a].0 != #[trigger] u[b].0 by {
        if a == s.len() {
            assert(u[b] == s[b]);
        } else if b == s.len() {
            assert(u[a] == s[a]);
        } else {
            assert(u[a] == s[a]);
            assert(u[b] == s[b]);
        }
    }
    assert(u.drop_last() =~= s);
}

pub proof fn lemma_kmap_remove<V>(s: Seq<(Seq<char>, V)>, i: int)
    requires
        unique_keys(s),
        0 <= i < s.len(),
    ensures
        unique_keys(s.remove(i)),
        kmap(s.remove(i)) == kmap(s).remove(s[i].0),
    decreases s.len(),
{
    let u = s.remove(i);
    assert forall|a: int, b: int| 0 <= a < u.len() && 0 <= b < u.len() && a != b implies #[trigger] u[a].0 != #[trigger] u[b].0 by {
        let a2 = if a < i { a } else { a + 1 };
        let b2 = if b < i { b } else { b + 1 };
        assert(u[a] == s[a2]);
        assert(u[b] == s[b2]);
    }
    lemma_unique_prefix(s);
    if i == s.len() - 1 {
        assert(u =~= s.drop_last());
        lemma_kmap_dom(s.drop_last(), s[i].0);
        assert(kmap(u) =~= kmap(s).remove(s[i].0));
    } else {
        assert(u.drop_last() =~= s.drop_last().remove(i));
        assert(u.last() == s.last());
        lemma_kmap_remove(s.drop_last(), i);
        assert(s.last().0 != s[i].0);
        assert(kmap(u) =~= kmap(s).remove(s[i].0));
    }
}

pub proof fn lemma_kmap_len<V>(s: Seq<(Seq<char>, V)>)
    requires
        unique_keys(s),
    ensures
        kmap(s).dom().len() == s.len(),
    decreases s.len(),
{
    if s.len() > 0 {
        lemma_unique_prefix(s);
        lemma_kmap_len(s.drop_last());
        lemma_kmap_dom(s.drop_last(), s.last().0);
        assert forall|i: int| 0 <= i < s.drop_last().len() implies #[trigger] s.drop_last()[i].0 != s.last().0 by {
            assert(s.drop_last()[i] == s[i]);
        }
    }
}

} // verus!
