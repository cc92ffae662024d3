use vstd::prelude::*;

verus! {

/// `x` is a value of `i32`.
pub open spec fn fits_i32(x: int) -> bool {
    i32::MIN <= x <= i32::MAX
}

/// The map that an association list stands for: a later entry for a key
/// overrides an earlier one.
pub open spec fn assoc_map<K>(s: Seq<(K, i32)>) -> Map<K, i32>
    decreases s.len(),
{
    if s.len() == 0 {
        Map::empty()
    } else {
        assoc_map(s.drop_last()).insert(s.last().0, s.last().1)
    }
}

/// No key occurs twice in the association list.
pub open spec fn keys_unique<K>(s: Seq<(K, i32)>) -> bool {
    forall|i: int, j: int| 0 <= i < j < s.len() ==> #[trigger] s[i].0 != #[trigger] s[j].0
}

pub proof fn lemma_assoc_push<K>(s: Seq<(K, i32)>, e: (K, i32))
    ensures
        assoc_map(s.push(e)) == assoc_map(s).insert(e.0, e.1),
{
    assert(s.push(e).drop_last() =~= s);
}

pub proof fn lemma_assoc_absent<K>(s: Seq<(K, i32)>, key: K)
    requires
        forall|i: int| 0 <= i < s.len() ==> #[trigger] s[i].0 != key,
    ensures
        !assoc_map(s).contains_key(key),
    decreases s.len(),
{
    if s.len() > 0 {
        assert(s.last().0 == s[s.len() - 1].0);
        lemma_assoc_absent(s.drop_last(), key);
    }
}

pub proof fn lemma_assoc_lookup<K>(s: Seq<(K, i32)>, k: int)
    requires
        keys_unique(s),
        0 <= k < s.len(),
    ensures
        assoc_map(s).contains_key(s[k].0),
        assoc_map(s)[s[k].0] == s[k].1,
    decreases s.len(),
{
    if k < s.len() - 1 {
        assert(s[k].0 != s[s.len() - 1].0);
        lemma_assoc_lookup(s.drop_last(), k);
    }
}

pub proof fn lemma_assoc_update<K>(s: Seq<(K, i32)>, k: int, v: i32)
    requires
        keys_unique(s),
        0 <= k < s.len(),
    ensures
        assoc_map(s.update(k, (s[k].0, v))) == assoc_map(s).insert(s[k].0, v),
        keys_unique(s.update(k, (s[k].0, v))),
    decreases s.len(),
{
    let t = s.update(k, (s[k].0, v));
    if k == s.len() - 1 {
        assert(t.drop_last() =~= s.drop_last());
        assert(assoc_map(t) =~= assoc_map(s).insert(s[k].0, v));
    } else {
        assert(s[k].0 != s[s.len() - 1].0);
        lemma_assoc_update(s.drop_last(), k, v);
        assert(t.drop_last() =~= s.drop_last().update(k, (s[k].0, v)));
        assert(assoc_map(t) =~= assoc_map(s).insert(s[k].0, v));
    }
    assert(keys_unique(t)) by {
        assert forall|i: int, j: int| 0 <= i < j < t.len() implies #[trigger] t[i].0 != #[trigger] t[j].0 by {
            assert(s[i].0 != s[j].0);
        }
    }
}

} // verus!
