use vstd::prelude::*;

verus! {

/// The map that results from inserting the pairs of `s` in order into an empty map:
/// where a key occurs twice, the later pair wins.
pub open spec fn map_of<K, V>(s: Seq<(K, V)>) -> Map<K, V>
    decreases s.len(),
{
    if s.len() == 0 {
        Map::empty()
    } else {
        map_of(s.drop_last()).insert(s.last().0, s.last().1)
    }
}

/// Whether `i` is the last position of `s` whose key is `k`.
pub open spec fn last_with_key<K, V>(s: Seq<(K, V)>, k: K, i: int) -> bool {
    &&& 0 <= i < s.len()
    &&& s[i].0 == k
    &&& forall|j: int| i < j < s.len() ==> (#[trigger] s[j]).0 != k
}

/// A key is in `map_of(s)` exactly when some pair of `s` has it, and its value is that
/// of the last such pair.
pub proof fn lemma_map_of<K, V>(s: Seq<(K, V)>, k: K)
    ensures
        map_of(s).contains_key(k) <==> exists|i: int| 0 <= i < s.len() && (#[trigger] s[i]).0 == k,
        forall|i: int| last_with_key(s, k, i) ==> map_of(s)[k] == s[i].1,
    decreases s.len(),
{
    if s.len() > 0 {
        let t = s.drop_last();
        lemma_map_of(t, k);
        let n = s.len() - 1;
        if s[n].0 != k {
            assert forall|i: int| last_with_key(s, k, i) implies last_with_key(t, k, i) by {
                assert forall|j: int| i < j < t.len() implies (#[trigger] t[j]).0 != k by {
                    assert(t[j] == s[j]);
                }
            }
            if map_of(s).contains_key(k) {
                let i = choose|i: int| 0 <= i < t.len() && (#[trigger] t[i]).0 == k;
                assert(s[i] == t[i]);
            }
            if exists|i: int| 0 <= i < s.len() && (#[trigger] s[i]).0 == k {
                let i = choose|i: int| 0 <= i < s.len() && (#[trigger] s[i]).0 == k;
                assert(t[i] == s[i]);
            }
        } else {
            assert(s[n].0 == k);
        }
    }
}

/// Offsets strictly ascending, so each occurs once.
pub open spec fn ascending<V>(s: Seq<(u64, V)>) -> bool {
    forall|i: int, j: int| 0 <= i < j < s.len() ==> (#[trigger] s[i]).0 < (#[trigger] s[j]).0
}

/// In an ascending sequence a key's value is that of the one pair that has it.
pub proof fn lemma_map_of_ascending<V>(s: Seq<(u64, V)>, k: u64)
    requires
        ascending(s),
    ensures
        map_of(s).contains_key(k) <==> exists|i: int| 0 <= i < s.len() && (#[trigger] s[i]).0 == k,
        forall|i: int| 0 <= i < s.len() && (#[trigger] s[i]).0 == k ==> map_of(s)[k] == s[i].1,
{
    lemma_map_of(s, k);
    assert forall|i: int| 0 <= i < s.len() && (#[trigger] s[i]).0 == k implies last_with_key(
        s,
        k,
        i,
    ) by {
        assert forall|j: int| i < j < s.len() implies (#[trigger] s[j]).0 != k by {
            assert(s[i].0 < s[j].0);
        }
    }
}

/// Dropping the pair with the largest key removes that key from the map.
pub proof fn lemma_map_of_drop_last<V>(s: Seq<(u64, V)>)
    requires
        ascending(s),
        s.len() > 0,
    ensures
        map_of(s.drop_last()) == map_of(s).remove(s.last().0),
{
    let t = s.drop_last();
    let k = s.last().0;
    assert(ascending(t));
    lemma_map_of_ascending(t, k);
    if map_of(t).contains_key(k) {
        let j = choose|j: int| 0 <= j < t.len() && (#[trigger] t[j]).0 == k;
        assert(s[j].0 < s[s.len() - 1].0);
    }
    assert(map_of(t) =~= map_of(s).remove(k));
}

/// An ascending sequence is determined by the map it gives.
pub proof fn lemma_ascending_unique<V>(s: Seq<(u64, V)>, t: Seq<(u64, V)>)
    requires
        ascending(s),
        ascending(t),
        map_of(s) == map_of(t),
    ensures
        s == t,
    decreases s.len() + t.len(),
{
    if s.len() == 0 || t.len() == 0 {
        if s.len() > 0 {
            lemma_map_of_ascending(s, s[0].0);
            assert(map_of(s).contains_key(s[0].0));
            assert(map_of(t) =~= Map::empty());
        } else if t.len() > 0 {
            lemma_map_of_ascending(t, t[0].0);
            assert(map_of(t).contains_key(t[0].0));
            assert(map_of(s) =~= Map::empty());
        }
        assert(s =~= t);
    } else {
        let ks = s.last().0;
        let kt = t.last().0;
        lemma_map_of_ascending(s, ks);
        lemma_map_of_ascending(t, ks);
        lemma_map_of_ascending(s, kt);
        lemma_map_of_ascending(t, kt);
        assert(map_of(s).contains_key(ks));
        let j = choose|j: int| 0 <= j < t.len() && (#[trigger] t[j]).0 == ks;
        if j < t.len() - 1 {
            assert(t[j].0 < t[t.len() - 1].0);
        }
        assert(map_of(t).contains_key(kt));
        let j2 = choose|j: int| 0 <= j < s.len() && (#[trigger] s[j]).0 == kt;
        if j2 < s.len() - 1 {
            assert(s[j2].0 < s[s.len() - 1].0);
        }
        assert(ks == kt);
        assert(s.last() == t.last());
        lemma_map_of_drop_last(s);
        lemma_map_of_drop_last(t);
        lemma_ascending_unique(s.drop_last(), t.drop_last());
        assert(s =~= s.drop_last().push(s.last()));
        assert(t =~= t.drop_last().push(t.last()));
    }
}

/// Inserts `(k, w)` into the ascending `v`, replacing the pair with key `k` if there is one.
pub fn insert_ascending(v: &mut Vec<(u64, u32)>, k: u64, w: u32)
    requires
        ascending(old(v)@),
    ensures
        ascending(final(v)@),
        map_of(final(v)@) == map_of(old(v)@).insert(k, w),
{
    let ghost s = v@;
    let mut i: usize = 0;
    while i < v.len() && v[i].0 < k
        invariant
            v@ == s,
            0 <= i <= v.len(),
            forall|j: int| 0 <= j < i ==> (#[trigger] s[j]).0 < k,
        decreases v.len() - i,
    {
        i = i + 1;
    }
    if i < v.len() && v[i].0 == k {
        v.set(i, (k, w));
    } else {
        v.insert(i, (k, w));
    }
    let ghost t = v@;
    assert(ascending(t)) by {
        assert forall|a: int, b: int| 0 <= a < b < t.len() implies (#[trigger] t[a]).0 < (
        #[trigger] t[b]).0 by {
            if a < i && b > i && t.len() > s.len() {
                assert(t[b] == s[b - 1]);
                assert(i < s.len() ==> s[i as int].0 > k);
                if i < b - 1 {
                    assert(s[i as int].0 < s[b - 1].0);
                }
            } else if t.len() > s.len() && a == i && b > i {
                assert(t[b] == s[b - 1]);
                if i < b - 1 {
                    assert(s[i as int].0 < s[b - 1].0);
                }
            } else if t.len() > s.len() && a > i {
                assert(t[a] == s[a - 1] && t[b] == s[b - 1]);
            }
        }
    }
    assert forall|key: u64| #![trigger map_of(t).contains_key(key)]
        map_of(t).contains_key(key) == map_of(s).insert(k, w).contains_key(key) && (
        map_of(t).contains_key(key) ==> map_of(t)[key] == map_of(s).insert(k, w)[key]) by {
        lemma_map_of_ascending(s, key);
        lemma_map_of_ascending(t, key);
        if key != k {
            if map_of(s).contains_key(key) {
                let j = choose|j: int| 0 <= j < s.len() && (#[trigger] s[j]).0 == key;
                let j2 = if t.len() > s.len() && j >= i { j + 1 } else { j };
                assert(t[j2] == s[j]);
            }
            if map_of(t).contains_key(key) {
                let j = choose|j: int| 0 <= j < t.len() && (#[trigger] t[j]).0 == key;
                let j2 = if t.len() > s.len() && j > i { j - 1 } else { j };
                assert(t[j] == s[j2]);
            }
        } else {
            assert(t[i as int].0 == k);
        }
    }
    assert(map_of(t) =~= map_of(s).insert(k, w));
}

/// The value of the last pair of `v` with key `k`, or zero where none has it.
pub fn lookup_or_zero(v: &Vec<((u64, u64), u128)>, k: (u64, u64)) -> (r: u128)
    ensures
        r == (if map_of(v@).contains_key(k) {
            map_of(v@)[k]
        } else {
            0
        }),
{
    proof {
        lemma_map_of(v@, k);
    }
    let mut j: usize = v.len();
    while j > 0
        invariant
            0 <= j <= v.len(),
            forall|i: int| j <= i < v.len() ==> (#[trigger] v@[i]).0 != k,
        decreases j,
    {
        let e = &v[j - 1];
        if e.0.0 == k.0 && e.0.1 == k.1 {
            proof {
                let i = j - 1;
                lemma_map_of(v@, k);
                assert(v@[i].0 == k);
                assert(last_with_key(v@, k, i));
            }
            return e.1;
        }
        j = j - 1;
    }
    0
}

} // verus!
