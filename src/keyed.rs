//! Association lists keyed by strings: a vector of `(key, value)` pairs in
//! which no key occurs twice, viewed as a finite map.
use vstd::prelude::*;

verus! {

/// No two entries of `s` carry the same key.
pub open spec fn keys_unique<M>(s: Seq<(Seq<char>, M)>) -> bool {
    forall|i: int, j: int|
        0 <= i < s.len() && 0 <= j < s.len() && #[trigger] s[i].0 == #[trigger] s[j].0 ==> i == j
}

/// Some entry of `s` carries the key `k`.
pub open spec fn has_key<M>(s: Seq<(Seq<char>, M)>, k: Seq<char>) -> bool {
    exists|i: int| 0 <= i < s.len() && #[trigger] s[i].0 == k
}

/// The map that an association list stands for.
pub open spec fn to_map<M>(s: Seq<(Seq<char>, M)>) -> Map<Seq<char>, M> {
    Map::new(
        |k: Seq<char>| has_key(s, k),
        |k: Seq<char>| s[choose|i: int| 0 <= i < s.len() && #[trigger] s[i].0 == k].1,
    )
}

pub proof fn lemma_to_map_at<M>(s: Seq<(Seq<char>, M)>, i: int)
    requires
        keys_unique(s),
        0 <= i < s.len(),
    ensures
        to_map(s).contains_key(s[i].0),
        to_map(s)[s[i].0] == s[i].1,
{
    let k = s[i].0;
    assert(has_key(s, k));
    let c = choose|c: int| 0 <= c < s.len() && #[trigger] s[c].0 == k;
    assert(s[c].0 == s[i].0);
}

pub proof fn lemma_to_map_update<M>(s: Seq<(Seq<char>, M)>, i: int, v: M)
    requires
        keys_unique(s),
        0 <= i < s.len(),
    ensures
        keys_unique(s.update(i, (s[i].0, v))),
        to_map(s.update(i, (s[i].0, v))) == to_map(s).insert(s[i].0, v),
{
    let t = s.update(i, (s[i].0, v));
    assert forall|a: int, b: int|
        0 <= a < t.len() && 0 <= b < t.len() && #[trigger] t[a].0 == #[trigger] t[b].0 implies a
            == b by {
        assert(s[a].0 == t[a].0 && s[b].0 == t[b].0);
    }
    assert forall|k: Seq<char>| has_key(t, k) == has_key(s, k) by {
        if has_key(s, k) {
            let c = choose|c: int| 0 <= c < s.len() && #[trigger] s[c].0 == k;
            assert(t[c].0 == k);
        }
        if has_key(t, k) {
            let c = choose|c: int| 0 <= c < t.len() && #[trigger] t[c].0 == k;
            assert(s[c].0 == k);
        }
    }
    assert forall|k: Seq<char>| #[trigger] to_map(t).contains_key(k) implies to_map(t)[k] == to_map(
        s,
    ).insert(s[i].0, v)[k] by {
        let c = choose|c: int| 0 <= c < t.len() && #[trigger] t[c].0 == k;
        lemma_to_map_at(t, c);
        lemma_to_map_at(s, c);
    }
    assert(to_map(t) =~= to_map(s).insert(s[i].0, v));
}

pub proof fn lemma_to_map_push<M>(s: Seq<(Seq<char>, M)>, k: Seq<char>, v: M)
    requires
        keys_unique(s),
        !to_map(s).contains_key(k),
    ensures
        keys_unique(s.push((k, v))),
        to_map(s.push((k, v))) == to_map(s).insert(k, v),
{
    let t = s.push((k, v));
    assert forall|a: int, b: int|
        0 <= a < t.len() && 0 <= b < t.len() && #[trigger] t[a].0 == #[trigger] t[b].0 implies a
            == b by {
        if a < s.len() && b == s.len() {
            assert(s[a].0 == k);
            assert(has_key(s, k));
        }
        if b < s.len() && a == s.len() {
            assert(s[b].0 == k);
            assert(has_key(s, k));
        }
        if a < s.len() && b < s.len() {
            assert(s[a].0 == t[a].0 && s[b].0 == t[b].0);
        }
    }
    assert forall|q: Seq<char>| has_key(t, q) == (has_key(s, q) || q == k) by {
        if has_key(s, q) {
            let c = choose|c: int| 0 <= c < s.len() && #[trigger] s[c].0 == q;
            assert(t[c].0 == q);
        }
        if q == k {
            assert(t[s.len() as int].0 == q);
        }
        if has_key(t, q) && q != k {
            let c = choose|c: int| 0 <= c < t.len() && #[trigger] t[c].0 == q;
            assert(s[c].0 == q);
        }
    }
    assert forall|q: Seq<char>| #[trigger] to_map(t).contains_key(q) implies to_map(t)[q]
        == to_map(s).insert(k, v)[q] by {
        let c = choose|c: int| 0 <= c < t.len() && #[trigger] t[c].0 == q;
        lemma_to_map_at(t, c);
        if c < s.len() {
            lemma_to_map_at(s, c);
        }
    }
    assert(to_map(t) =~= to_map(s).insert(k, v));
}

pub proof fn lemma_to_map_remove<M>(s: Seq<(Seq<char>, M)>, i: int)
    requires
        keys_unique(s),
        0 <= i < s.len(),
    ensures
        keys_unique(s.remove(i)),
        to_map(s.remove(i)) == to_map(s).remove(s[i].0),
{
    let t = s.remove(i);
    let k = s[i].0;
    assert forall|a: int, b: int|
        0 <= a < t.len() && 0 <= b < t.len() && #[trigger] t[a].0 == #[trigger] t[b].0 implies a
            == b by {
        let a2 = if a < i {
            a
        } else {
            a + 1
        };
        let b2 = if b < i {
            b
        } else {
            b + 1
        };
        assert(t[a] == s[a2] && t[b] == s[b2]);
    }
    assert forall|q: Seq<char>| has_key(t, q) == (has_key(s, q) && q != k) by {
        if has_key(s, q) && q != k {
            let c = choose|c: int| 0 <= c < s.len() && #[trigger] s[c].0 == q;
            if c < i {
                assert(t[c].0 == q);
            } else {
                assert(c != i);
                assert(t[c - 1].0 == q);
            }
        }
        if has_key(t, q) {
            let c = choose|c: int| 0 <= c < t.len() && #[trigger] t[c].0 == q;
            let c2 = if c < i {
                c
            } else {
                c + 1
            };
            assert(s[c2].0 == q);
            assert(c2 != i);
        }
    }
    assert forall|q: Seq<char>| #[trigger] to_map(t).contains_key(q) implies to_map(t)[q]
        == to_map(s).remove(k)[q] by {
        let c = choose|c: int| 0 <= c < t.len() && #[trigger] t[c].0 == q;
        lemma_to_map_at(t, c);
        let c2 = if c < i {
            c
        } else {
            c + 1
        };
        assert(t[c] == s[c2]);
        lemma_to_map_at(s, c2);
    }
    assert(to_map(t) =~= to_map(s).remove(k));
}

pub proof fn lemma_to_map_finite<M>(s: Seq<(Seq<char>, M)>)
    requires
        keys_unique(s),
    ensures
        to_map(s).dom().finite(),
        to_map(s).dom().len() == s.len(),
    decreases s.len(),
{
    if s.len() == 0 {
        assert(to_map(s).dom() =~= Set::empty());
    } else {
        let p = s.drop_last();
        let last = s.last();
        assert(keys_unique(p));
        lemma_to_map_finite(p);
        if to_map(p).contains_key(last.0) {
            let c = choose|c: int| 0 <= c < p.len() && #[trigger] p[c].0 == last.0;
            assert(s[c].0 == s[s.len() - 1].0);
        }
        lemma_to_map_push(p, last.0, last.1);
        assert(p.push((last.0, last.1)) =~= s);
    }
}

/// Two lists with the same keys, position by position, whose values are
/// related by `f`, stand for maps related by `f`.
pub proof fn lemma_to_map_values<M>(s: Seq<(Seq<char>, M)>, t: Seq<(Seq<char>, M)>, f: spec_fn(M) -> M)
    requires
        keys_unique(s),
        t.len() == s.len(),
        forall|i: int| 0 <= i < s.len() ==> (#[trigger] t[i]).0 == s[i].0 && t[i].1 == f(s[i].1),
    ensures
        keys_unique(t),
        to_map(t) == to_map(s).map_values(f),
{
    assert forall|a: int, b: int|
        0 <= a < t.len() && 0 <= b < t.len() && #[trigger] t[a].0 == #[trigger] t[b].0 implies a
            == b by {
        assert(s[a].0 == t[a].0 && s[b].0 == t[b].0);
    }
    assert forall|k: Seq<char>| has_key(t, k) == has_key(s, k) by {
        if has_key(s, k) {
            let c = choose|c: int| 0 <= c < s.len() && #[trigger] s[c].0 == k;
            assert(t[c].0 == k);
        }
        if has_key(t, k) {
            let c = choose|c: int| 0 <= c < t.len() && #[trigger] t[c].0 == k;
            assert(s[c].0 == k);
        }
    }
    assert forall|k: Seq<char>| #[trigger] to_map(t).contains_key(k) implies to_map(t)[k] == f(
        to_map(s)[k],
    ) by {
        let c = choose|c: int| 0 <= c < t.len() && #[trigger] t[c].0 == k;
        lemma_to_map_at(t, c);
        lemma_to_map_at(s, c);
    }
    assert(to_map(t) =~= to_map(s).map_values(f));
}

/// Finds the position of `key` among the keys of `entries`.
pub fn find_key<V>(entries: &Vec<(String, V)>, key: &String) -> (r: Option<usize>)
    ensures
        match r {
            Some(i) => i < entries@.len() && entries@[i as int].0@ == key@,
            None => forall|i: int| 0 <= i < entries@.len() ==> (#[trigger] entries@[i]).0@ != key@,
        },
{
    let mut i: usize = 0;
    while i < entries.len()
        invariant
            i <= entries@.len(),
            forall|j: int| 0 <= j < i ==> (#[trigger] entries@[j]).0@ != key@,
        decreases entries@.len() - i,
    {
        if entries[i].0 == *key {
            return Some(i);
        }
        i = i + 1;
    }
    None
}

} // verus!
