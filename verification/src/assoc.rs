//! String-keyed association lists with first-match lookup.
//!
//! The persisted policy maps and the monitor's working maps are plain
//! vectors of `(String, value)` pairs kept free of duplicate keys; their
//! contracts are stated over the `lookup` function below, applied to the
//! deep view of the vector.

use vstd::prelude::*;
use vstd::string::*;
use crate::text;

verus! {

/// The value bound to `k` by the first matching pair, if any.
pub open spec fn lookup<V>(m: Seq<(Seq<char>, V)>, k: Seq<char>) -> Option<V>
    decreases m.len(),
{
    if m.len() == 0 {
        None
    } else if m[0].0 == k {
        Some(m[0].1)
    } else {
        lookup(m.drop_first(), k)
    }
}

pub open spec fn contains_key<V>(m: Seq<(Seq<char>, V)>, k: Seq<char>) -> bool {
    lookup(m, k) is Some
}

/// No two pairs bind the same key.
pub open spec fn distinct_keys<V>(m: Seq<(Seq<char>, V)>) -> bool {
    forall|i: int, j: int| 0 <= i < j < m.len() ==> (#[trigger] m[i]).0 != (#[trigger] m[j]).0
}

/// `m` with the first pair binding `k` removed.
pub open spec fn remove_key<V>(m: Seq<(Seq<char>, V)>, k: Seq<char>) -> Seq<(Seq<char>, V)>
    decreases m.len(),
{
    if m.len() == 0 {
        m
    } else if m[0].0 == k {
        m.drop_first()
    } else {
        seq![m[0]] + remove_key(m.drop_first(), k)
    }
}

/// `m` with `k` bound to `v`: any old binding removed, the new pair at
/// the end.
pub open spec fn set_key<V>(m: Seq<(Seq<char>, V)>, k: Seq<char>, v: V) -> Seq<(Seq<char>, V)> {
    remove_key(m, k).push((k, v))
}

/// Where the first match sits, removal is excision at that index.
pub proof fn lemma_remove_key_at<V>(m: Seq<(Seq<char>, V)>, i: int, k: Seq<char>)
    requires
        0 <= i < m.len(),
        m[i].0 == k,
        forall|j: int| 0 <= j < i ==> (#[trigger] m[j]).0 != k,
    ensures
        remove_key(m, k) == m.take(i) + m.skip(i + 1),
    decreases i,
{
    if i == 0 {
        assert(m.take(0) + m.skip(1) =~= m.drop_first());
    } else {
        assert(m[0].0 != k);
        lemma_remove_key_at(m.drop_first(), i - 1, k);
        assert(m.drop_first().take(i - 1) =~= m.take(i).drop_first());
        assert(m.drop_first().skip(i) =~= m.skip(i + 1));
        assert(seq![m[0]] + (m.take(i).drop_first() + m.skip(i + 1)) =~= m.take(i) + m.skip(
            i + 1,
        ));
    }
}

/// Removing an absent key changes nothing.
pub proof fn lemma_remove_key_absent<V>(m: Seq<(Seq<char>, V)>, k: Seq<char>)
    requires
        forall|j: int| 0 <= j < m.len() ==> (#[trigger] m[j]).0 != k,
    ensures
        remove_key(m, k) == m,
    decreases m.len(),
{
    if m.len() > 0 {
        assert(m[0].0 != k);
        assert(forall|j: int|
            0 <= j < m.drop_first().len() ==> (#[trigger] m.drop_first()[j]).0 == m[j + 1].0);
        lemma_remove_key_absent(m.drop_first(), k);
        assert(seq![m[0]] + m.drop_first() =~= m);
    }
}

/// With distinct keys, removal leaves no pair binding `k`.
pub proof fn lemma_remove_key_clears<V>(m: Seq<(Seq<char>, V)>, k: Seq<char>)
    requires
        distinct_keys(m),
    ensures
        forall|j: int|
            0 <= j < remove_key(m, k).len() ==> (#[trigger] remove_key(m, k)[j]).0 != k,
{
    lemma_lookup_none(m, k);
    if contains_key(m, k) {
        let i = choose|i: int| 0 <= i < m.len() && m[i].0 == k && (forall|j: int|
            0 <= j < i ==> (#[trigger] m[j]).0 != k);
        assert(exists|i: int|
            0 <= i < m.len() && m[i].0 == k && (forall|j: int|
                0 <= j < i ==> (#[trigger] m[j]).0 != k)) by {
            lemma_first_match_exists(m, k);
        }
        let w = choose|w: int|
            0 <= w < m.len() && m[w].0 == k && (forall|j: int|
                0 <= j < w ==> (#[trigger] m[j]).0 != k);
        lemma_remove_key_at(m, w, k);
        let r = m.take(w) + m.skip(w + 1);
        assert forall|j: int| 0 <= j < r.len() implies (#[trigger] r[j]).0 != k by {
            if j < w {
                assert(r[j] == m[j]);
            } else {
                assert(r[j] == m[j + 1]);
                assert(m[j + 1].0 != m[w].0);
            }
        }
    } else {
        lemma_remove_key_absent(m, k);
    }
}

/// A present key has a first match.
proof fn lemma_first_match_exists<V>(m: Seq<(Seq<char>, V)>, k: Seq<char>)
    requires
        contains_key(m, k),
    ensures
        exists|i: int|
            0 <= i < m.len() && (#[trigger] m[i]).0 == k && (forall|j: int|
                0 <= j < i ==> (#[trigger] m[j]).0 != k),
    decreases m.len(),
{
    if m[0].0 == k {
        assert(m[0].0 == k && (forall|j: int| 0 <= j < 0 ==> (#[trigger] m[j]).0 != k));
    } else {
        lemma_first_match_exists(m.drop_first(), k);
        let i = choose|i: int|
            0 <= i < m.drop_first().len() && (#[trigger] m.drop_first()[i]).0 == k && (forall|
                j: int,
            |
                0 <= j < i ==> (#[trigger] m.drop_first()[j]).0 != k);
        assert(m[i + 1].0 == k);
        assert forall|j: int| 0 <= j < i + 1 implies (#[trigger] m[j]).0 != k by {
            if j >= 1 {
                assert(m.drop_first()[j - 1] == m[j]);
            }
        }
    }
}

/// What binding a key reads back as, at the specification level.
pub proof fn lemma_lookup_set_key<V>(m: Seq<(Seq<char>, V)>, k: Seq<char>, v: V)
    requires
        distinct_keys(m),
    ensures
        lookup(set_key(m, k, v), k) == Some(v),
        forall|j: Seq<char>| j != k ==> #[trigger] lookup(set_key(m, k, v), j) == lookup(m, j),
{
    let x = remove_key(m, k);
    lemma_remove_key_clears(m, k);
    assert(x.push((k, v)) =~= x + seq![(k, v)]);
    lemma_lookup_none(x, k);
    lemma_lookup_concat(x, seq![(k, v)], k);
    assert(lookup(seq![(k, v)], k) == Some(v)) by {
        assert(seq![(k, v)][0] == (k, v));
    }
    assert forall|j: Seq<char>| j != k implies #[trigger] lookup(set_key(m, k, v), j) == lookup(
        m,
        j,
    ) by {
        lemma_lookup_concat(x, seq![(k, v)], j);
        assert(lookup(seq![(k, v)], j) is None) by {
            assert(seq![(k, v)][0] == (k, v));
            assert(seq![(k, v)].drop_first() =~= Seq::<(Seq<char>, V)>::empty());
            assert(lookup(Seq::<(Seq<char>, V)>::empty(), j) is None);
        }
        lemma_lookup_remove_other(m, k, j);
    }
}

/// Removing one key leaves every other key's binding alone.
pub proof fn lemma_lookup_remove_other<V>(m: Seq<(Seq<char>, V)>, k: Seq<char>, j: Seq<char>)
    requires
        distinct_keys(m),
        j != k,
    ensures
        lookup(remove_key(m, k), j) == lookup(m, j),
{
    lemma_lookup_none(m, k);
    if contains_key(m, k) {
        lemma_first_match_exists(m, k);
        let w = choose|w: int|
            0 <= w < m.len() && (#[trigger] m[w]).0 == k && (forall|i: int|
                0 <= i < w ==> (#[trigger] m[i]).0 != k);
        lemma_remove_key_at(m, w, k);
        lemma_remove_properties(m, w, k);
    } else {
        lemma_remove_key_absent(m, k);
    }
}

/// Binding the same key to the same value twice is the same as once.
pub proof fn lemma_set_key_idempotent<V>(m: Seq<(Seq<char>, V)>, k: Seq<char>, v: V)
    requires
        distinct_keys(m),
    ensures
        set_key(set_key(m, k, v), k, v) == set_key(m, k, v),
{
    let x = remove_key(m, k);
    lemma_remove_key_clears(m, k);
    lemma_remove_push(x, k, v);
}

/// Removing `k` right after pushing `(k, v)` onto a `k`-free list undoes
/// the push.
proof fn lemma_remove_push<V>(x: Seq<(Seq<char>, V)>, k: Seq<char>, v: V)
    requires
        forall|j: int| 0 <= j < x.len() ==> (#[trigger] x[j]).0 != k,
    ensures
        remove_key(x.push((k, v)), k) == x,
    decreases x.len(),
{
    let p = x.push((k, v));
    if x.len() == 0 {
        assert(p[0].0 == k);
        assert(p.drop_first() =~= x);
    } else {
        assert(p[0].0 != k);
        assert(p.drop_first() =~= x.drop_first().push((k, v)));
        lemma_remove_push(x.drop_first(), k, v);
        assert(seq![x[0]] + x.drop_first() =~= x);
    }
}

/// Lookup in a concatenation tries the left list first.
pub proof fn lemma_lookup_concat<V>(a: Seq<(Seq<char>, V)>, b: Seq<(Seq<char>, V)>, k: Seq<char>)
    ensures
        lookup(a + b, k) == if contains_key(a, k) {
            lookup(a, k)
        } else {
            lookup(b, k)
        },
    decreases a.len(),
{
    if a.len() == 0 {
        assert(a + b =~= b);
    } else {
        assert((a + b).drop_first() =~= a.drop_first() + b);
        lemma_lookup_concat(a.drop_first(), b, k);
    }
}

/// A lookup miss means no pair matches, and conversely.
pub proof fn lemma_lookup_none<V>(m: Seq<(Seq<char>, V)>, k: Seq<char>)
    ensures
        (lookup(m, k) is None) <==> (forall|i: int| 0 <= i < m.len() ==> (#[trigger] m[i]).0 != k),
    decreases m.len(),
{
    if m.len() > 0 {
        lemma_lookup_none(m.drop_first(), k);
        assert(forall|i: int|
            1 <= i < m.len() ==> (#[trigger] m[i]).0 == m.drop_first()[i - 1].0);
    }
}

/// If the first `i` pairs miss `k`, lookup continues past them.
pub proof fn lemma_lookup_skip<V>(m: Seq<(Seq<char>, V)>, i: int, k: Seq<char>)
    requires
        0 <= i <= m.len(),
        forall|j: int| 0 <= j < i ==> (#[trigger] m[j]).0 != k,
    ensures
        lookup(m, k) == lookup(m.skip(i), k),
    decreases i,
{
    if i > 0 {
        assert(m[0].0 != k);
        lemma_lookup_skip(m.drop_first(), i - 1, k);
        assert(m.drop_first().skip(i - 1) =~= m.skip(i));
    } else {
        assert(m.skip(0) =~= m);
    }
}

/// The first value bound to `k`, by reference.
pub fn assoc_get<'a, V: DeepView>(m: &'a Vec<(String, V)>, k: &str) -> (r: Option<&'a V>)
    ensures
        match r {
            Some(v) => lookup(m.deep_view(), k@) == Some(v.deep_view()),
            None => lookup(m.deep_view(), k@) is None,
        },
{
    let ghost dv = m.deep_view();
    let n = m.len();
    proof {
        assert(dv.len() == n);
    }
    let mut i: usize = 0;
    while i < n
        invariant
            n == m@.len(),
            dv == m.deep_view(),
            dv.len() == n,
            i <= n,
            forall|j: int| 0 <= j < i ==> (#[trigger] dv[j]).0 != k@,
        decreases n - i,
    {
        proof {
            assert(dv[i as int] == m@[i as int].deep_view());
        }
        if text::str_eq(m[i].0.as_str(), k) {
            proof {
                lemma_lookup_skip(dv, i as int, k@);
                assert(dv.skip(i as int)[0] == dv[i as int]);
                assert(lookup(dv.skip(i as int), k@) == Some(dv[i as int].1));
            }
            return Some(&m[i].1);
        }
        i = i + 1;
    }
    proof {
        lemma_lookup_skip(dv, n as int, k@);
        assert(dv.skip(n as int) =~= Seq::<(Seq<char>, V::V)>::empty());
    }
    None
}

pub fn assoc_contains<V: DeepView>(m: &Vec<(String, V)>, k: &str) -> (r: bool)
    ensures
        r == contains_key(m.deep_view(), k@),
{
    assoc_get(m, k).is_some()
}

/// Removes the pair bound to `k`, if present.
pub fn assoc_remove<V: DeepView>(m: &mut Vec<(String, V)>, k: &str)
    requires
        distinct_keys(old(m).deep_view()),
    ensures
        distinct_keys(final(m).deep_view()),
        final(m).deep_view() == remove_key(old(m).deep_view(), k@),
        lookup(final(m).deep_view(), k@) is None,
        forall|j: Seq<char>|
            j != k@ ==> #[trigger] lookup(final(m).deep_view(), j) == lookup(
                old(m).deep_view(),
                j,
            ),
{
    let ghost dv = old(m).deep_view();
    let n = m.len();
    let mut i: usize = 0;
    while i < n
        invariant
            n == m@.len(),
            dv == m.deep_view(),
            dv.len() == n,
            *m == *old(m),
            distinct_keys(dv),
            i <= n,
            forall|j: int| 0 <= j < i ==> (#[trigger] dv[j]).0 != k@,
        decreases n - i,
    {
        proof {
            assert(dv[i as int] == m@[i as int].deep_view());
        }
        if text::str_eq(m[i].0.as_str(), k) {
            m.remove(i);
            proof {
                let fv = m.deep_view();
                assert(fv =~= dv.take(i as int) + dv.skip(i + 1)) by {
                    assert(fv.len() == dv.len() - 1);
                    assert(forall|a: int|
                        0 <= a < fv.len() ==> #[trigger] fv[a] == m@[a].deep_view());
                    assert(forall|a: int|
                        0 <= a < i ==> #[trigger] m@[a] == old(m)@[a]);
                    assert(forall|a: int|
                        i <= a < fv.len() ==> #[trigger] m@[a] == old(m)@[a + 1]);
                }
                lemma_remove_properties(dv, i as int, k@);
                lemma_remove_key_at(dv, i as int, k@);
            }
            return ;
        }
        i = i + 1;
    }
    proof {
        lemma_lookup_skip(dv, n as int, k@);
        assert(dv.skip(n as int) =~= Seq::<(Seq<char>, V::V)>::empty());
        lemma_remove_key_absent(dv, k@);
    }
}

/// What removing the (unique) match at index `i` does to every lookup.
proof fn lemma_remove_properties<V>(m: Seq<(Seq<char>, V)>, i: int, k: Seq<char>)
    requires
        distinct_keys(m),
        0 <= i < m.len(),
        m[i].0 == k,
        forall|j: int| 0 <= j < i ==> (#[trigger] m[j]).0 != k,
    ensures
        distinct_keys(m.take(i) + m.skip(i + 1)),
        lookup(m.take(i) + m.skip(i + 1), k) is None,
        forall|j: Seq<char>|
            j != k ==> #[trigger] lookup(m.take(i) + m.skip(i + 1), j) == lookup(m, j),
{
    let r = m.take(i) + m.skip(i + 1);
    assert(forall|a: int| 0 <= a < i ==> #[trigger] r[a] == m[a]);
    assert(forall|a: int| i <= a < r.len() ==> #[trigger] r[a] == m[a + 1]);
    assert(distinct_keys(r));
    // the removed key is gone
    lemma_lookup_none(r, k);
    assert forall|a: int| 0 <= a < r.len() implies (#[trigger] r[a]).0 != k by {
        if a < i {
            assert(r[a] == m[a]);
        } else {
            assert(r[a] == m[a + 1]);
            assert(m[a + 1].0 != m[i].0);
        }
    }
    // every other key resolves as before
    assert forall|j: Seq<char>| j != k implies #[trigger] lookup(r, j) == lookup(m, j) by {
        lemma_lookup_concat(m.take(i), m.skip(i + 1), j);
        lemma_lookup_concat(m.take(i), m.skip(i), j);
        assert(m =~= m.take(i) + m.skip(i));
        assert(m.skip(i).drop_first() =~= m.skip(i + 1));
        assert(m.skip(i)[0] == m[i]);
        assert(lookup(m.skip(i), j) == lookup(m.skip(i + 1), j));
    }
}

/// Binds `k` to `v`, replacing any existing binding.
pub fn assoc_set<V: DeepView>(m: &mut Vec<(String, V)>, k: &str, v: V)
    requires
        distinct_keys(old(m).deep_view()),
    ensures
        distinct_keys(final(m).deep_view()),
        final(m).deep_view() == set_key(old(m).deep_view(), k@, v.deep_view()),
        lookup(final(m).deep_view(), k@) == Some(v.deep_view()),
        forall|j: Seq<char>|
            j != k@ ==> #[trigger] lookup(final(m).deep_view(), j) == lookup(
                old(m).deep_view(),
                j,
            ),
{
    assoc_remove(m, k);
    let ghost mid = m.deep_view();
    let pair = (k.to_owned(), v);
    proof {
        assert(pair.deep_view() == (k@, v.deep_view()));
    }
    m.push(pair);
    proof {
        let fv = m.deep_view();
        assert(fv =~= mid + seq![(k@, v.deep_view())]) by {
            assert(fv.len() == mid.len() + 1);
            assert(forall|a: int| 0 <= a < fv.len() ==> #[trigger] fv[a] == m@[a].deep_view());
            assert(forall|a: int| 0 <= a < mid.len() ==> #[trigger] fv[a] == mid[a]);
        }
        lemma_lookup_none(mid, k@);
        assert(distinct_keys(fv)) by {
            assert(forall|a: int| 0 <= a < mid.len() ==> #[trigger] fv[a] == mid[a]);
            assert(fv[mid.len() as int].0 == k@);
        }
        assert forall|j: Seq<char>| true implies #[trigger] lookup(fv, j) == (if j == k@ {
            Some(v.deep_view())
        } else {
            lookup(mid, j)
        }) by {
            lemma_lookup_concat(mid, seq![(k@, v.deep_view())], j);
            assert(lookup(seq![(k@, v.deep_view())], j) == (if j == k@ {
                Some(v.deep_view())
            } else {
                None::<V::V>
            })) by {
                let single = seq![(k@, v.deep_view())];
                assert(single[0] == (k@, v.deep_view()));
                assert(single.drop_first() =~= Seq::<(Seq<char>, V::V)>::empty());
                assert(lookup(Seq::<(Seq<char>, V::V)>::empty(), j) is None);
            }
            if j == k@ {
                lemma_lookup_none(mid, k@);
            }
        }
    }
}

/// Membership in a vector of strings, by characters.
pub fn set_contains(s: &Vec<String>, k: &str) -> (r: bool)
    ensures
        r == s.deep_view().contains(k@),
{
    let ghost dv = s.deep_view();
    let n = s.len();
    let mut i: usize = 0;
    while i < n
        invariant
            n == s@.len(),
            dv == s.deep_view(),
            dv.len() == n,
            i <= n,
            forall|j: int| 0 <= j < i ==> dv[j] != k@,
        decreases n - i,
    {
        proof {
            assert(dv[i as int] == s@[i as int]@);
        }
        if text::str_eq(s[i].as_str(), k) {
            return true;
        }
        i = i + 1;
    }
    proof {
        assert(!dv.contains(k@)) by {
            assert(forall|j: int| 0 <= j < dv.len() ==> dv[j] != k@);
        }
    }
    false
}

/// A set insert at the sequence level: already-present values change
/// nothing, new values go at the end.
pub open spec fn insert_name(s: Seq<Seq<char>>, n: Seq<char>) -> Seq<Seq<char>> {
    if s.contains(n) {
        s
    } else {
        s.push(n)
    }
}

/// Adds `k` if it is not already there.
pub fn set_insert(s: &mut Vec<String>, k: &str)
    requires
        old(s).deep_view().no_duplicates(),
    ensures
        final(s).deep_view().no_duplicates(),
        final(s).deep_view() == insert_name(old(s).deep_view(), k@),
        final(s).deep_view().contains(k@),
        forall|j: Seq<char>|
            j != k@ ==> #[trigger] final(s).deep_view().contains(j) == old(s).deep_view().contains(
                j,
            ),
{
    let ghost dv = old(s).deep_view();
    if !set_contains(s, k) {
        s.push(k.to_owned());
        proof {
            let fv = s.deep_view();
            assert(fv =~= dv.push(k@)) by {
                assert(fv.len() == dv.len() + 1);
                assert(forall|a: int| 0 <= a < fv.len() ==> #[trigger] fv[a] == s@[a]@);
                assert(forall|a: int| 0 <= a < dv.len() ==> #[trigger] fv[a] == dv[a]);
            }
            assert(fv[dv.len() as int] == k@);
            assert forall|j: Seq<char>| j != k@ implies #[trigger] fv.contains(j) == dv.contains(
                j,
            ) by {
                if dv.contains(j) {
                    let w = choose|w: int| 0 <= w < dv.len() && dv[w] == j;
                    assert(fv[w] == j);
                }
                if fv.contains(j) {
                    let w = choose|w: int| 0 <= w < fv.len() && fv[w] == j;
                    assert(w < dv.len());
                    assert(dv[w] == j);
                }
            }
        }
    }
}

/// Removes `k` if it is there.
pub fn set_remove(s: &mut Vec<String>, k: &str)
    requires
        old(s).deep_view().no_duplicates(),
    ensures
        final(s).deep_view().no_duplicates(),
        !final(s).deep_view().contains(k@),
        forall|j: Seq<char>|
            j != k@ ==> #[trigger] final(s).deep_view().contains(j) == old(s).deep_view().contains(
                j,
            ),
{
    let ghost dv = old(s).deep_view();
    let n = s.len();
    let mut i: usize = 0;
    while i < n
        invariant
            n == s@.len(),
            dv == s.deep_view(),
            dv.len() == n,
            *s == *old(s),
            dv.no_duplicates(),
            i <= n,
            forall|j: int| 0 <= j < i ==> dv[j] != k@,
        decreases n - i,
    {
        proof {
            assert(dv[i as int] == s@[i as int]@);
        }
        if text::str_eq(s[i].as_str(), k) {
            s.remove(i);
            proof {
                let fv = s.deep_view();
                assert(fv =~= dv.take(i as int) + dv.skip(i + 1)) by {
                    assert(fv.len() == dv.len() - 1);
                    assert(forall|a: int| 0 <= a < fv.len() ==> #[trigger] fv[a] == s@[a]@);
                    assert(forall|a: int| 0 <= a < i ==> #[trigger] s@[a] == old(s)@[a]);
                    assert(forall|a: int|
                        i <= a < fv.len() ==> #[trigger] s@[a] == old(s)@[a + 1]);
                }
                assert(forall|a: int| 0 <= a < i ==> #[trigger] fv[a] == dv[a]);
                assert(forall|a: int| i <= a < fv.len() ==> #[trigger] fv[a] == dv[a + 1]);
                assert(fv.no_duplicates());
                assert(!fv.contains(k@)) by {
                    assert forall|a: int| 0 <= a < fv.len() implies fv[a] != k@ by {
                        if a >= i {
                            assert(dv[a + 1] != dv[i as int]);
                        }
                    }
                }
                assert forall|j: Seq<char>| j != k@ implies #[trigger] fv.contains(j)
                    == dv.contains(j) by {
                    if dv.contains(j) {
                        let w = choose|w: int| 0 <= w < dv.len() && dv[w] == j;
                        if w < i {
                            assert(fv[w] == j);
                        } else {
                            assert(w != i);
                            assert(fv[w - 1] == j);
                        }
                    }
                    if fv.contains(j) {
                        let w = choose|w: int| 0 <= w < fv.len() && fv[w] == j;
                        if w < i {
                            assert(dv[w] == j);
                        } else {
                            assert(dv[w + 1] == j);
                        }
                    }
                }
            }
            return ;
        }
        i = i + 1;
    }
    proof {
        assert(forall|j: int| 0 <= j < dv.len() ==> dv[j] != k@);
    }
}

/// A copy of a vector of strings, character for character.
pub fn clone_strings(v: &Vec<String>) -> (r: Vec<String>)
    ensures
        r@ == v@,
{
    let mut r: Vec<String> = Vec::new();
    let n = v.len();
    let mut i: usize = 0;
    while i < n
        invariant
            n == v@.len(),
            i <= n,
            r@ == v@.take(i as int),
        decreases n - i,
    {
        r.push(v[i].clone());
        proof {
            assert(v@.take(i + 1) =~= v@.take(i as int).push(v@[i as int]));
        }
        i = i + 1;
    }
    proof {
        assert(v@.take(n as int) =~= v@);
    }
    r
}

/// A copy of a vector of string pairs.
pub fn clone_string_pairs(v: &Vec<(String, String)>) -> (r: Vec<(String, String)>)
    ensures
        r@ == v@,
{
    let mut r: Vec<(String, String)> = Vec::new();
    let n = v.len();
    let mut i: usize = 0;
    while i < n
        invariant
            n == v@.len(),
            i <= n,
            r@ == v@.take(i as int),
        decreases n - i,
    {
        r.push((v[i].0.clone(), v[i].1.clone()));
        proof {
            assert(v@.take(i + 1) =~= v@.take(i as int).push(v@[i as int]));
        }
        i = i + 1;
    }
    proof {
        assert(v@.take(n as int) =~= v@);
    }
    r
}

/// A copy of a vector of string-to-u32 pairs.
pub fn clone_u32_pairs(v: &Vec<(String, u32)>) -> (r: Vec<(String, u32)>)
    ensures
        r@ == v@,
{
    let mut r: Vec<(String, u32)> = Vec::new();
    let n = v.len();
    let mut i: usize = 0;
    while i < n
        invariant
            n == v@.len(),
            i <= n,
            r@ == v@.take(i as int),
        decreases n - i,
    {
        r.push((v[i].0.clone(), v[i].1));
        proof {
            assert(v@.take(i + 1) =~= v@.take(i as int).push(v@[i as int]));
        }
        i = i + 1;
    }
    proof {
        assert(v@.take(n as int) =~= v@);
    }
    r
}

/// A copy of a vector of string-to-u64 pairs.
pub fn clone_u64_pairs(v: &Vec<(String, u64)>) -> (r: Vec<(String, u64)>)
    ensures
        r@ == v@,
{
    let mut r: Vec<(String, u64)> = Vec::new();
    let n = v.len();
    let mut i: usize = 0;
    while i < n
        invariant
            n == v@.len(),
            i <= n,
            r@ == v@.take(i as int),
        decreases n - i,
    {
        r.push((v[i].0.clone(), v[i].1));
        proof {
            assert(v@.take(i + 1) =~= v@.take(i as int).push(v@[i as int]));
        }
        i = i + 1;
    }
    proof {
        assert(v@.take(n as int) =~= v@);
    }
    r
}

} // verus!
