//! Association lists kept in key order: the model of an ordered map, and the
//! facts about it that insertion and lookup rest on.

use vstd::prelude::*;

verus! {

/// The list `s` with `k` bound to `v`, placed before the first larger key.
pub open spec fn assoc_insert<K, V>(
    s: Seq<(K, V)>,
    k: K,
    v: V,
    less: spec_fn(K, K) -> bool,
) -> Seq<(K, V)>
    decreases s.len(),
{
    if s.len() == 0 {
        seq![(k, v)]
    } else if s[0].0 == k {
        seq![(k, v)] + s.drop_first()
    } else if less(k, s[0].0) {
        seq![(k, v)] + s
    } else {
        seq![s[0]] + assoc_insert(s.drop_first(), k, v, less)
    }
}

/// The value bound to `k`, if there is one.
pub open spec fn assoc_get<K, V>(s: Seq<(K, V)>, k: K) -> Option<V>
    decreases s.len(),
{
    if s.len() == 0 {
        None
    } else if s[0].0 == k {
        Some(s[0].1)
    } else {
        assoc_get(s.drop_first(), k)
    }
}

/// The list `s` without the binding of `k`.
pub open spec fn assoc_remove<K, V>(s: Seq<(K, V)>, k: K) -> Seq<(K, V)>
    decreases s.len(),
{
    if s.len() == 0 {
        s
    } else if s[0].0 == k {
        s.drop_first()
    } else {
        seq![s[0]] + assoc_remove(s.drop_first(), k)
    }
}

/// Whether the keys of `s` are in strictly increasing order.
pub open spec fn assoc_sorted<K, V>(s: Seq<(K, V)>, less: spec_fn(K, K) -> bool) -> bool {
    forall|i: int, j: int| #![trigger s[i], s[j]] 0 <= i < j < s.len() ==> less(s[i].0, s[j].0)
}

/// Whether `less` is a strict total order.
pub open spec fn strict_order<K>(less: spec_fn(K, K) -> bool) -> bool {
    &&& forall|a: K, b: K| #[trigger] less(a, b) ==> a != b && !less(b, a)
    &&& forall|a: K, b: K, c: K| #[trigger] less(a, b) && #[trigger] less(b, c) ==> less(a, c)
    &&& forall|a: K, b: K| a == b || #[trigger] less(a, b) || less(b, a)
}

/// Entries with smaller keys are passed over by an insertion.
pub proof fn lemma_assoc_insert_at<K, V>(
    s: Seq<(K, V)>,
    k: K,
    v: V,
    less: spec_fn(K, K) -> bool,
    i: int,
)
    requires
        0 <= i <= s.len(),
        forall|j: int| 0 <= j < i ==> (#[trigger] s[j]).0 != k && !less(k, s[j].0),
    ensures
        assoc_insert(s, k, v, less) == s.take(i) + assoc_insert(s.skip(i), k, v, less),
    decreases i,
{
    if i == 0 {
        assert(s.skip(0) == s);
        assert(s.take(0) + assoc_insert(s, k, v, less) == assoc_insert(s, k, v, less));
    } else {
        let t = s.drop_first();
        assert forall|j: int| 0 <= j < i - 1 implies (#[trigger] t[j]).0 != k && !less(
            k,
            t[j].0,
        ) by {
            assert(t[j] == s[j + 1]);
        }
        lemma_assoc_insert_at(t, k, v, less, i - 1);
        assert(t.skip(i - 1) == s.skip(i));
        assert(seq![s[0]] + t.take(i - 1) == s.take(i));
        assert(assoc_insert(s, k, v, less) == s.take(i) + assoc_insert(s.skip(i), k, v, less));
    }
}

/// A lookup finds nothing among entries with other keys.
pub proof fn lemma_assoc_get_at<K, V>(s: Seq<(K, V)>, k: K, i: int)
    requires
        0 <= i <= s.len(),
        forall|j: int| 0 <= j < i ==> (#[trigger] s[j]).0 != k,
    ensures
        assoc_get(s, k) == assoc_get(s.skip(i), k),
    decreases i,
{
    if i == 0 {
        assert(s.skip(0) == s);
    } else {
        let t = s.drop_first();
        assert forall|j: int| 0 <= j < i - 1 implies (#[trigger] t[j]).0 != k by {
            assert(t[j] == s[j + 1]);
        }
        lemma_assoc_get_at(t, k, i - 1);
        assert(t.skip(i - 1) == s.skip(i));
    }
}

/// A removal passes over entries with other keys.
pub proof fn lemma_assoc_remove_at<K, V>(s: Seq<(K, V)>, k: K, i: int)
    requires
        0 <= i <= s.len(),
        forall|j: int| 0 <= j < i ==> (#[trigger] s[j]).0 != k,
    ensures
        assoc_remove(s, k) == s.take(i) + assoc_remove(s.skip(i), k),
    decreases i,
{
    if i == 0 {
        assert(s.skip(0) == s);
        assert(s.take(0) + assoc_remove(s, k) == assoc_remove(s, k));
    } else {
        let t = s.drop_first();
        assert forall|j: int| 0 <= j < i - 1 implies (#[trigger] t[j]).0 != k by {
            assert(t[j] == s[j + 1]);
        }
        lemma_assoc_remove_at(t, k, i - 1);
        assert(t.skip(i - 1) == s.skip(i));
        assert(seq![s[0]] + t.take(i - 1) == s.take(i));
        assert(assoc_remove(s, k) == s.take(i) + assoc_remove(s.skip(i), k));
    }
}

/// A key is bound exactly if some entry has it.
pub proof fn lemma_assoc_get_some<K, V>(s: Seq<(K, V)>, k: K)
    ensures
        assoc_get(s, k) is Some <==> exists|i: int| 0 <= i < s.len() && (#[trigger] s[i]).0 == k,
    decreases s.len(),
{
    if s.len() > 0 && s[0].0 != k {
        let t = s.drop_first();
        lemma_assoc_get_some(t, k);
        if assoc_get(t, k) is Some {
            let i = choose|i: int| 0 <= i < t.len() && (#[trigger] t[i]).0 == k;
            assert(s[i + 1].0 == k);
        } else {
            assert forall|i: int| 0 <= i < s.len() implies (#[trigger] s[i]).0 != k by {
                if i > 0 {
                    assert(t[i - 1] == s[i]);
                }
            }
        }
    } else if s.len() > 0 {
        assert(s[0].0 == k);
    }
}

/// What a lookup gives after an insertion: the new value under the new key,
/// and under every other key what was there before.
pub proof fn law_assoc_get_insert<K, V>(
    s: Seq<(K, V)>,
    k: K,
    v: V,
    less: spec_fn(K, K) -> bool,
    q: K,
)
    ensures
        assoc_get(assoc_insert(s, k, v, less), q) == if q == k {
            Some(v)
        } else {
            assoc_get(s, q)
        },
    decreases s.len(),
{
    let r = assoc_insert(s, k, v, less);
    if s.len() == 0 {
        assert(r.drop_first() == s);
    } else if s[0].0 == k {
        assert(r.drop_first() == s.drop_first());
    } else if less(k, s[0].0) {
        assert(r.drop_first() == s);
    } else {
        law_assoc_get_insert(s.drop_first(), k, v, less, q);
        assert(r.drop_first() == assoc_insert(s.drop_first(), k, v, less));
    }
}

/// Every key of the result of an insertion is the new key or an old one.
proof fn lemma_assoc_insert_keys<K, V>(
    s: Seq<(K, V)>,
    k: K,
    v: V,
    less: spec_fn(K, K) -> bool,
    i: int,
)
    requires
        0 <= i < assoc_insert(s, k, v, less).len(),
    ensures
        assoc_insert(s, k, v, less)[i].0 == k || exists|j: int|
            0 <= j < s.len() && (#[trigger] s[j]).0 == assoc_insert(s, k, v, less)[i].0,
    decreases s.len(),
{
    let r = assoc_insert(s, k, v, less);
    if s.len() == 0 {
    } else if s[0].0 == k {
        if i > 0 {
            assert(r[i] == s[i]);
        }
    } else if less(k, s[0].0) {
        if i > 0 {
            assert(r[i] == s[i - 1]);
        }
    } else {
        if i == 0 {
            assert(r[0] == s[0]);
        } else {
            let t = s.drop_first();
            lemma_assoc_insert_keys(t, k, v, less, i - 1);
            assert(r[i] == assoc_insert(t, k, v, less)[i - 1]);
            if r[i].0 != k {
                let j = choose|j: int| 0 <= j < t.len() && (#[trigger] t[j]).0 == r[i].0;
                assert(s[j + 1] == t[j]);
            }
        }
    }
}

/// Insertion keeps the keys in strictly increasing order.
pub proof fn law_assoc_insert_sorted<K, V>(
    s: Seq<(K, V)>,
    k: K,
    v: V,
    less: spec_fn(K, K) -> bool,
)
    requires
        assoc_sorted(s, less),
        strict_order(less),
    ensures
        assoc_sorted(assoc_insert(s, k, v, less), less),
    decreases s.len(),
{
    let r = assoc_insert(s, k, v, less);
    if s.len() == 0 {
    } else if s[0].0 == k {
        assert forall|i: int, j: int|
            #![trigger r[i], r[j]]
            0 <= i < j < r.len() implies less(r[i].0, r[j].0) by {
            assert(r[j] == s[j]);
            assert(r[i].0 == s[i].0);
        }
    } else if less(k, s[0].0) {
        assert forall|i: int, j: int|
            #![trigger r[i], r[j]]
            0 <= i < j < r.len() implies less(r[i].0, r[j].0) by {
            assert(r[j] == s[j - 1]);
            if i == 0 {
                if j > 1 {
                    assert(less(s[0].0, s[j - 1].0));
                }
            } else {
                assert(r[i] == s[i - 1]);
            }
        }
    } else {
        let t = s.drop_first();
        assert forall|i: int, j: int|
            #![trigger t[i], t[j]]
            0 <= i < j < t.len() implies less(t[i].0, t[j].0) by {
            assert(t[i] == s[i + 1] && t[j] == s[j + 1]);
        }
        law_assoc_insert_sorted(t, k, v, less);
        let u = assoc_insert(t, k, v, less);
        assert forall|i: int, j: int|
            #![trigger r[i], r[j]]
            0 <= i < j < r.len() implies less(r[i].0, r[j].0) by {
            assert(r[j] == u[j - 1]);
            if i == 0 {
                assert(less(s[0].0, k));
                lemma_assoc_insert_keys(t, k, v, less, j - 1);
                if r[j].0 != k {
                    let m = choose|m: int| 0 <= m < t.len() && (#[trigger] t[m]).0 == r[j].0;
                    assert(t[m] == s[m + 1]);
                    assert(less(s[0].0, s[m + 1].0));
                }
            } else {
                assert(r[i] == u[i - 1]);
            }
        }
    }
}

/// Inserting a key above all others appends it.
pub proof fn lemma_assoc_insert_last<K, V>(
    s: Seq<(K, V)>,
    k: K,
    v: V,
    less: spec_fn(K, K) -> bool,
)
    requires
        strict_order(less),
        forall|i: int| 0 <= i < s.len() ==> less((#[trigger] s[i]).0, k),
    ensures
        assoc_insert(s, k, v, less) == s.push((k, v)),
{
    lemma_assoc_insert_at(s, k, v, less, s.len() as int);
    assert(s.skip(s.len() as int) == Seq::<(K, V)>::empty());
    assert(s.take(s.len() as int) == s);
    assert(s + seq![(k, v)] == s.push((k, v)));
}

/// What is looked up is the value of the first entry with the key; without one
/// there is none.
pub proof fn law_assoc_get<K, V>(s: Seq<(K, V)>, k: K, i: int)
    requires
        0 <= i <= s.len(),
        forall|j: int| 0 <= j < i ==> (#[trigger] s[j]).0 != k,
        i < s.len() ==> s[i].0 == k,
    ensures
        assoc_get(s, k) == (if i < s.len() {
            Some(s[i].1)
        } else {
            None
        }),
    decreases s.len(),
{
    if i > 0 {
        let rest = s.drop_first();
        assert(s[0].0 != k);
        assert forall|j: int| 0 <= j < i - 1 implies (#[trigger] rest[j]).0 != k by {
            assert(rest[j] == s[j + 1]);
        }
        law_assoc_get(rest, k, i - 1);
    }
}

/// Removing a key takes its first entry out and keeps the others as they are.
pub proof fn law_assoc_remove<K, V>(s: Seq<(K, V)>, k: K, i: int)
    requires
        0 <= i <= s.len(),
        forall|j: int| 0 <= j < i ==> (#[trigger] s[j]).0 != k,
        i < s.len() ==> s[i].0 == k,
    ensures
        assoc_remove(s, k) == (if i < s.len() {
            s.remove(i)
        } else {
            s
        }),
    decreases s.len(),
{
    if i > 0 {
        let rest = s.drop_first();
        assert(s[0].0 != k);
        assert forall|j: int| 0 <= j < i - 1 implies (#[trigger] rest[j]).0 != k by {
            assert(rest[j] == s[j + 1]);
        }
        law_assoc_remove(rest, k, i - 1);
        if i < s.len() {
            assert(seq![s[0]] + rest.remove(i - 1) =~= s.remove(i));
        } else {
            assert(seq![s[0]] + rest =~= s);
        }
    } else if s.len() > 0 {
        assert(s.drop_first() =~= s.remove(0));
    }
}

} // verus!
