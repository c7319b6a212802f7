//! Lists in falling order of a key, in which equal keys keep their order.

use vstd::prelude::*;

verus! {

/// The first place, from `from` on, of an element with a smaller key.
pub open spec fn first_below<A>(s: Seq<A>, key: spec_fn(A) -> int, k: int, from: int) -> int
    decreases s.len() - from,
{
    if from < 0 || from >= s.len() || key(s[from]) < k {
        from
    } else {
        first_below(s, key, k, from + 1)
    }
}

/// A list with one more element, before the first with a smaller key.
pub open spec fn insert_falling<A>(s: Seq<A>, key: spec_fn(A) -> int, a: A) -> Seq<A> {
    s.insert(first_below(s, key, key(a), 0), a)
}

/// A list in falling order of its keys. Of equal keys, the earlier stays first.
pub open spec fn falling<A>(s: Seq<A>, key: spec_fn(A) -> int) -> Seq<A>
    decreases s.len(),
{
    if s.len() == 0 {
        s
    } else {
        insert_falling(falling(s.drop_last(), key), key, s.last())
    }
}

/// The keys of a list do not rise.
pub open spec fn is_falling<A>(s: Seq<A>, key: spec_fn(A) -> int) -> bool {
    forall|i: int, j: int|
        #![trigger s[i], s[j]]
        0 <= i <= j < s.len() ==> key(s[i]) >= key(s[j])
}

/// The elements with one key, in order.
pub open spec fn with_key<A>(s: Seq<A>, key: spec_fn(A) -> int, k: int) -> Seq<A>
    decreases s.len(),
{
    if s.len() == 0 {
        s
    } else if key(s.last()) == k {
        with_key(s.drop_last(), key, k).push(s.last())
    } else {
        with_key(s.drop_last(), key, k)
    }
}

pub proof fn lemma_first_below<A>(s: Seq<A>, key: spec_fn(A) -> int, k: int, from: int)
    requires
        0 <= from <= s.len(),
    ensures
        from <= first_below(s, key, k, from) <= s.len(),
        forall|i: int|
            from <= i < first_below(s, key, k, from) ==> key(#[trigger] s[i]) >= k,
        first_below(s, key, k, from) < s.len() ==> key(s[first_below(s, key, k, from)]) < k,
    decreases s.len() - from,
{
    if from < s.len() && key(s[from]) >= k {
        lemma_first_below(s, key, k, from + 1);
    }
}

proof fn lemma_insert_falling<A>(s: Seq<A>, key: spec_fn(A) -> int, a: A)
    requires
        is_falling(s, key),
    ensures
        is_falling(insert_falling(s, key, a), key),
        insert_falling(s, key, a).len() == s.len() + 1,
        forall|b: A| #[trigger]
            insert_falling(s, key, a).contains(b) <==> (s.contains(b) || b == a),
{
    let p = first_below(s, key, key(a), 0);
    let t = insert_falling(s, key, a);
    lemma_first_below(s, key, key(a), 0);
    assert(forall|i: int| 0 <= i < p ==> t[i] == s[i]);
    assert(t[p] == a);
    assert(forall|i: int| p < i < t.len() ==> t[i] == s[i - 1]);
    assert forall|i: int, j: int|
        #![trigger t[i], t[j]]
        0 <= i <= j < t.len() implies key(t[i]) >= key(t[j]) by {
        if i == p && j > p {
            assert(key(s[p]) >= key(s[j - 1]));
        }
    }
    assert forall|b: A| #[trigger] t.contains(b) <==> (s.contains(b) || b == a) by {
        if t.contains(b) {
            let i = choose|i: int| 0 <= i < t.len() && t[i] == b;
            if i < p {
                assert(s[i] == b);
            } else if i > p {
                assert(s[i - 1] == b);
            }
        }
        if s.contains(b) {
            let i = choose|i: int| 0 <= i < s.len() && s[i] == b;
            if i < p {
                assert(t[i] == b);
            } else {
                assert(t[i + 1] == b);
            }
        }
    }
}

/// Sorting gives a falling list of the same elements.
pub proof fn sorting_keeps_the_elements<A>(s: Seq<A>, key: spec_fn(A) -> int)
    ensures
        is_falling(falling(s, key), key),
        falling(s, key).len() == s.len(),
        forall|b: A| #[trigger] falling(s, key).contains(b) <==> s.contains(b),
    decreases s.len(),
{
    if s.len() > 0 {
        sorting_keeps_the_elements(s.drop_last(), key);
        lemma_insert_falling(falling(s.drop_last(), key), key, s.last());
        assert forall|b: A| #[trigger] falling(s, key).contains(b) <==> s.contains(b) by {
            if s.contains(b) {
                let i = choose|i: int| 0 <= i < s.len() && s[i] == b;
                if i < s.len() - 1 {
                    assert(s.drop_last()[i] == b);
                }
            }
            if s.drop_last().contains(b) {
                let i = choose|i: int| 0 <= i < s.len() - 1 && s.drop_last()[i] == b;
                assert(s[i] == b);
            }
        }
    }
}

proof fn lemma_with_key_adds<A>(a: Seq<A>, b: Seq<A>, key: spec_fn(A) -> int, k: int)
    ensures
        with_key(a + b, key, k) == with_key(a, key, k) + with_key(b, key, k),
    decreases b.len(),
{
    if b.len() == 0 {
        assert(a + b =~= a);
        assert(with_key(a, key, k) + with_key(b, key, k) =~= with_key(a, key, k));
    } else {
        lemma_with_key_adds(a, b.drop_last(), key, k);
        assert((a + b).drop_last() =~= a + b.drop_last());
        assert((a + b).last() == b.last());
        assert(with_key(a + b, key, k) =~= with_key(a, key, k) + with_key(b, key, k));
    }
}

proof fn lemma_without_key<A>(s: Seq<A>, key: spec_fn(A) -> int, k: int)
    requires
        forall|i: int| 0 <= i < s.len() ==> key(#[trigger] s[i]) != k,
    ensures
        with_key(s, key, k).len() == 0,
    decreases s.len(),
{
    if s.len() > 0 {
        assert forall|i: int| 0 <= i < s.drop_last().len() implies key(
            #[trigger] s.drop_last()[i],
        ) != k by {
            assert(s[i] == s.drop_last()[i]);
        }
        lemma_without_key(s.drop_last(), key, k);
    }
}

/// Sorting keeps the order of elements with the same key.
pub proof fn sorting_is_stable<A>(s: Seq<A>, key: spec_fn(A) -> int, k: int)
    ensures
        with_key(falling(s, key), key, k) == with_key(s, key, k),
    decreases s.len(),
{
    if s.len() > 0 {
        let t = falling(s.drop_last(), key);
        let a = s.last();
        sorting_keeps_the_elements(s.drop_last(), key);
        sorting_is_stable(s.drop_last(), key, k);
        let p = first_below(t, key, key(a), 0);
        lemma_first_below(t, key, key(a), 0);
        let front = t.take(p);
        let back = t.skip(p);
        assert(t =~= front + back);
        assert(t.insert(p, a) =~= (front + seq![a]) + back);
        lemma_with_key_adds(front + seq![a], back, key, k);
        lemma_with_key_adds(front, seq![a], key, k);
        lemma_with_key_adds(front, back, key, k);
        let one = seq![a];
        assert(one.drop_last() =~= Seq::<A>::empty());
        assert(with_key(one.drop_last(), key, k) =~= Seq::<A>::empty());
        if key(a) == k {
            assert forall|i: int| 0 <= i < back.len() implies key(#[trigger] back[i]) != k by {
                assert(key(t[p]) >= key(t[p + i]));
            }
            lemma_without_key(back, key, k);
            assert(with_key(one, key, k) =~= seq![a]);
            assert(with_key(front, key, k) + with_key(back, key, k) =~= with_key(front, key, k));
            assert(with_key(front, key, k) + seq![a] + with_key(back, key, k) =~= with_key(
                front,
                key,
                k,
            ).push(a));
        } else {
            assert(with_key(one, key, k) =~= Seq::<A>::empty());
            assert(with_key(front, key, k) + Seq::<A>::empty() + with_key(back, key, k)
                =~= with_key(front, key, k) + with_key(back, key, k));
        }
    }
}

/// The element `i` has the largest key of those that `good` is true of, and is the
/// first with that key.
pub open spec fn is_first_best<A>(
    s: Seq<A>,
    key: spec_fn(A) -> int,
    good: spec_fn(A) -> bool,
    i: int,
) -> bool {
    &&& 0 <= i < s.len()
    &&& good(s[i])
    &&& forall|j: int|
        0 <= j < s.len() && good(#[trigger] s[j]) ==> key(s[j]) <= key(s[i]) && (j < i ==> key(s[j])
            < key(s[i]))
}

/// The first element of a sorted list that `good` is true of is, in the list as it
/// was, the first of those with the largest key.
pub proof fn lemma_first_of_sorted<A>(
    s: Seq<A>,
    key: spec_fn(A) -> int,
    good: spec_fn(A) -> bool,
    f: int,
) -> (i: int)
    requires
        0 <= f < falling(s, key).len(),
        good(falling(s, key)[f]),
        forall|k: int| 0 <= k < f ==> !good(#[trigger] falling(s, key)[k]),
    ensures
        is_first_best(s, key, good, i),
        s[i] == falling(s, key)[f],
    decreases s.len(),
{
    let less = s.drop_last();
    let a = s.last();
    let t = falling(less, key);
    let u = falling(s, key);
    let p = first_below(t, key, key(a), 0);
    sorting_keeps_the_elements(less, key);
    lemma_first_below(t, key, key(a), 0);
    assert(forall|k: int| 0 <= k < p ==> u[k] == t[k]);
    assert(u[p] == a);
    assert(forall|k: int| p <= k < t.len() ==> u[k + 1] == #[trigger] t[k]);
    if f == p {
        let i = s.len() - 1;
        assert forall|j: int| 0 <= j < s.len() && good(#[trigger] s[j]) && j < i implies key(s[j])
            < key(a) by {
            assert(less[j] == s[j]);
            assert(less.contains(s[j]));
            assert(t.contains(s[j]));
            let k = choose|k: int| 0 <= k < t.len() && t[k] == s[j];
            if k < p {
                assert(u[k] == t[k]);
            }
            assert(key(t[p]) >= key(t[k]));
        }
        i
    } else {
        let g = if f < p {
            f
        } else {
            f - 1
        };
        assert(t[g] == u[f]);
        assert forall|k: int| 0 <= k < g implies !good(#[trigger] t[k]) by {
            if k < p {
                assert(u[k] == t[k]);
            } else {
                assert(u[k + 1] == t[k]);
            }
        }
        let i = lemma_first_of_sorted(less, key, good, g);
        assert(less[i] == s[i]);
        assert forall|j: int| 0 <= j < s.len() && good(#[trigger] s[j]) implies key(s[j]) <= key(
            s[i],
        ) && (j < i ==> key(s[j]) < key(s[i])) by {
            if j < s.len() - 1 {
                assert(less[j] == s[j]);
            } else if f < p {
                assert(key(t[f]) >= key(a));
            } else {
                assert(u[p] == a);
            }
        }
        i
    }
}

} // verus!
