//! Stable ordering of windows by screen position.

use crate::model::Client;
use vstd::prelude::*;

verus! {

/// What a sequence of windows is ordered by.
#[derive(Debug, Clone, Copy, PartialEq, Eq)]
pub enum SortKey {
    /// Ascending `x`, ties broken by ascending `y`.
    XThenY,
    /// Ascending `y` alone.
    Y,
}

/// The pair of numbers that `c` is ordered by.
pub open spec fn key_of(c: Client, by: SortKey) -> (int, int) {
    match by {
        SortKey::XThenY => (c.at.0 as int, c.at.1 as int),
        SortKey::Y => (c.at.1 as int, 0int),
    }
}

/// Lexicographic `<=` on pairs.
pub open spec fn pair_le(a: (int, int), b: (int, int)) -> bool {
    a.0 < b.0 || (a.0 == b.0 && a.1 <= b.1)
}

/// Whether `a` may stand before `b`.
pub open spec fn no_later(a: Client, b: Client, by: SortKey) -> bool {
    pair_le(key_of(a, by), key_of(b, by))
}

/// Whether `s` is in ascending order of its keys.
pub open spec fn is_sorted(s: Seq<Client>, by: SortKey) -> bool {
    forall|i: int, j: int| 0 <= i <= j < s.len() ==> no_later(s[i], s[j], by)
}

/// `t` with `x` put behind the last element that may stand before it.
pub open spec fn insert_stable(t: Seq<Client>, x: Client, by: SortKey) -> Seq<Client>
    decreases t.len(),
{
    if t.len() == 0 || no_later(t.last(), x, by) {
        t.push(x)
    } else {
        insert_stable(t.drop_last(), x, by).push(t.last())
    }
}

/// `s` in ascending order of its keys; elements with equal keys keep
/// the order they had in `s`.
pub open spec fn stable_sort(s: Seq<Client>, by: SortKey) -> Seq<Client>
    decreases s.len(),
{
    if s.len() == 0 {
        s
    } else {
        insert_stable(stable_sort(s.drop_last(), by), s.last(), by)
    }
}

/// Interleaving of `a` and `b` that always ends with the later of the two
/// last elements, the last of `b` on a tie.
pub open spec fn merge(a: Seq<Client>, b: Seq<Client>, by: SortKey) -> Seq<Client>
    decreases a.len() + b.len(),
{
    if a.len() == 0 {
        b
    } else if b.len() == 0 {
        a
    } else if !no_later(a.last(), b.last(), by) {
        merge(a.drop_last(), b, by).push(a.last())
    } else {
        merge(a, b.drop_last(), by).push(b.last())
    }
}

/// Inserting into the right run before merging is inserting after merging.
pub proof fn lemma_merge_insert(a: Seq<Client>, b: Seq<Client>, x: Client, by: SortKey)
    ensures
        merge(a, insert_stable(b, x, by), by) == insert_stable(merge(a, b, by), x, by),
    decreases a.len() + b.len(),
{
    let ins = insert_stable(b, x, by);
    let m = merge(a, b, by);
    if a.len() == 0 {
    } else if b.len() == 0 || no_later(b.last(), x, by) {
        assert(ins == b.push(x));
        assert(ins.drop_last() == b);
        if !no_later(a.last(), x, by) {
            lemma_merge_insert(a.drop_last(), b, x, by);
            let rest = merge(a.drop_last(), b, by);
            if b.len() == 0 {
                assert(rest =~= a.drop_last());
                assert(m == a);
            } else {
                assert(!no_later(a.last(), b.last(), by));
                assert(m == rest.push(a.last()));
            }
            assert(m.drop_last() =~= rest);
            assert(m.last() == a.last());
        } else {
            assert(merge(a, ins, by) == m.push(x));
            if b.len() == 0 {
                assert(m == a);
            } else if !no_later(a.last(), b.last(), by) {
                assert(m.last() == a.last());
            } else {
                assert(m.last() == b.last());
            }
        }
    } else {
        assert(ins == insert_stable(b.drop_last(), x, by).push(b.last()));
        assert(ins.drop_last() == insert_stable(b.drop_last(), x, by));
        assert(ins.last() == b.last());
        if !no_later(a.last(), b.last(), by) {
            lemma_merge_insert(a.drop_last(), b, x, by);
            let rest = merge(a.drop_last(), b, by);
            assert(m == rest.push(a.last()));
            assert(m.drop_last() =~= rest);
            assert(!no_later(a.last(), x, by));
        } else {
            lemma_merge_insert(a, b.drop_last(), x, by);
            let rest = merge(a, b.drop_last(), by);
            assert(m == rest.push(b.last()));
            assert(m.drop_last() =~= rest);
        }
    }
}

/// Sorting two halves and merging them sorts the whole.
pub proof fn lemma_sort_concat(a: Seq<Client>, b: Seq<Client>, by: SortKey)
    ensures
        stable_sort(a + b, by) == merge(stable_sort(a, by), stable_sort(b, by), by),
    decreases b.len(),
{
    if b.len() == 0 {
        assert(a + b == a);
        let sa = stable_sort(a, by);
        assert(merge(sa, b, by) == sa);
    } else {
        assert((a + b).drop_last() == a + b.drop_last());
        lemma_sort_concat(a, b.drop_last(), by);
        lemma_merge_insert(stable_sort(a, by), stable_sort(b.drop_last(), by), b.last(), by);
    }
}

/// Inserting adds the new element and nothing else.
pub proof fn lemma_insert_multiset(t: Seq<Client>, x: Client, by: SortKey)
    ensures
        insert_stable(t, x, by).to_multiset() == t.to_multiset().insert(x),
    decreases t.len(),
{
    broadcast use vstd::seq_lib::to_multiset_build;

    if !(t.len() == 0 || no_later(t.last(), x, by)) {
        lemma_insert_multiset(t.drop_last(), x, by);
        assert(t == t.drop_last().push(t.last()));
        assert(insert_stable(t, x, by).to_multiset() =~= t.to_multiset().insert(x));
    }
}

/// Sorting rearranges: every window occurs as often after as before.
pub proof fn lemma_sort_permutes(s: Seq<Client>, by: SortKey)
    ensures
        stable_sort(s, by).to_multiset() == s.to_multiset(),
        stable_sort(s, by).len() == s.len(),
        forall|c: Client| stable_sort(s, by).contains(c) <==> s.contains(c),
    decreases s.len(),
{
    broadcast use vstd::seq_lib::to_multiset_build;

    if s.len() > 0 {
        lemma_sort_permutes(s.drop_last(), by);
        lemma_insert_multiset(stable_sort(s.drop_last(), by), s.last(), by);
        assert(s == s.drop_last().push(s.last()));
    }
    s.to_multiset_ensures();
    stable_sort(s, by).to_multiset_ensures();
    assert forall|c: Client| stable_sort(s, by).contains(c) <==> s.contains(c) by {
        assert(s.contains(c) <==> s.to_multiset().count(c) > 0);
        assert(stable_sort(s, by).contains(c) <==> stable_sort(s, by).to_multiset().count(c) > 0);
    }
}

/// Inserting into an ordered sequence leaves it ordered.
pub proof fn lemma_insert_sorted(t: Seq<Client>, x: Client, by: SortKey)
    requires
        is_sorted(t, by),
    ensures
        is_sorted(insert_stable(t, x, by), by),
    decreases t.len(),
{
    let r = insert_stable(t, x, by);
    if t.len() == 0 || no_later(t.last(), x, by) {
        assert forall|i: int, j: int| 0 <= i <= j < r.len() implies no_later(r[i], r[j], by) by {
            if j == t.len() && i < t.len() {
                assert(no_later(t[i], t.last(), by));
            }
        }
    } else {
        let head = t.drop_last();
        let inner = insert_stable(head, x, by);
        assert(is_sorted(head, by)) by {
            assert forall|i: int, j: int| 0 <= i <= j < head.len() implies no_later(
                head[i],
                head[j],
                by,
            ) by {
                assert(no_later(t[i], t[j], by));
            }
        }
        lemma_insert_sorted(head, x, by);
        lemma_insert_multiset(head, x, by);
        inner.to_multiset_ensures();
        head.to_multiset_ensures();
        assert forall|i: int, j: int| 0 <= i <= j < r.len() implies no_later(r[i], r[j], by) by {
            if j == inner.len() && i < inner.len() {
                let c = inner[i];
                assert(inner.contains(c));
                assert(inner.to_multiset().count(c) > 0);
                if c != x {
                    assert(head.to_multiset().count(c) > 0);
                    assert(head.contains(c));
                    let k = choose|k: int| 0 <= k < head.len() && head[k] == c;
                    assert(no_later(t[k], t.last(), by));
                }
            } else if j < inner.len() {
                assert(no_later(inner[i], inner[j], by));
            }
        }
    }
}

/// What is sorted is in ascending order of its keys.
pub proof fn lemma_sort_sorted(s: Seq<Client>, by: SortKey)
    ensures
        is_sorted(stable_sort(s, by), by),
    decreases s.len(),
{
    if s.len() > 0 {
        lemma_sort_sorted(s.drop_last(), by);
        lemma_insert_sorted(stable_sort(s.drop_last(), by), s.last(), by);
    }
}

/// The windows of `s` whose key is `k`, in the order they have in `s`.
pub open spec fn with_key(s: Seq<Client>, by: SortKey, k: (int, int)) -> Seq<Client> {
    s.filter(|c: Client| key_of(c, by) == k)
}

/// Filtering a sequence that ends with `x`.
proof fn lemma_with_key_push(s: Seq<Client>, x: Client, by: SortKey, k: (int, int))
    ensures
        with_key(s.push(x), by, k) == if key_of(x, by) == k {
            with_key(s, by, k).push(x)
        } else {
            with_key(s, by, k)
        },
{
    reveal(Seq::filter);
    assert(s.push(x).drop_last() == s);
}

/// Inserting puts the new element behind all others with its key.
pub proof fn lemma_insert_stable(t: Seq<Client>, x: Client, by: SortKey, k: (int, int))
    ensures
        with_key(insert_stable(t, x, by), by, k) == with_key(t.push(x), by, k),
    decreases t.len(),
{
    if !(t.len() == 0 || no_later(t.last(), x, by)) {
        let head = t.drop_last();
        let inner = insert_stable(head, x, by);
        lemma_insert_stable(head, x, by, k);
        assert(t == head.push(t.last()));
        lemma_with_key_push(inner, t.last(), by, k);
        lemma_with_key_push(head, x, by, k);
        lemma_with_key_push(head, t.last(), by, k);
        lemma_with_key_push(t, x, by, k);
        assert(key_of(t.last(), by) != key_of(x, by));
    }
}

/// Sorting is stable: windows with equal keys keep the order they had.
pub proof fn lemma_sort_stable(s: Seq<Client>, by: SortKey, k: (int, int))
    ensures
        with_key(stable_sort(s, by), by, k) == with_key(s, by, k),
    decreases s.len(),
{
    if s.len() > 0 {
        let head = stable_sort(s.drop_last(), by);
        lemma_sort_stable(s.drop_last(), by, k);
        lemma_insert_stable(head, s.last(), by, k);
        lemma_with_key_push(head, s.last(), by, k);
        lemma_with_key_push(s.drop_last(), s.last(), by, k);
        assert(s == s.drop_last().push(s.last()));
    }
}

/// Executable test for [`no_later`].
pub fn stands_no_later(a: &Client, b: &Client, by: SortKey) -> (r: bool)
    ensures
        r == no_later(*a, *b, by),
{
    match by {
        SortKey::XThenY => a.at.0 < b.at.0 || (a.at.0 == b.at.0 && a.at.1 <= b.at.1),
        SortKey::Y => a.at.1 <= b.at.1,
    }
}

/// Merges two runs into one, taking from the back.
fn merge_runs(a: Vec<Client>, b: Vec<Client>, by: SortKey) -> (r: Vec<Client>)
    ensures
        r@ == merge(a@, b@, by),
{
    let ghost goal = merge(a@, b@, by);
    let mut a = a;
    let mut b = b;
    let mut tail: Vec<Client> = Vec::new();
    while a.len() > 0 && b.len() > 0
        invariant
            goal == merge(a@, b@, by) + tail@.reverse(),
        decreases a.len() + b.len(),
    {
        let ghost m = merge(a@, b@, by);
        let ghost t = tail@;
        let from_a = !stands_no_later(&a[a.len() - 1], &b[b.len() - 1], by);
        if from_a {
            let x = a.pop().unwrap();
            tail.push(x);
            proof {
                assert(m == merge(a@, b@, by).push(x));
                assert(m + t.reverse() =~= merge(a@, b@, by) + t.push(x).reverse());
            }
        } else {
            let x = b.pop().unwrap();
            tail.push(x);
            proof {
                assert(m == merge(a@, b@, by).push(x));
                assert(m + t.reverse() =~= merge(a@, b@, by) + t.push(x).reverse());
            }
        }
    }
    let mut base = if a.len() > 0 {
        a
    } else {
        b
    };
    while tail.len() > 0
        invariant
            goal == base@ + tail@.reverse(),
        decreases tail.len(),
    {
        let ghost s = base@;
        let ghost t = tail@;
        let x = tail.pop().unwrap();
        base.push(x);
        proof {
            assert(s + t.reverse() =~= s.push(x) + t.drop_last().reverse());
        }
    }
    proof {
        assert(base@ + tail@.reverse() =~= base@);
    }
    base
}

/// Sorts windows by `by`, keeping the order of windows with equal keys.
pub fn sort_clients(v: Vec<Client>, by: SortKey) -> (r: Vec<Client>)
    ensures
        r@ == stable_sort(v@, by),
    decreases v.len(),
{
    let n = v.len();
    if n <= 1 {
        proof {
            if n == 1 {
                assert(stable_sort(v@.drop_last(), by) == v@.drop_last());
                assert(v@.drop_last().push(v@.last()) =~= v@);
            }
        }
        return v;
    }
    let ghost whole = v@;
    let mut left = v;
    let right = left.split_off(n / 2);
    proof {
        assert(whole =~= left@ + right@);
        lemma_sort_concat(left@, right@, by);
    }
    let left = sort_clients(left, by);
    let right = sort_clients(right, by);
    merge_runs(left, right, by)
}

} // verus!
