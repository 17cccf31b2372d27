//! Stable ordering by key.

use vstd::prelude::*;

use crate::find::lemma_filter_push;

verus! {

/// `x` put into `s` behind every trailing element that does not have to follow
/// it.
pub open spec fn insert_sorted<T>(s: Seq<T>, x: T, leq: spec_fn(T, T) -> bool) -> Seq<T>
    decreases s.len(),
{
    if s.len() == 0 || leq(s.last(), x) {
        s.push(x)
    } else {
        insert_sorted(s.drop_last(), x, leq).push(s.last())
    }
}

/// `s` in ascending order; elements that compare equal keep their order.
pub open spec fn stable_sort<T>(s: Seq<T>, leq: spec_fn(T, T) -> bool) -> Seq<T>
    decreases s.len(),
{
    if s.len() == 0 {
        s
    } else {
        insert_sorted(stable_sort(s.drop_last(), leq), s.last(), leq)
    }
}

/// `leq` compares any two elements, and does so transitively.
pub open spec fn total_preorder<T>(leq: spec_fn(T, T) -> bool) -> bool {
    &&& forall|a: T, b: T| #[trigger] leq(a, b) || leq(b, a)
    &&& forall|a: T, b: T, c: T| #[trigger] leq(a, b) && #[trigger] leq(b, c) ==> leq(a, c)
}

/// Each element is at most the ones behind it.
pub open spec fn ascending<T>(s: Seq<T>, leq: spec_fn(T, T) -> bool) -> bool {
    forall|i: int, j: int| 0 <= i < j < s.len() ==> leq(#[trigger] s[i], #[trigger] s[j])
}

proof fn lemma_insert_sorted<T>(s: Seq<T>, x: T, leq: spec_fn(T, T) -> bool)
    ensures
        insert_sorted(s, x, leq).len() == s.len() + 1,
        insert_sorted(s, x, leq).to_multiset() == s.to_multiset().insert(x),
        total_preorder(leq) && ascending(s, leq) ==> ascending(insert_sorted(s, x, leq), leq),
    decreases s.len(),
{
    broadcast use vstd::seq_lib::group_to_multiset_ensures;

    if s.len() == 0 || leq(s.last(), x) {
        if total_preorder(leq) && ascending(s, leq) {
            let r = s.push(x);
            assert forall|i: int, j: int| 0 <= i < j < r.len() implies leq(
                #[trigger] r[i],
                #[trigger] r[j],
            ) by {
                if j == s.len() && i < s.len() - 1 {
                    assert(leq(s[i], s[s.len() - 1]));
                }
            }
        }
    } else {
        let front = s.drop_last();
        lemma_insert_sorted(front, x, leq);
        let r = insert_sorted(front, x, leq);
        assert(s =~= front.push(s.last()));
        assert(front.to_multiset().insert(s.last()).insert(x) =~= front.to_multiset().insert(
            x,
        ).insert(s.last()));
        if total_preorder(leq) && ascending(s, leq) {
            assert forall|i: int, j: int| 0 <= i < j < front.len() implies leq(
                #[trigger] front[i],
                #[trigger] front[j],
            ) by {
                assert(leq(s[i], s[j]));
            }
            assert(ascending(front, leq));
            let whole = r.push(s.last());
            assert forall|i: int, j: int| 0 <= i < j < whole.len() implies leq(
                #[trigger] whole[i],
                #[trigger] whole[j],
            ) by {
                if j == r.len() {
                    assert(r.to_multiset().count(r[i]) > 0);
                    if r[i] == x {
                        assert(leq(x, s.last()));
                    } else {
                        assert(front.to_multiset().count(r[i]) > 0);
                        assert(front.contains(r[i]));
                        let k = choose|k: int| 0 <= k < front.len() && front[k] == r[i];
                        assert(leq(s[k], s[s.len() - 1]));
                    }
                } else {
                    assert(leq(r[i], r[j]));
                }
            }
        }
    }
}

/// Sorting keeps the elements, each as often as before, and puts them in order.
pub proof fn lemma_stable_sort<T>(s: Seq<T>, leq: spec_fn(T, T) -> bool)
    ensures
        stable_sort(s, leq).len() == s.len(),
        stable_sort(s, leq).to_multiset() == s.to_multiset(),
        total_preorder(leq) ==> ascending(stable_sort(s, leq), leq),
    decreases s.len(),
{
    broadcast use vstd::seq_lib::group_to_multiset_ensures;

    if s.len() > 0 {
        lemma_stable_sort(s.drop_last(), leq);
        lemma_insert_sorted(stable_sort(s.drop_last(), leq), s.last(), leq);
        assert(s =~= s.drop_last().push(s.last()));
    }
}

proof fn lemma_insert_keeps_class<T>(
    s: Seq<T>,
    x: T,
    leq: spec_fn(T, T) -> bool,
    class: spec_fn(T) -> bool,
)
    requires
        forall|a: T, b: T| class(a) && class(b) ==> #[trigger] leq(a, b),
    ensures
        insert_sorted(s, x, leq).filter(class) == s.push(x).filter(class),
    decreases s.len(),
{
    if s.len() > 0 && !leq(s.last(), x) {
        let front = s.drop_last();
        lemma_insert_keeps_class(front, x, leq, class);
        let r = insert_sorted(front, x, leq);
        lemma_filter_push(r, s.last(), class);
        lemma_filter_push(front, x, class);
        lemma_filter_push(front, s.last(), class);
        lemma_filter_push(s, x, class);
        assert(s =~= front.push(s.last()));
    }
}

/// Sorting is stable: the elements of a class whose members compare equal stay
/// in the order in which they were.
pub proof fn lemma_sort_is_stable<T>(
    s: Seq<T>,
    leq: spec_fn(T, T) -> bool,
    class: spec_fn(T) -> bool,
)
    requires
        forall|a: T, b: T| class(a) && class(b) ==> #[trigger] leq(a, b),
    ensures
        stable_sort(s, leq).filter(class) == s.filter(class),
    decreases s.len(),
{
    if s.len() > 0 {
        let front = s.drop_last();
        lemma_sort_is_stable(front, leq, class);
        lemma_insert_keeps_class(stable_sort(front, leq), s.last(), leq, class);
        lemma_filter_push(stable_sort(front, leq), s.last(), class);
        lemma_filter_push(front, s.last(), class);
        assert(s =~= front.push(s.last()));
    }
}

/// The members of a sorted sequence are those of the sequence.
pub proof fn lemma_sort_members<T>(s: Seq<T>, leq: spec_fn(T, T) -> bool)
    ensures
        forall|x: T| #[trigger] stable_sort(s, leq).contains(x) == s.contains(x),
{
    broadcast use vstd::seq_lib::group_to_multiset_ensures;

    lemma_stable_sort(s, leq);
    assert forall|x: T| #[trigger] stable_sort(s, leq).contains(x) == s.contains(x) by {
        assert(stable_sort(s, leq).contains(x) == (stable_sort(s, leq).to_multiset().count(x) > 0));
        assert(s.contains(x) == (s.to_multiset().count(x) > 0));
    }
}

proof fn lemma_insert_map<A, B>(
    s: Seq<A>,
    x: A,
    f: spec_fn(A) -> B,
    by_a: spec_fn(A, A) -> bool,
    by_b: spec_fn(B, B) -> bool,
)
    requires
        forall|i: int| 0 <= i < s.len() ==> by_a(#[trigger] s[i], x) == by_b(f(s[i]), f(x)),
    ensures
        insert_sorted(s, x, by_a).map_values(f) == insert_sorted(s.map_values(f), f(x), by_b),
    decreases s.len(),
{
    if s.len() == 0 || by_a(s.last(), x) {
        if s.len() > 0 {
            assert(s.map_values(f).last() == f(s.last()));
            assert(s[s.len() - 1] == s.last());
        }
        assert(s.push(x).map_values(f) =~= s.map_values(f).push(f(x)));
    } else {
        let front = s.drop_last();
        assert forall|i: int| 0 <= i < front.len() implies by_a(#[trigger] front[i], x) == by_b(
            f(front[i]),
            f(x),
        ) by {
            assert(front[i] == s[i]);
        }
        lemma_insert_map(front, x, f, by_a, by_b);
        assert(s.map_values(f).drop_last() =~= front.map_values(f));
        assert(s.map_values(f).last() == f(s.last()));
        assert(s[s.len() - 1] == s.last());
        let r = insert_sorted(front, x, by_a);
        assert(r.push(s.last()).map_values(f) =~= r.map_values(f).push(f(s.last())));
    }
}

/// Sorting by a key and then mapping is mapping and then sorting, when the
/// mapping keeps the comparison.
pub proof fn lemma_sort_map<A, B>(
    s: Seq<A>,
    f: spec_fn(A) -> B,
    by_a: spec_fn(A, A) -> bool,
    by_b: spec_fn(B, B) -> bool,
)
    requires
        forall|x: A, y: A|
            s.contains(x) && s.contains(y) ==> #[trigger] by_a(x, y) == by_b(f(x), f(y)),
    ensures
        stable_sort(s, by_a).map_values(f) == stable_sort(s.map_values(f), by_b),
    decreases s.len(),
{
    if s.len() == 0 {
        assert(s.map_values(f) =~= Seq::<B>::empty());
        assert(stable_sort(s, by_a).map_values(f) =~= Seq::<B>::empty());
    } else {
        let front = s.drop_last();
        assert forall|x: A, y: A| front.contains(x) && front.contains(y) implies #[trigger] by_a(x, y)
            == by_b(f(x), f(y)) by {
            let i = choose|i: int| 0 <= i < front.len() && front[i] == x;
            let j = choose|j: int| 0 <= j < front.len() && front[j] == y;
            assert(s[i] == x && s[j] == y);
        }
        lemma_sort_map(front, f, by_a, by_b);
        assert(s.map_values(f).drop_last() =~= front.map_values(f));
        assert(s.map_values(f).last() == f(s.last()));
        let r = stable_sort(front, by_a);
        lemma_sort_members(front, by_a);
        assert forall|i: int| 0 <= i < r.len() implies by_a(#[trigger] r[i], s.last()) == by_b(
            f(r[i]),
            f(s.last()),
        ) by {
            assert(r.contains(r[i]));
            assert(front.contains(r[i]));
            let k = choose|k: int| 0 <= k < front.len() && front[k] == r[i];
            assert(s[k] == r[i]);
            assert(s[s.len() - 1] == s.last());
            assert(s.contains(s.last()));
        }
        lemma_insert_map(r, s.last(), f, by_a, by_b);
    }
}

/// Lexicographic order on pairs.
pub open spec fn pair_leq(a: (int, int), b: (int, int)) -> bool {
    a.0 < b.0 || (a.0 == b.0 && a.1 <= b.1)
}

/// A machine pair as integers.
pub open spec fn pair_int(k: (i64, i64)) -> (int, int) {
    (k.0 as int, k.1 as int)
}

/// How the positions of `keys` compare.
pub open spec fn key_leq(keys: Seq<(i64, i64)>) -> spec_fn(int, int) -> bool {
    |a: int, b: int| pair_leq(pair_int(keys[a]), pair_int(keys[b]))
}

/// The numbers from 0 up to `n`.
pub open spec fn upto(n: nat) -> Seq<int> {
    Seq::new(n, |i: int| i)
}

/// The positions of `keys` in ascending key order.
pub open spec fn key_order(keys: Seq<(i64, i64)>) -> Seq<int> {
    stable_sort(upto(keys.len()), key_leq(keys))
}

/// Positions as integers.
pub open spec fn positions(order: Seq<usize>) -> Seq<int> {
    order.map_values(|i: usize| i as int)
}

fn follows(a: (i64, i64), b: (i64, i64)) -> (r: bool)
    ensures
        r == !pair_leq(pair_int(a), pair_int(b)),
{
    a.0 > b.0 || (a.0 == b.0 && a.1 > b.1)
}

/// The positions of `keys` in ascending key order, equal keys in their order.
pub fn sort_positions(keys: &Vec<(i64, i64)>) -> (r: Vec<usize>)
    ensures
        positions(r@) == key_order(keys@),
        r.len() == keys.len(),
        forall|i: int| 0 <= i < r.len() ==> (#[trigger] r@[i]) < keys.len(),
{
    let ghost leq = key_leq(keys@);
    let mut order: Vec<usize> = Vec::new();
    let mut n: usize = 0;
    assert(positions(order@) =~= stable_sort(upto(0), leq));
    while n < keys.len()
        invariant
            n <= keys.len(),
            leq == key_leq(keys@),
            order.len() == n,
            forall|i: int| 0 <= i < order.len() ==> (#[trigger] order@[i]) < n,
            positions(order@) == stable_sort(upto(n as nat), leq),
        decreases keys.len() - n,
    {
        let ghost sorted = positions(order@);
        let key: (i64, i64) = keys[n];
        // Walk back over the entries that have to follow.
        let mut at: usize = order.len();
        proof {
            assert(order@.take(at as int) =~= order@);
            assert(order@.skip(at as int) =~= Seq::<usize>::empty());
            assert(sorted.skip(at as int) =~= Seq::<int>::empty());
            assert(sorted.take(at as int) =~= sorted);
            assert(insert_sorted(sorted, n as int, leq) =~= insert_sorted(
                sorted.take(at as int),
                n as int,
                leq,
            ) + sorted.skip(at as int));
        }
        while at > 0 && follows(keys[order[at - 1]], key)
            invariant
                at <= order.len(),
                n < keys.len(),
                key == keys@[n as int],
                leq == key_leq(keys@),
                sorted == positions(order@),
                forall|i: int| 0 <= i < order.len() ==> (#[trigger] order@[i]) < n,
                insert_sorted(sorted, n as int, leq) == insert_sorted(
                    sorted.take(at as int),
                    n as int,
                    leq,
                ) + sorted.skip(at as int),
            decreases at,
        {
            proof {
                let a = at as int;
                let head = sorted.take(a);
                assert(head.last() == order@[a - 1] as int);
                assert(!leq(head.last(), n as int));
                assert(head.drop_last() =~= sorted.take(a - 1));
                assert(sorted.skip(a - 1) =~= seq![head.last()] + sorted.skip(a));
                let ins = insert_sorted(sorted.take(a - 1), n as int, leq);
                assert(ins.push(head.last()) + sorted.skip(a) =~= ins + sorted.skip(a - 1));
            }
            at -= 1;
        }
        proof {
            let head = sorted.take(at as int);
            if at > 0 {
                assert(head.last() == order@[at - 1] as int);
                assert(leq(head.last(), n as int));
            }
            assert(insert_sorted(head, n as int, leq) == head.push(n as int));
        }
        order.insert(at, n);
        proof {
            assert(positions(order@) =~= sorted.take(at as int).push(n as int) + sorted.skip(
                at as int,
            ));
            assert(upto((n + 1) as nat).drop_last() =~= upto(n as nat));
            assert(upto((n + 1) as nat).last() == n as int);
        }
        n += 1;
    }
    order
}

} // verus!
