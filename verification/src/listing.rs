//! Putting lists in order; what is equal keeps its order.
use vstd::prelude::*;

verus! {

/// What has a place in a list.
pub trait Listed: View + Sized {
    /// Whether one comes before another.
    spec fn ahead(a: Self::V, b: Self::V) -> bool;

    /// The order is asymmetric, and what does not come before is passed on.
    proof fn lemma_ahead(a: Self::V, b: Self::V, c: Self::V)
        ensures
            !(Self::ahead(a, b) && Self::ahead(b, a)),
            Self::ahead(a, b) && !Self::ahead(c, b) ==> Self::ahead(a, c),
    ;

    fn is_ahead(&self, other: &Self) -> (r: bool)
        ensures
            r == Self::ahead(self@, other@),
    ;
}

/// What the items of a list hold, in order.
pub open spec fn held<T: Listed>(items: Seq<T>) -> Seq<T::V> {
    items.map_values(|item: T| item@)
}

/// The place among the first `k` of a list at which an item is entered: after
/// everything that it does not come before.
pub open spec fn slot<T: Listed>(list: Seq<T::V>, x: T::V, k: int) -> int
    decreases k,
{
    if k > 0 && T::ahead(x, list[k - 1]) {
        slot::<T>(list, x, k - 1)
    } else {
        k
    }
}

/// The first `n` items in order; equal ones keep theirs.
pub open spec fn ordered<T: Listed>(items: Seq<T::V>, n: int) -> Seq<T::V>
    decreases n,
{
    if n <= 0 {
        Seq::empty()
    } else {
        let rest: Seq<T::V> = ordered::<T>(items, n - 1);
        rest.insert(slot::<T>(rest, items[n - 1], rest.len() as int), items[n - 1])
    }
}

/// Whether no item of a list comes before one that stands ahead of it.
pub open spec fn in_order<T: Listed>(list: Seq<T::V>) -> bool {
    forall|i: int, j: int| 0 <= i < j < list.len() ==> !T::ahead(
        #[trigger] list[j],
        #[trigger] list[i],
    )
}

proof fn lemma_slot<T: Listed>(list: Seq<T::V>, x: T::V, k: int)
    requires
        0 <= k <= list.len(),
    ensures
        0 <= slot::<T>(list, x, k) <= k,
        forall|i: int| slot::<T>(list, x, k) <= i < k ==> T::ahead(x, #[trigger] list[i]),
        slot::<T>(list, x, k) > 0 ==> !T::ahead(x, list[slot::<T>(list, x, k) - 1]),
    decreases k,
{
    if k > 0 && T::ahead(x, list[k - 1]) {
        lemma_slot::<T>(list, x, k - 1);
    }
}

/// Ordering neither adds nor loses an item, and puts all in order.
pub proof fn lemma_ordered<T: Listed>(items: Seq<T::V>, n: int)
    requires
        0 <= n <= items.len(),
    ensures
        ordered::<T>(items, n).len() == n,
        in_order::<T>(ordered::<T>(items, n)),
        ordered::<T>(items, n).to_multiset() == items.take(n).to_multiset(),
    decreases n,
{
    broadcast use vstd::seq_lib::group_to_multiset_ensures;

    if n > 0 {
        lemma_ordered::<T>(items, n - 1);
        let rest: Seq<T::V> = ordered::<T>(items, n - 1);
        let x: T::V = items[n - 1];
        let p: int = slot::<T>(rest, x, rest.len() as int);
        lemma_slot::<T>(rest, x, rest.len() as int);
        let list: Seq<T::V> = rest.insert(p, x);
        assert forall|i: int, j: int| 0 <= i < j < list.len() implies !T::ahead(
            #[trigger] list[j],
            #[trigger] list[i],
        ) by {
            if i < p && j < p {
                assert(!T::ahead(rest[j], rest[i]));
            } else if i < p && j > p {
                assert(!T::ahead(rest[j - 1], rest[i]));
            } else if i > p {
                assert(!T::ahead(rest[j - 1], rest[i - 1]));
            } else if i == p {
                assert(T::ahead(x, rest[j - 1]));
                T::lemma_ahead(x, rest[j - 1], x);
            } else {
                if i < p - 1 {
                    assert(!T::ahead(rest[p - 1], rest[i]));
                }
                T::lemma_ahead(x, rest[i], rest[p - 1]);
            }
        }
        assert(items.take(n) =~= items.take(n - 1).push(x));
        lemma_insert_multiset(rest, p, x);
        assert(list.to_multiset() =~= items.take(n).to_multiset());
    } else {
        assert(items.take(0) =~= Seq::<T::V>::empty());
    }
}

proof fn lemma_insert_multiset<A>(s: Seq<A>, p: int, x: A)
    requires
        0 <= p <= s.len(),
    ensures
        s.insert(p, x).to_multiset() == s.to_multiset().insert(x),
{
    let a: Seq<A> = s.take(p);
    let b: Seq<A> = s.skip(p);
    assert(s.insert(p, x) =~= a.push(x) + b);
    assert(s =~= a + b);
    vstd::seq_lib::lemma_multiset_commutative(a.push(x), b);
    vstd::seq_lib::lemma_multiset_commutative(a, b);
    a.to_multiset_ensures();
    assert(s.insert(p, x).to_multiset() =~= s.to_multiset().insert(x));
}

/// Puts a list in order; equal items keep theirs.
pub fn put_in_order<T: Listed>(items: &mut Vec<T>)
    ensures
        held(final(items)@) == ordered::<T>(held(old(items)@), old(items)@.len() as int),
        final(items)@.len() == old(items)@.len(),
{
    let ghost first: Seq<T::V> = held(items@);
    let mut n: usize = 0;
    while n < items.len()
        invariant
            n <= items@.len(),
            first == held(old(items)@),
            items@.len() == old(items)@.len(),
            held(items@).take(n as int) == ordered::<T>(first, n as int),
            held(items@).skip(n as int) == first.skip(n as int),
        decreases items@.len() - n,
    {
        let ghost before: Seq<T> = items@;
        let ghost rest: Seq<T::V> = ordered::<T>(first, n as int);
        proof {
            lemma_ordered::<T>(first, n as int);
            assert(first.skip(n as int)[0] == first[n as int]);
            assert(held(before).skip(n as int)[0] == before[n as int]@);
        }
        let mut k: usize = n;
        while k > 0 && items[n].is_ahead(&items[k - 1])
            invariant
                k <= n < items@.len(),
                items@ == before,
                rest == held(before).take(n as int),
                before[n as int]@ == first[n as int],
                slot::<T>(rest, first[n as int], n as int) == slot::<T>(
                    rest,
                    first[n as int],
                    k as int,
                ),
            decreases k,
        {
            assert(rest[k - 1] == before[k - 1]@);
            k = k - 1;
        }
        assert(k > 0 ==> rest[k - 1] == before[k - 1]@);
        if k < n {
            let item: T = items.remove(n);
            items.insert(k, item);
        }
        proof {
            let x: T::V = first[n as int];
            assert(items@ =~= before.remove(n as int).insert(k as int, before[n as int]));
            assert(held(items@).take(n + 1) =~= rest.insert(k as int, x));
            assert(held(items@).skip(n + 1) =~= first.skip(n + 1)) by {
                let after: Seq<T::V> = held(items@).skip(n + 1);
                assert forall|i: int| 0 <= i < after.len() implies #[trigger] after[i]
                    == first.skip(n + 1)[i] by {
                    assert(held(before).skip(n as int)[i + 1] == first.skip(n as int)[i + 1]);
                }
            }
        }
        n = n + 1;
    }
    proof {
        assert(held(items@).take(n as int) =~= held(items@));
    }
}

} // verus!
