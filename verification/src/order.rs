//! Keeping things in order: values put one by one behind those they do not go before, so that
//! equals stay as they came.

use vstd::prelude::*;

verus! {

/// `x` put among sorted values, behind those it does not go before.
pub open spec fn inserted<A>(sorted: Seq<A>, x: A, before: spec_fn(A, A) -> bool) -> Seq<A>
    decreases sorted.len(),
{
    if sorted.len() > 0 && before(x, sorted.last()) {
        inserted(sorted.drop_last(), x, before).push(sorted.last())
    } else {
        sorted.push(x)
    }
}

/// `items` in order, equals as they came.
pub open spec fn sorted<A>(items: Seq<A>, before: spec_fn(A, A) -> bool) -> Seq<A>
    decreases items.len(),
{
    if items.len() == 0 {
        seq![]
    } else {
        inserted(sorted(items.drop_last(), before), items.last(), before)
    }
}

/// No value goes before one that stands in front of it.
pub open spec fn in_order<A>(items: Seq<A>, before: spec_fn(A, A) -> bool) -> bool {
    forall|i: int, j: int|
        0 <= i < j < items.len() ==> !before(#[trigger] items[j], #[trigger] items[i])
}

/// `before` ranks values: nothing goes before what goes before it, and not going before is
/// transitive.
pub open spec fn ranks<A>(before: spec_fn(A, A) -> bool) -> bool {
    &&& forall|a: A, b: A| #[trigger] before(a, b) ==> !before(b, a)
    &&& forall|a: A, b: A, c: A|
        !(#[trigger] before(a, b)) && !(#[trigger] before(b, c)) ==> !before(a, c)
}

/// Inserting is putting at the place behind the last value that does not go after.
pub proof fn lemma_inserted_at<A>(
    items: Seq<A>,
    x: A,
    before: spec_fn(A, A) -> bool,
    k: int,
)
    requires
        0 <= k <= items.len(),
        k > 0 ==> !before(x, items[k - 1]),
        forall|j: int| k <= j < items.len() ==> before(x, #[trigger] items[j]),
    ensures
        inserted(items, x, before) == items.insert(k, x),
    decreases items.len(),
{
    if k < items.len() {
        let front = items.drop_last();
        lemma_inserted_at(front, x, before, k);
        assert(items.insert(k, x) =~= front.insert(k, x).push(items.last()));
    } else {
        assert(items.insert(k, x) =~= items.push(x));
    }
}

/// Inserting adds the value.
pub proof fn lemma_inserted_holds<A>(items: Seq<A>, x: A, before: spec_fn(A, A) -> bool)
    ensures
        inserted(items, x, before).to_multiset() == items.to_multiset().insert(x),
        inserted(items, x, before).len() == items.len() + 1,
    decreases items.len(),
{
    broadcast use vstd::seq_lib::group_to_multiset_ensures;

    if items.len() > 0 && before(x, items.last()) {
        let front = items.drop_last();
        lemma_inserted_holds(front, x, before);
        assert(front.push(items.last()) =~= items);
        assert(inserted(items, x, before).to_multiset() =~= items.to_multiset().insert(x));
    } else {
        assert(inserted(items, x, before).to_multiset() =~= items.to_multiset().insert(x));
    }
}

/// Inserting keeps the order.
pub proof fn lemma_inserted<A>(items: Seq<A>, x: A, before: spec_fn(A, A) -> bool)
    requires
        ranks(before),
        in_order(items, before),
    ensures
        in_order(inserted(items, x, before), before),
    decreases items.len(),
{
    broadcast use vstd::seq_lib::group_to_multiset_ensures;

    let all = inserted(items, x, before);
    if items.len() > 0 && before(x, items.last()) {
        let front = items.drop_last();
        let inner = inserted(front, x, before);
        lemma_inserted(front, x, before);
        lemma_inserted_holds(front, x, before);
        assert forall|i: int, j: int| 0 <= i < j < all.len() implies !before(
            #[trigger] all[j],
            #[trigger] all[i],
        ) by {
            assert(all[i] == inner[i]);
            if j == all.len() - 1 {
                assert(inner.to_multiset().count(inner[i]) > 0);
                if inner[i] != x {
                    assert(front.contains(inner[i]));
                    let m = choose|m: int| 0 <= m < front.len() && front[m] == inner[i];
                    assert(!before(items[items.len() - 1], items[m]));
                }
            } else {
                assert(all[j] == inner[j]);
            }
        }
    } else {
        assert forall|i: int, j: int| 0 <= i < j < all.len() implies !before(
            #[trigger] all[j],
            #[trigger] all[i],
        ) by {
            if j == all.len() - 1 {
                let last = items.last();
                if i < items.len() - 1 {
                    assert(!before(items[items.len() - 1], items[i]));
                    assert(!before(x, last) && !before(last, items[i]));
                }
            }
        }
    }
}

/// Sorting puts the values in order and keeps each of them.
pub proof fn lemma_sorted<A>(items: Seq<A>, before: spec_fn(A, A) -> bool)
    requires
        ranks(before),
    ensures
        in_order(sorted(items, before), before),
        sorted(items, before).to_multiset() == items.to_multiset(),
        sorted(items, before).len() == items.len(),
    decreases items.len(),
{
    broadcast use vstd::seq_lib::group_to_multiset_ensures;

    if items.len() > 0 {
        let front = items.drop_last();
        lemma_sorted(front, before);
        lemma_inserted(sorted(front, before), items.last(), before);
        lemma_inserted_holds(sorted(front, before), items.last(), before);
        assert(front.push(items.last()) =~= items);
    }
}

/// What is in order is left as it is.
pub proof fn lemma_sorted_fixed<A>(items: Seq<A>, before: spec_fn(A, A) -> bool)
    requires
        in_order(items, before),
    ensures
        sorted(items, before) == items,
    decreases items.len(),
{
    if items.len() > 0 {
        let front = items.drop_last();
        assert forall|i: int, j: int| 0 <= i < j < front.len() implies !before(
            #[trigger] front[j],
            #[trigger] front[i],
        ) by {
            assert(!before(items[j], items[i]));
        }
        lemma_sorted_fixed(front, before);
        if front.len() > 0 {
            assert(!before(items[items.len() - 1], items[items.len() - 2]));
        }
        assert(front.push(items.last()) =~= items);
    }
}

proof fn lemma_inserted_stable<A>(
    items: Seq<A>,
    x: A,
    before: spec_fn(A, A) -> bool,
    alike: spec_fn(A) -> bool,
)
    requires
        forall|a: A, b: A| alike(a) && alike(b) ==> !#[trigger] before(a, b),
    ensures
        inserted(items, x, before).filter(alike) == items.push(x).filter(alike),
    decreases items.len(),
{
    reveal_with_fuel(Seq::filter, 3);
    assert(items.push(x).drop_last() =~= items);
    if items.len() > 0 && before(x, items.last()) {
        let front = items.drop_last();
        let inner = inserted(front, x, before);
        lemma_inserted_stable(front, x, before, alike);
        assert(inner.push(items.last()).drop_last() =~= inner);
        assert(front.push(x).drop_last() =~= front);
    }
}

/// Sorting leaves values that are ranked alike as they came.
pub proof fn sorting_keeps_equals_as_they_came<A>(
    items: Seq<A>,
    before: spec_fn(A, A) -> bool,
    alike: spec_fn(A) -> bool,
)
    requires
        forall|a: A, b: A| alike(a) && alike(b) ==> !#[trigger] before(a, b),
    ensures
        sorted(items, before).filter(alike) == items.filter(alike),
    decreases items.len(),
{
    reveal_with_fuel(Seq::filter, 3);
    if items.len() > 0 {
        let front = items.drop_last();
        let done = sorted(front, before);
        sorting_keeps_equals_as_they_came(front, before, alike);
        lemma_inserted_stable(done, items.last(), before, alike);
        assert(done.push(items.last()).drop_last() =~= done);
    }
}

/// Something that is kept in order.
pub trait Ranked: View + Sized {
    /// Which of two values goes first.
    spec fn rank() -> spec_fn(Self::V, Self::V) -> bool;

    /// What comparing relies on.
    spec fn ready(&self) -> bool;

    /// Whether `self` goes before `other`.
    fn goes_before(&self, other: &Self) -> (r: bool)
        requires
            self.ready(),
            other.ready(),
        ensures
            r == Self::rank()(self@, other@),
    ;
}

/// Values as mathematical values.
pub open spec fn views<T: View>(items: Seq<T>) -> Seq<T::V> {
    items.map_values(|t: T| t@)
}

/// Puts `x` into sorted values, behind those it does not go before.
pub fn insert<T: Ranked>(out: &mut Vec<T>, x: T)
    requires
        x.ready(),
        forall|i: int| 0 <= i < old(out)@.len() ==> (#[trigger] old(out)@[i]).ready(),
    ensures
        forall|i: int| 0 <= i < final(out)@.len() ==> (#[trigger] final(out)@[i]).ready(),
        views(final(out)@) == inserted(views(old(out)@), x@, T::rank()),
{
    let mut k: usize = out.len();
    while k > 0 && x.goes_before(&out[k - 1])
        invariant
            k <= out@.len(),
            out@ == old(out)@,
            x.ready(),
            forall|i: int| 0 <= i < out@.len() ==> (#[trigger] out@[i]).ready(),
            forall|j: int| k <= j < out@.len() ==> T::rank()(x@, #[trigger] views(out@)[j]),
        decreases k,
    {
        k -= 1;
    }
    let ghost sorted = views(out@);
    let ghost added = x@;
    proof {
        lemma_inserted_at(sorted, added, T::rank(), k as int);
    }
    out.insert(k, x);
    assert(views(out@) =~= sorted.insert(k as int, added));
}

} // verus!
