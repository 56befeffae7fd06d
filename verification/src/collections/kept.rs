//! Lists that come from other lists: by leaving items out, or by moving them.
use vstd::prelude::*;

verus! {

/// Whether `to` holds the items of `from` that pass a test, in their order:
/// `at` gives the place of each.
pub open spec fn kept_at<T>(
    from: Seq<T>,
    to: Seq<T>,
    test: spec_fn(T) -> bool,
    at: Seq<int>,
) -> bool {
    &&& at.len() == to.len()
    &&& forall|i: int| 0 <= i < at.len() ==> 0 <= #[trigger] at[i] < from.len()
    &&& forall|i: int| 0 <= i < at.len() ==> to[i] == from[#[trigger] at[i]]
    &&& forall|i: int, j: int| #![trigger at[i], at[j]] 0 <= i < j < at.len() ==> at[i] < at[j]
    &&& forall|x: int|
        0 <= x < from.len() ==> (test(#[trigger] from[x]) <==> at.contains(x))
}

/// Whether `to` is what is left of `from` by a test: every item that passes it,
/// no other, each as often as before and in the same order.
pub open spec fn keeps<T>(from: Seq<T>, to: Seq<T>, test: spec_fn(T) -> bool) -> bool {
    exists|at: Seq<int>| kept_at(from, to, test, at)
}

/// Whether `to` holds the items of `from`, each as often as before, in the order
/// of `at`.
pub open spec fn moved_by<T>(from: Seq<T>, to: Seq<T>, at: Seq<int>) -> bool {
    &&& at.len() == to.len() == from.len()
    &&& at.no_duplicates()
    &&& forall|i: int| 0 <= i < at.len() ==> 0 <= #[trigger] at[i] < from.len()
    &&& forall|i: int| 0 <= i < at.len() ==> to[i] == from[#[trigger] at[i]]
    &&& forall|x: int| 0 <= x < from.len() ==> #[trigger] at.contains(x)
}

/// One more item: it stays where it passes the test.
pub proof fn lemma_keeps_push<T>(from: Seq<T>, to: Seq<T>, test: spec_fn(T) -> bool, item: T)
    requires
        keeps(from, to, test),
    ensures
        test(item) ==> keeps(from.push(item), to.push(item), test),
        !test(item) ==> keeps(from.push(item), to, test),
{
    let at = choose|at: Seq<int>| kept_at(from, to, test, at);
    let more = from.push(item);
    let n = from.len() as int;
    if test(item) {
        let far = at.push(n);
        assert forall|x: int| 0 <= x < more.len() implies (test(#[trigger] more[x])
            <==> far.contains(x)) by {
            if x < n {
                assert(more[x] == from[x]);
                if at.contains(x) {
                    let i = choose|i: int| 0 <= i < at.len() && at[i] == x;
                    assert(far[i] == x);
                }
                if far.contains(x) {
                    let i = choose|i: int| 0 <= i < far.len() && far[i] == x;
                    assert(at[i] == x);
                }
            } else {
                assert(far[at.len() as int] == x);
            }
        }
        assert(kept_at(more, to.push(item), test, far));
    } else {
        assert forall|x: int| 0 <= x < more.len() implies (test(#[trigger] more[x])
            <==> at.contains(x)) by {
            if x < n {
                assert(more[x] == from[x]);
            } else if at.contains(x) {
                let i = choose|i: int| 0 <= i < at.len() && at[i] == x;
                assert(at[i] < n);
            }
        }
        assert(kept_at(more, to, test, at));
    }
}

/// Of nothing, nothing is left.
pub proof fn lemma_keeps_nothing<T>(test: spec_fn(T) -> bool)
    ensures
        keeps(Seq::<T>::empty(), Seq::<T>::empty(), test),
{
    assert(kept_at(Seq::<T>::empty(), Seq::<T>::empty(), test, Seq::<int>::empty()));
}

/// What is left is what passes the test.
pub proof fn lemma_kept_members<T>(from: Seq<T>, to: Seq<T>, test: spec_fn(T) -> bool)
    requires
        keeps(from, to, test),
    ensures
        forall|x: T| #[trigger] to.contains(x) <==> from.contains(x) && test(x),
{
    let at = choose|at: Seq<int>| kept_at(from, to, test, at);
    assert forall|x: T| #[trigger] to.contains(x) <==> from.contains(x) && test(x) by {
        if to.contains(x) {
            let i = choose|i: int| 0 <= i < to.len() && to[i] == x;
            assert(at.contains(at[i]));
            assert(from[at[i]] == x);
        }
        if from.contains(x) && test(x) {
            let k = choose|k: int| 0 <= k < from.len() && from[k] == x;
            assert(test(from[k]));
            let i = choose|i: int| 0 <= i < at.len() && at[i] == k;
            assert(to[i] == from[at[i]]);
        }
    }
}

} // verus!
