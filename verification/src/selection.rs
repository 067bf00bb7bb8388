//! Choices of places in a sequence.

use vstd::prelude::*;

verus! {

/// Whether places are those below `n` that are wanted, each once and in ascending order.
pub open spec fn selects(places: Seq<int>, n: int, wanted: spec_fn(int) -> bool) -> bool {
    &&& forall|k: int| 0 <= k < places.len() ==> 0 <= #[trigger] places[k] < n && wanted(places[k])
    &&& forall|j: int, k: int|
        0 <= j < k < places.len() ==> #[trigger] places[j] < #[trigger] places[k]
    &&& forall|i: int| 0 <= i < n && #[trigger] wanted(i) ==> places.contains(i)
}

/// The choice of no places.
pub proof fn lemma_select_none(wanted: spec_fn(int) -> bool)
    ensures
        selects(Seq::empty(), 0, wanted),
{
}

/// One more place is chosen exactly if it is wanted.
pub proof fn lemma_select_next(places: Seq<int>, n: int, wanted: spec_fn(int) -> bool)
    requires
        selects(places, n, wanted),
        0 <= n,
    ensures
        wanted(n) ==> selects(places.push(n), n + 1, wanted),
        !wanted(n) ==> selects(places, n + 1, wanted),
{
    let more = places.push(n);
    if wanted(n) {
        assert forall|i: int| 0 <= i < n + 1 && #[trigger] wanted(i) implies more.contains(i) by {
            if i < n {
                assert(places.contains(i));
                assert(more[places.index_of(i)] == i);
            } else {
                assert(more[places.len() as int] == i);
            }
        }
        assert forall|k: int| 0 <= k < more.len() implies 0 <= #[trigger] more[k] < n + 1 && wanted(
            more[k],
        ) by {
            if k < places.len() {
                assert(more[k] == places[k]);
            }
        }
    }
}

} // verus!
