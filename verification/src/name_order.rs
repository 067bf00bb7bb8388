//! The entries of a compound in the order of their names.

use crate::bytes::{
    comes_before, lemma_before_irreflexive, lemma_before_total, lemma_before_transitive,
};
use crate::nbt::{CompoundTag, CompoundView};
use crate::ranking::name_before;
use vstd::prelude::*;
use vstd::utf8::{encode_utf8, encode_utf8_decode_utf8};

verus! {

/// Whether the entry at a place comes before that at another: by its name, or where the names are
/// the same by its place.
pub open spec fn stands_before(c: CompoundView, a: int, b: int) -> bool {
    name_before(c[a].0, c[b].0) || (c[a].0 == c[b].0 && a < b)
}

/// Places in the order of names, with one more put in behind those that it does not come before.
pub open spec fn put_by_name(c: CompoundView, order: Seq<int>, k: int) -> Seq<int>
    decreases order.len(),
{
    if order.len() > 0 && name_before(c[k].0, c[order.last()].0) {
        put_by_name(c, order.drop_last(), k).push(order.last())
    } else {
        order.push(k)
    }
}

/// The places of the first `n` entries in the order of their names.
pub open spec fn first_by_name(c: CompoundView, n: nat) -> Seq<int>
    decreases n,
{
    if n == 0 {
        Seq::empty()
    } else {
        put_by_name(c, first_by_name(c, (n - 1) as nat), n - 1)
    }
}

/// The places of the entries of a compound in the order of their names.
pub open spec fn name_order(c: CompoundView) -> Seq<int> {
    first_by_name(c, c.len())
}

/// The place of the entry that comes `i`-th in the order of names. Every place in that order is
/// one of the compound.
pub open spec fn nth_by_name(c: CompoundView, i: int) -> int {
    let k = name_order(c)[i];
    if 0 <= k < c.len() {
        k
    } else {
        0
    }
}

/// The entries of a compound in the order of their names.
pub open spec fn by_name(c: CompoundView) -> CompoundView {
    Seq::new(c.len(), |i: int| c[nth_by_name(c, i)])
}

/// Whether places among the first `n` stand in the order of names, each once.
spec fn is_ordered(c: CompoundView, order: Seq<int>, n: int) -> bool {
    &&& forall|i: int| 0 <= i < order.len() ==> 0 <= #[trigger] order[i] < n
    &&& forall|i: int, j: int|
        0 <= i < j < order.len() ==> stands_before(c, #[trigger] order[i], #[trigger] order[j])
}

proof fn lemma_stands_transitive(c: CompoundView, x: int, y: int, z: int)
    requires
        stands_before(c, x, y),
        stands_before(c, y, z),
    ensures
        stands_before(c, x, z),
{
    if name_before(c[x].0, c[y].0) && name_before(c[y].0, c[z].0) {
        lemma_before_transitive(
            encode_utf8(c[x].0),
            encode_utf8(c[y].0),
            encode_utf8(c[z].0),
        );
    }
}

proof fn lemma_not_before(a: Seq<char>, b: Seq<char>)
    requires
        !name_before(a, b),
    ensures
        name_before(b, a) || a == b,
{
    lemma_before_total(encode_utf8(a), encode_utf8(b));
    encode_utf8_decode_utf8(a);
    encode_utf8_decode_utf8(b);
}

proof fn lemma_put(c: CompoundView, order: Seq<int>, k: int)
    requires
        is_ordered(c, order, k),
        0 <= k,
    ensures
        is_ordered(c, put_by_name(c, order, k), k + 1),
        put_by_name(c, order, k).len() == order.len() + 1,
        forall|x: int|
            #[trigger] put_by_name(c, order, k).contains(x) <==> order.contains(x) || x == k,
    decreases order.len(),
{
    let r = put_by_name(c, order, k);
    if order.len() > 0 && name_before(c[k].0, c[order.last()].0) {
        let front = order.drop_last();
        let last = order.last();
        let rest = put_by_name(c, front, k);
        lemma_put(c, front, k);
        assert forall|i: int, j: int| 0 <= i < j < r.len() implies stands_before(
            c,
            #[trigger] r[i],
            #[trigger] r[j],
        ) by {
            if j < rest.len() {
                assert(r[i] == rest[i] && r[j] == rest[j]);
            } else {
                assert(r[i] == rest[i]);
                assert(rest.contains(rest[i]));
                if rest[i] != k {
                    let q = front.index_of(rest[i]);
                    assert(front.contains(rest[i]));
                    assert(front[q] == order[q]);
                }
            }
        }
        assert forall|x: int| #[trigger] r.contains(x) <==> order.contains(x) || x == k by {
            assert(order =~= front.push(last));
            if r.contains(x) {
                let q = r.index_of(x);
                if q < rest.len() {
                    assert(rest[q] == x);
                    assert(rest.contains(x));
                    if front.contains(x) {
                        assert(order[front.index_of(x)] == x);
                    }
                } else {
                    assert(order[order.len() - 1] == x);
                }
            }
            if order.contains(x) {
                let q = order.index_of(x);
                if q < front.len() {
                    assert(front[q] == x);
                    assert(front.contains(x));
                } else {
                    assert(r[r.len() - 1] == x);
                }
            }
            if rest.contains(x) {
                assert(r[rest.index_of(x)] == x);
            }
        }
    } else {
        assert forall|i: int, j: int| 0 <= i < j < r.len() implies stands_before(
            c,
            #[trigger] r[i],
            #[trigger] r[j],
        ) by {
            if j < order.len() {
                assert(r[i] == order[i] && r[j] == order[j]);
            } else {
                let last = order.last();
                lemma_not_before(c[k].0, c[last].0);
                assert(stands_before(c, last, k));
                assert(r[i] == order[i]);
                if i < order.len() - 1 {
                    lemma_stands_transitive(c, order[i], last, k);
                }
            }
        }
        assert forall|x: int| #[trigger] r.contains(x) <==> order.contains(x) || x == k by {
            if order.contains(x) {
                assert(r[order.index_of(x)] == x);
            }
            assert(r[order.len() as int] == k);
        }
    }
}

proof fn lemma_first_by_name(c: CompoundView, n: nat)
    ensures
        is_ordered(c, first_by_name(c, n), n as int),
        first_by_name(c, n).len() == n,
        forall|x: int| 0 <= x < n ==> #[trigger] first_by_name(c, n).contains(x),
    decreases n,
{
    if n > 0 {
        lemma_first_by_name(c, (n - 1) as nat);
        lemma_put(c, first_by_name(c, (n - 1) as nat), n - 1);
    }
}

/// The order of names holds every entry of a compound once, each before those whose names come
/// after its own.
pub proof fn law_name_order(c: CompoundView)
    ensures
        name_order(c).len() == c.len(),
        name_order(c).no_duplicates(),
        forall|k: int| 0 <= k < c.len() ==> #[trigger] name_order(c).contains(k),
        forall|i: int|
            0 <= i < c.len() ==> 0 <= #[trigger] name_order(c)[i] < c.len() && nth_by_name(c, i)
                == name_order(c)[i],
        forall|i: int, j: int|
            0 <= i < j < c.len() ==> stands_before(
                c,
                #[trigger] name_order(c)[i],
                #[trigger] name_order(c)[j],
            ),
{
    lemma_first_by_name(c, c.len());
    let o = name_order(c);
    assert forall|i: int, j: int| 0 <= i < o.len() && 0 <= j < o.len() && i != j implies o[i]
        != o[j] by {
        lemma_before_irreflexive(encode_utf8(c[o[i]].0));
        if i < j {
            assert(stands_before(c, o[i], o[j]));
        } else {
            assert(stands_before(c, o[j], o[i]));
        }
    }
}

/// A compound whose names come in order is shown as it stands.
pub proof fn law_ordered_stays(c: CompoundView)
    requires
        forall|i: int, j: int|
            0 <= i < j < c.len() ==> !name_before((#[trigger] c[j]).0, (#[trigger] c[i]).0),
    ensures
        by_name(c) == c,
{
    lemma_ordered_stays(c, c.len());
    assert(by_name(c) =~= c);
}

proof fn lemma_ordered_stays(c: CompoundView, n: nat)
    requires
        n <= c.len(),
        forall|i: int, j: int|
            0 <= i < j < c.len() ==> !name_before((#[trigger] c[j]).0, (#[trigger] c[i]).0),
    ensures
        first_by_name(c, n) == Seq::new(n, |i: int| i),
    decreases n,
{
    if n > 0 {
        lemma_ordered_stays(c, (n - 1) as nat);
    }
    assert(first_by_name(c, n) =~= Seq::new(n, |i: int| i));
}

/// A place is put in where all behind it have later names.
proof fn lemma_put_place(c: CompoundView, order: Seq<int>, k: int, p: int)
    requires
        0 <= p <= order.len(),
        forall|q: int| p <= q < order.len() ==> name_before(c[k].0, c[#[trigger] order[q]].0),
        p == 0 || !name_before(c[k].0, c[order[p - 1]].0),
    ensures
        put_by_name(c, order, k) == order.insert(p, k),
    decreases order.len(),
{
    if p < order.len() {
        assert(name_before(c[k].0, c[order[order.len() - 1]].0));
        lemma_put_place(c, order.drop_last(), k, p);
    }
    assert(put_by_name(c, order, k) =~= order.insert(p, k));
}

/// Indices as integers.
pub open spec fn places(v: Seq<usize>) -> Seq<int> {
    v.map_values(|k: usize| k as int)
}

/// The places of the entries of a compound in the order of their names.
pub fn places_by_name(c: &CompoundTag) -> (r: Vec<usize>)
    ensures
        places(r@) == name_order(c@),
        r@.len() == c.entries@.len(),
        forall|i: int|
            0 <= i < r@.len() ==> (#[trigger] r@[i]) < r@.len() && r@[i] == nth_by_name(c@, i),
{
    let mut order: Vec<usize> = Vec::new();
    let ghost view = c@;
    assert(places(order@) =~= first_by_name(view, 0));
    for k in 0..c.entries.len()
        invariant
            view == c@,
            places(order@) == first_by_name(view, k as nat),
            order@.len() == k,
            forall|i: int| 0 <= i < k ==> (#[trigger] order@[i]) < k,
    {
        let ghost before = places(order@);
        let name = c.entries[k].0.as_str();
        let mut p: usize = order.len();
        while p > 0 && comes_before(
            name.as_bytes(),
            c.entries[order[p - 1]].0.as_str().as_bytes(),
        )
            invariant
                view == c@,
                k < c.entries@.len(),
                name@ == view[k as int].0,
                before == places(order@),
                order@.len() == k,
                p <= k,
                forall|i: int| 0 <= i < k ==> (#[trigger] order@[i]) < k,
                forall|q: int|
                    p <= q < k ==> name_before(view[k as int].0, view[#[trigger] before[q]].0),
            decreases p,
        {
            p -= 1;
        }
        proof {
            lemma_put_place(view, before, k as int, p as int);
        }
        order.insert(p, k);
        assert(places(order@) =~= before.insert(p as int, k as int));
    }
    proof {
        law_name_order(view);
        assert forall|i: int| 0 <= i < order@.len() implies (#[trigger] order@[i]) < order@.len()
            && order@[i] == nth_by_name(view, i) by {
            assert(places(order@)[i] == order@[i]);
            assert(0 <= name_order(view)[i] < view.len());
        }
    }
    order
}

} // verus!
