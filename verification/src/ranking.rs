//! Rankings: how often each name occurs, the most frequent first.

use crate::bytes::{
    bytes_before, comes_before, lemma_before_irreflexive, lemma_before_total,
    lemma_before_transitive,
};
use crate::selection::{lemma_select_next, lemma_select_none, selects};
use vstd::prelude::*;
use vstd::utf8::{encode_utf8, encode_utf8_decode_utf8};

verus! {

/// Whether a name comes before another: by the bytes of its UTF-8 form.
pub open spec fn name_before(a: Seq<char>, b: Seq<char>) -> bool {
    bytes_before(encode_utf8(a), encode_utf8(b))
}

/// How often a name occurs.
pub open spec fn occurrences(names: Seq<Seq<char>>, name: Seq<char>) -> nat
    decreases names.len(),
{
    if names.len() == 0 {
        0
    } else if names.last() == name {
        occurrences(names.drop_last(), name) + 1
    } else {
        occurrences(names.drop_last(), name)
    }
}

/// A name and how often it occurs.
pub struct TallyView {
    pub name: Seq<char>,
    pub count: nat,
}

/// A name and how often it occurs.
pub struct Tally {
    pub name: String,
    pub count: usize,
}

impl View for Tally {
    type V = TallyView;

    open spec fn view(&self) -> TallyView {
        TallyView { name: self.name@, count: self.count as nat }
    }
}

/// What tallies hold.
pub open spec fn tally_views(tallies: Seq<Tally>) -> Seq<TallyView> {
    tallies.map_values(|t: Tally| t@)
}

/// Whether a tally ranks before another: its name occurs more often, or as often and comes
/// first.
pub open spec fn ranks_before(a: TallyView, b: TallyView) -> bool {
    a.count > b.count || (a.count == b.count && name_before(a.name, b.name))
}

/// Whether tallies stand in the order of their ranks.
pub open spec fn in_rank_order(r: Seq<TallyView>) -> bool {
    forall|i: int, j: int|
        0 <= i < j < r.len() ==> ranks_before(#[trigger] r[i], #[trigger] r[j])
}

/// Whether tallies hold the names that occur, each once with how often it occurs, in the order
/// of their ranks.
pub open spec fn is_ranking(names: Seq<Seq<char>>, r: Seq<TallyView>) -> bool {
    &&& forall|i: int|
        0 <= i < r.len() ==> (#[trigger] r[i]).count == occurrences(names, r[i].name) && r[i].count
            > 0
    &&& forall|k: int| 0 <= k < names.len() ==> is_tallied(r, #[trigger] names[k])
    &&& in_rank_order(r)
}

/// Whether a name is among tallies.
pub open spec fn is_tallied(r: Seq<TallyView>, name: Seq<char>) -> bool {
    exists|i: int| 0 <= i < r.len() && (#[trigger] r[i]).name == name
}

proof fn lemma_ranks_total(a: TallyView, b: TallyView)
    requires
        a.name != b.name,
    ensures
        ranks_before(a, b) || ranks_before(b, a),
{
    lemma_before_total(encode_utf8(a.name), encode_utf8(b.name));
    encode_utf8_decode_utf8(a.name);
    encode_utf8_decode_utf8(b.name);
}

proof fn lemma_ranks_transitive(a: TallyView, b: TallyView, c: TallyView)
    requires
        ranks_before(a, b),
        ranks_before(b, c),
    ensures
        ranks_before(a, c),
{
    if a.count == b.count && b.count == c.count {
        lemma_before_transitive(encode_utf8(a.name), encode_utf8(b.name), encode_utf8(c.name));
    }
}

proof fn lemma_occurrences_bound(names: Seq<Seq<char>>, name: Seq<char>)
    ensures
        occurrences(names, name) <= names.len(),
    decreases names.len(),
{
    if names.len() > 0 {
        lemma_occurrences_bound(names.drop_last(), name);
    }
}

/// A name that is in no tally does not occur.
proof fn lemma_untallied(names: Seq<Seq<char>>, name: Seq<char>)
    requires
        forall|k: int| 0 <= k < names.len() ==> #[trigger] names[k] != name,
    ensures
        occurrences(names, name) == 0,
    decreases names.len(),
{
    if names.len() > 0 {
        lemma_untallied(names.drop_last(), name);
    }
}

/// Whether the tallies are those of the names, each name once, in any order.
spec fn counts_names(names: Seq<Seq<char>>, r: Seq<TallyView>) -> bool {
    &&& forall|i: int|
        0 <= i < r.len() ==> (#[trigger] r[i]).count == occurrences(names, r[i].name) && r[i].count
            > 0
    &&& forall|k: int| 0 <= k < names.len() ==> is_tallied(r, #[trigger] names[k])
    &&& forall|i: int, j: int|
        0 <= i < j < r.len() ==> (#[trigger] r[i]).name != (#[trigger] r[j]).name
}

fn count_name(tallies: &mut Vec<Tally>, name: &String, Ghost(names): Ghost<Seq<Seq<char>>>)
    requires
        counts_names(names, tally_views(old(tallies)@)),
        names.len() < usize::MAX,
    ensures
        counts_names(names.push(name@), tally_views(final(tallies)@)),
{
    let ghost before = tally_views(tallies@);
    let ghost more = names.push(name@);
    assert(more.drop_last() =~= names);
    assert(forall|n: Seq<char>|
        #[trigger] occurrences(more, n) == occurrences(names, n) + if n == name@ {
            1nat
        } else {
            0nat
        });
    let mut i: usize = 0;
    while i < tallies.len()
        invariant
            i <= tallies@.len(),
            tally_views(tallies@) == before,
            counts_names(names, before),
            names.len() < usize::MAX,
            more == names.push(name@),
            forall|n: Seq<char>|
                #[trigger] occurrences(more, n) == occurrences(names, n) + if n == name@ {
                    1nat
                } else {
                    0nat
                },
            forall|k: int| 0 <= k < i ==> (#[trigger] before[k]).name != name@,
        decreases tallies@.len() - i,
    {
        assert(before[i as int] == tallies@[i as int]@);
        if tallies[i].name == *name {
            proof {
                lemma_occurrences_bound(names, name@);
            }
            let count: usize = tallies[i].count + 1;
            let same = tallies[i].name.clone();
            let grown = Tally { name: same, count };
            tallies.set(i, grown);
            let ghost after = tally_views(tallies@);
            assert(after =~= before.update(i as int, grown@));
            assert forall|k: int| 0 <= k < after.len() implies (#[trigger] after[k]).count
                == occurrences(more, after[k].name) && after[k].count > 0 by {
                if k != i {
                    assert(after[k] == before[k]);
                    if k < i {
                        assert(before[k].name != before[i as int].name);
                    } else {
                        assert(before[i as int].name != before[k].name);
                    }
                }
            }
            assert forall|k: int| 0 <= k < more.len() implies is_tallied(
                after,
                #[trigger] more[k],
            ) by {
                if k < names.len() {
                    assert(is_tallied(before, names[k]));
                    let w = choose|w: int|
                        0 <= w < before.len() && (#[trigger] before[w]).name == names[k];
                    assert(after[w].name == names[k]);
                } else {
                    assert(after[i as int].name == name@);
                }
            }
            assert forall|a: int, b: int| 0 <= a < b < after.len() implies (
            #[trigger] after[a]).name != (#[trigger] after[b]).name by {
                assert(before[a].name != before[b].name);
                assert(after[a].name == before[a].name);
                assert(after[b].name == before[b].name);
            }
            return;
        }
        i += 1;
    }
    let fresh = Tally { name: name.clone(), count: 1 };
    let ghost view = fresh@;
    tallies.push(fresh);
    let ghost after = tally_views(tallies@);
    assert(after =~= before.push(view));
    proof {
        assert forall|k: int| 0 <= k < names.len() implies #[trigger] names[k] != name@ by {
            assert(is_tallied(before, names[k]));
        }
        lemma_untallied(names, name@);
    }
    assert forall|k: int| 0 <= k < after.len() implies (#[trigger] after[k]).count == occurrences(
        more,
        after[k].name,
    ) && after[k].count > 0 by {
        if k < before.len() {
            assert(after[k] == before[k]);
        }
    }
    assert forall|k: int| 0 <= k < more.len() implies is_tallied(after, #[trigger] more[k]) by {
        if k < names.len() {
            assert(is_tallied(before, names[k]));
            let w = choose|w: int| 0 <= w < before.len() && (#[trigger] before[w]).name == names[k];
            assert(after[w].name == names[k]);
        } else {
            assert(after[before.len() as int].name == name@);
        }
    }
}

/// Whether a tally is among others.
spec fn is_among(s: Seq<TallyView>, t: TallyView) -> bool {
    exists|m: int| 0 <= m < s.len() && #[trigger] s[m] == t
}

fn rank_of(sorted: &Vec<Tally>, t: &Tally) -> (r: usize)
    ensures
        r <= sorted@.len(),
        forall|k: int| 0 <= k < r ==> !ranks_before(t@, #[trigger] tally_views(sorted@)[k]),
        r < sorted@.len() ==> ranks_before(t@, tally_views(sorted@)[r as int]),
{
    let mut i: usize = 0;
    while i < sorted.len()
        invariant
            i <= sorted@.len(),
            forall|k: int| 0 <= k < i ==> !ranks_before(t@, #[trigger] tally_views(sorted@)[k]),
        decreases sorted@.len() - i,
    {
        let other = &sorted[i];
        assert(tally_views(sorted@)[i as int] == other@);
        if t.count > other.count || (t.count == other.count && comes_before(
            t.name.as_str().as_bytes(),
            other.name.as_str().as_bytes(),
        )) {
            return i;
        }
        i += 1;
    }
    i
}

/// The names that occur, each with how often it occurs, in the order of their ranks.
pub fn rank_names(names: &Vec<String>) -> (r: Vec<Tally>)
    ensures
        is_ranking(names@.map_values(|s: String| s@), tally_views(r@)),
{
    let ghost all = names@.map_values(|s: String| s@);
    let mut tallies: Vec<Tally> = Vec::new();
    for i in 0..names.len()
        invariant
            all == names@.map_values(|s: String| s@),
            counts_names(all.take(i as int), tally_views(tallies@)),
    {
        count_name(&mut tallies, &names[i], Ghost(all.take(i as int)));
        assert(all.take(i as int).push(names@[i as int]@) =~= all.take(i + 1));
    }
    assert(all.take(names@.len() as int) =~= all);
    let ghost counted = tally_views(tallies@);
    let ghost source = tallies@;
    let mut out: Vec<Tally> = Vec::new();
    for t in it: tallies.into_iter()
        invariant
            it.seq() == source,
            counted == tally_views(source),
            counts_names(all, counted),
            out@.len() == it.index(),
            in_rank_order(tally_views(out@)),
            forall|k: int|
                0 <= k < it.index() ==> is_tallied(
                    tally_views(out@),
                    (#[trigger] counted[k]).name,
                ),
            forall|k: int|
                0 <= k < out@.len() ==> is_among(
                    counted.take(it.index() as int),
                    #[trigger] tally_views(out@)[k],
                ),
    {
        let ghost n = it.index() as int;
        let ghost before = tally_views(out@);
        let ghost new = t@;
        assert(new == counted[n]);
        let p: usize = rank_of(&out, &t);
        assert(before.len() == out@.len());
        assert forall|k: int| 0 <= k < before.len() implies before[k].name != new.name by {
            assert(is_among(counted.take(n), before[k]));
            let m = choose|m: int| 0 <= m < n && #[trigger] counted.take(n)[m] == before[k];
            assert(counted[m].name != counted[n].name);
        }
        out.insert(p, t);
        let ghost after = tally_views(out@);
        assert(after =~= before.insert(p as int, new));
        assert forall|i: int, j: int| 0 <= i < j < after.len() implies ranks_before(
            #[trigger] after[i],
            #[trigger] after[j],
        ) by {
            if j < p {
                assert(after[i] == before[i] && after[j] == before[j]);
            } else if j == p {
                assert(after[i] == before[i]);
                lemma_ranks_total(before[i], new);
            } else if i == p {
                assert(after[j] == before[j - 1]);
                if j - 1 > p {
                    assert(ranks_before(before[p as int], before[j - 1]));
                    lemma_ranks_transitive(new, before[p as int], before[j - 1]);
                }
            } else if i < p {
                assert(after[i] == before[i] && after[j] == before[j - 1]);
            } else {
                assert(after[i] == before[i - 1] && after[j] == before[j - 1]);
            }
        }
        assert forall|k: int| 0 <= k < n + 1 implies is_tallied(
            after,
            (#[trigger] counted[k]).name,
        ) by {
            if k < n {
                assert(is_tallied(before, counted[k].name));
                let w = choose|w: int|
                    0 <= w < before.len() && (#[trigger] before[w]).name == counted[k].name;
                if w < p {
                    assert(after[w] == before[w]);
                } else {
                    assert(after[w + 1] == before[w]);
                }
            } else {
                assert(after[p as int] == new);
            }
        }
        assert forall|k: int| 0 <= k < after.len() implies is_among(
            counted.take(n + 1),
            #[trigger] after[k],
        ) by {
            if k == p {
                assert(counted.take(n + 1)[n] == after[k]);
            } else {
                let q = if k < p {
                    k
                } else {
                    k - 1
                };
                assert(after[k] == before[q]);
                assert(is_among(counted.take(n), before[q]));
                let m = choose|m: int| 0 <= m < n && #[trigger] counted.take(n)[m] == before[q];
                assert(counted.take(n + 1)[m] == after[k]);
            }
        }
    }
    assert(counted.take(counted.len() as int) =~= counted);
    proof {
        let r = tally_views(out@);
        assert forall|k: int| 0 <= k < r.len() implies (#[trigger] r[k]).count == occurrences(
            all,
            r[k].name,
        ) && r[k].count > 0 by {
            assert(is_among(counted, r[k]));
        }
        assert forall|k: int| 0 <= k < all.len() implies is_tallied(r, #[trigger] all[k]) by {
            assert(is_tallied(counted, all[k]));
            let w = choose|w: int| 0 <= w < counted.len() && (#[trigger] counted[w]).name == all[k];
            assert(is_tallied(r, counted[w].name));
        }
    }
    out
}

/// A tally of one ranking stands in every other.
proof fn lemma_ranked_in_both(
    names: Seq<Seq<char>>,
    a: Seq<TallyView>,
    b: Seq<TallyView>,
    i: int,
) -> (w: int)
    requires
        is_ranking(names, a),
        is_ranking(names, b),
        0 <= i < a.len(),
    ensures
        0 <= w < b.len(),
        b[w] == a[i],
{
    let name = a[i].name;
    assert(occurrences(names, name) > 0);
    if forall|k: int| 0 <= k < names.len() ==> #[trigger] names[k] != name {
        lemma_untallied(names, name);
    }
    let k = choose|k: int| 0 <= k < names.len() && #[trigger] names[k] == name;
    assert(is_tallied(b, names[k]));
    let w = choose|w: int| 0 <= w < b.len() && (#[trigger] b[w]).name == name;
    assert(b[w].count == occurrences(names, name));
    assert(a[i].count == occurrences(names, name));
    w
}

proof fn lemma_rankings_agree(names: Seq<Seq<char>>, a: Seq<TallyView>, b: Seq<TallyView>, i: int)
    requires
        is_ranking(names, a),
        is_ranking(names, b),
        0 <= i <= a.len(),
    ensures
        i <= b.len(),
        a.take(i) == b.take(i),
    decreases i,
{
    if i > 0 {
        let n = i - 1;
        lemma_rankings_agree(names, a, b, n);
        let w = lemma_ranked_in_both(names, a, b, n);
        lemma_before_irreflexive(encode_utf8(a[n].name));
        if w < n {
            assert(a.take(n)[w] == b.take(n)[w]);
            assert(ranks_before(a[w], a[n]));
        }
        if w > n {
            let v = lemma_ranked_in_both(names, b, a, n);
            assert(ranks_before(b[n], b[w]));
            if v < n {
                lemma_before_irreflexive(encode_utf8(b[n].name));
                assert(a.take(n)[v] == b.take(n)[v]);
                assert(ranks_before(b[v], b[n]));
            } else if v > n {
                assert(ranks_before(a[n], a[v]));
                lemma_ranks_transitive(a[n], b[n], a[n]);
            }
        }
        assert(a.take(i) =~= a.take(n).push(a[n]));
        assert(b.take(i) =~= b.take(n).push(b[n]));
    } else {
        assert(a.take(0) =~= b.take(0));
    }
}

/// There is only one ranking of names.
pub proof fn law_ranking_is_unique(names: Seq<Seq<char>>, a: Seq<TallyView>, b: Seq<TallyView>)
    requires
        is_ranking(names, a),
        is_ranking(names, b),
    ensures
        a == b,
{
    lemma_rankings_agree(names, a, b, a.len() as int);
    lemma_rankings_agree(names, b, a, b.len() as int);
    assert(a.take(a.len() as int) =~= a);
    assert(b.take(b.len() as int) =~= b);
}

/// How often a name occurs is the number of its places.
pub proof fn law_occurrences(names: Seq<Seq<char>>, name: Seq<char>) -> (places: Seq<int>)
    ensures
        selects(places, names.len() as int, |i: int| names[i] == name),
        places.len() == occurrences(names, name),
{
    assert(names.take(names.len() as int) =~= names);
    lemma_name_places(names, name, names.len())
}

proof fn lemma_name_places(names: Seq<Seq<char>>, name: Seq<char>, n: nat) -> (places: Seq<int>)
    requires
        n <= names.len(),
    ensures
        selects(places, n as int, |i: int| names[i] == name),
        places.len() == occurrences(names.take(n as int), name),
    decreases n,
{
    let wanted = |i: int| names[i] == name;
    if n == 0 {
        lemma_select_none(wanted);
        Seq::empty()
    } else {
        let m = n - 1;
        let before = lemma_name_places(names, name, m as nat);
        lemma_select_next(before, m, wanted);
        assert(names.take(n as int).drop_last() =~= names.take(m));
        assert(names.take(n as int).last() == names[m]);
        if wanted(m) {
            before.push(m)
        } else {
            before
        }
    }
}

/// A ranking holds every name that occurs, once and with how often it occurs, and no other. More
/// frequent names come first, and names that are as frequent in the order of their bytes.
pub proof fn law_most_frequent_first(names: Seq<Seq<char>>, r: Seq<TallyView>)
    requires
        is_ranking(names, r),
    ensures
        forall|i: int, j: int|
            0 <= i < j < r.len() ==> (#[trigger] r[i]).count >= (#[trigger] r[j]).count && r[i].name
                != r[j].name && (r[i].count == r[j].count ==> bytes_before(
                encode_utf8(r[i].name),
                encode_utf8(r[j].name),
            )),
        forall|i: int|
            0 <= i < r.len() ==> (#[trigger] r[i]).count == occurrences(names, r[i].name)
                && names.contains(r[i].name),
        forall|k: int|
            0 <= k < names.len() ==> r.map_values(|t: TallyView| t.name).contains(
                #[trigger] names[k],
            ),
{
    assert forall|i: int, j: int| 0 <= i < j < r.len() implies (#[trigger] r[i]).count >= (
    #[trigger] r[j]).count && r[i].name != r[j].name && (r[i].count == r[j].count ==> bytes_before(
        encode_utf8(r[i].name),
        encode_utf8(r[j].name),
    )) by {
        assert(ranks_before(r[i], r[j]));
        lemma_before_irreflexive(encode_utf8(r[i].name));
    }
    assert forall|i: int| 0 <= i < r.len() implies (#[trigger] r[i]).count == occurrences(
        names,
        r[i].name,
    ) && names.contains(r[i].name) by {
        if !names.contains(r[i].name) {
            lemma_untallied(names, r[i].name);
        }
    }
    let shown = r.map_values(|t: TallyView| t.name);
    assert forall|k: int| 0 <= k < names.len() implies shown.contains(#[trigger] names[k]) by {
        assert(is_tallied(r, names[k]));
        let i = choose|i: int| 0 <= i < r.len() && (#[trigger] r[i]).name == names[k];
        assert(shown[i] == names[k]);
    }
}

} // verus!
