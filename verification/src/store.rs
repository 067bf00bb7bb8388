//! The content of a database: entries in the order of their keys.

use crate::bytes::{
    bytes_before, bytes_equal, comes_before, copy_bytes, first_difference, has_prefix,
    lemma_before_irreflexive, lemma_before_transitive, starts_with,
};
use vstd::prelude::*;

verus! {

/// One entry of a database.
pub struct DbEntry {
    pub key: Vec<u8>,
    pub value: Vec<u8>,
}

/// What one entry of a database holds.
pub struct EntryView {
    pub key: Seq<u8>,
    pub value: Seq<u8>,
}

impl View for DbEntry {
    type V = EntryView;

    open spec fn view(&self) -> EntryView {
        EntryView { key: self.key@, value: self.value@ }
    }
}

impl Clone for DbEntry {
    fn clone(&self) -> (r: DbEntry)
        ensures
            r@ == self@,
    {
        DbEntry { key: copy_bytes(self.key.as_slice()), value: copy_bytes(self.value.as_slice()) }
    }
}

/// What entries hold.
pub open spec fn entry_views(entries: Seq<DbEntry>) -> Seq<EntryView> {
    entries.map_values(|e: DbEntry| e@)
}

/// Whether entries stand in strictly ascending order of their keys.
pub open spec fn in_key_order(entries: Seq<EntryView>) -> bool {
    forall|i: int, j: int|
        0 <= i < j < entries.len() ==> bytes_before(
            (#[trigger] entries[i]).key,
            (#[trigger] entries[j]).key,
        )
}

/// The entries whose keys begin with a prefix.
pub open spec fn with_prefix(entries: Seq<EntryView>, prefix: Seq<u8>) -> Seq<EntryView> {
    entries.filter(|e: EntryView| has_prefix(e.key, prefix))
}

/// A key with a prefix does not come before the prefix.
proof fn lemma_prefixed_not_before(key: Seq<u8>, prefix: Seq<u8>)
    requires
        has_prefix(key, prefix),
    ensures
        !bytes_before(key, prefix),
{
    if bytes_before(key, prefix) {
        let i = choose|i: int|
            first_difference(key, prefix, i) && i < prefix.len() && (i == key.len() || key[i]
                < prefix[i]);
        assert(key.subrange(0, prefix.len() as int)[i] == prefix[i]);
    }
}

/// Past the keys with a prefix no further key has it.
proof fn lemma_past_prefix(a: Seq<u8>, b: Seq<u8>, prefix: Seq<u8>)
    requires
        !bytes_before(a, prefix),
        !has_prefix(a, prefix),
        bytes_before(a, b),
    ensures
        !has_prefix(b, prefix),
{
    if has_prefix(b, prefix) {
        let i = choose|i: int|
            first_difference(a, b, i) && i < b.len() && (i == a.len() || a[i] < b[i]);
        assert forall|k: int| 0 <= k < i implies a[k] == b[k] by {
            assert(a.subrange(0, i)[k] == b.subrange(0, i)[k]);
        }
        assert forall|k: int| 0 <= k < prefix.len() implies b[k] == prefix[k] by {
            assert(b.subrange(0, prefix.len() as int)[k] == prefix[k]);
        }
        if i < prefix.len() {
            assert(a.subrange(0, i) =~= prefix.subrange(0, i));
            assert(first_difference(a, prefix, i));
        } else {
            assert(a.subrange(0, prefix.len() as int) =~= prefix);
        }
    }
}

/// Where exactly a stretch of a sequence satisfies a condition, filtering gives the stretch.
pub proof fn lemma_filter_stretch<A>(s: Seq<A>, f: spec_fn(A) -> bool, lo: int, hi: int)
    requires
        0 <= lo <= hi <= s.len(),
        forall|i: int| 0 <= i < s.len() ==> (#[trigger] f(s[i]) <==> lo <= i < hi),
    ensures
        s.filter(f) == s.subrange(lo, hi),
    decreases s.len(),
{
    reveal(Seq::filter);
    if s.len() > 0 {
        let t = s.drop_last();
        let n = s.len() - 1;
        assert forall|i: int| 0 <= i < t.len() implies (#[trigger] f(t[i]) <==> lo <= i < hi) by {
            assert(f(s[i]) <==> lo <= i < hi);
        }
        assert(f(s[n]) <==> lo <= n < hi);
        if hi == s.len() && lo < hi {
            lemma_filter_stretch(t, f, lo, n);
            assert(t.subrange(lo, n).push(s[n]) =~= s.subrange(lo, hi));
        } else if hi == s.len() {
            assert forall|i: int| 0 <= i < t.len() implies (#[trigger] f(t[i]) <==> 0 <= i < 0) by {
                assert(f(s[i]) <==> lo <= i < hi);
            }
            lemma_filter_stretch(t, f, 0, 0);
            assert(t.subrange(0, 0) =~= s.subrange(lo, hi));
        } else {
            lemma_filter_stretch(t, f, lo, hi);
            assert(t.subrange(lo, hi) =~= s.subrange(lo, hi));
        }
    } else {
        assert(s.subrange(lo, hi) =~= s);
    }
}

/// Filtering one more element.
pub proof fn lemma_filter_step<A>(s: Seq<A>, f: spec_fn(A) -> bool, i: int)
    requires
        0 <= i < s.len(),
    ensures
        s.take(i + 1).filter(f) == if f(s[i]) {
            s.take(i).filter(f).push(s[i])
        } else {
            s.take(i).filter(f)
        },
{
    reveal(Seq::filter);
    assert(s.take(i + 1).drop_last() =~= s.take(i));
}

/// A filter keeps exactly what satisfies its condition.
pub proof fn lemma_filter_exact(s: Seq<EntryView>, f: spec_fn(EntryView) -> bool, e: EntryView)
    ensures
        s.filter(f).contains(e) <==> s.contains(e) && f(e),
{
    if s.contains(e) && f(e) {
        let i = choose|i: int| 0 <= i < s.len() && s[i] == e;
        s.lemma_filter_contains(f, i);
    }
    if s.filter(f).contains(e) {
        let i = choose|i: int| 0 <= i < s.filter(f).len() && s.filter(f)[i] == e;
        s.lemma_filter_pred(f, i);
        s.lemma_filter_contains_rev(f, e);
    }
}

/// The content of a database, read in one pass.
pub struct Snapshot {
    entries: Vec<DbEntry>,
}

impl View for Snapshot {
    type V = Seq<EntryView>;

    closed spec fn view(&self) -> Seq<EntryView> {
        entry_views(self.entries@)
    }
}

impl Snapshot {
    /// Whether the entries stand in the order of their keys, each key once.
    pub open spec fn wf(&self) -> bool {
        in_key_order(self@)
    }

    /// Takes over entries that stand in the order of their keys, and refuses others.
    pub fn new(entries: Vec<DbEntry>) -> (r: Option<Snapshot>)
        ensures
            match r {
                Some(s) => s.wf() && s@ == entry_views(entries@),
                None => !in_key_order(entry_views(entries@)),
            },
    {
        let ghost all = entry_views(entries@);
        let mut i: usize = 1;
        while i < entries.len()
            invariant
                1 <= i,
                i <= entries.len() || entries.len() == 0,
                all == entry_views(entries@),
                forall|a: int, b: int|
                    0 <= a < b < i && b < all.len() ==> bytes_before(
                        (#[trigger] all[a]).key,
                        (#[trigger] all[b]).key,
                    ),
            decreases entries.len() - i,
        {
            if !comes_before(entries[i - 1].key.as_slice(), entries[i].key.as_slice()) {
                assert(!bytes_before(all[i - 1].key, all[i as int].key));
                return None;
            }
            assert forall|a: int, b: int| 0 <= a < b < i + 1 && b < all.len() implies bytes_before(
                (#[trigger] all[a]).key,
                (#[trigger] all[b]).key,
            ) by {
                if b == i && a < i - 1 {
                    assert(bytes_before(all[a].key, all[i - 1].key));
                    lemma_before_transitive(all[a].key, all[i - 1].key, all[b].key);
                }
            }
            i += 1;
        }
        Some(Snapshot { entries })
    }

    /// The entries, in the order of their keys.
    pub fn entries(&self) -> (r: &Vec<DbEntry>)
        ensures
            entry_views(r@) == self@,
    {
        &self.entries
    }

    /// The first entry that does not come before a key.
    fn seek(&self, key: &[u8]) -> (r: usize)
        requires
            self.wf(),
        ensures
            r <= self@.len(),
            r <= self.entries@.len(),
            forall|i: int| 0 <= i < r ==> bytes_before((#[trigger] self@[i]).key, key@),
            forall|i: int| r <= i < self@.len() ==> !bytes_before((#[trigger] self@[i]).key, key@),
    {
        let mut lo: usize = 0;
        let mut hi: usize = self.entries.len();
        while lo < hi
            invariant
                self.wf(),
                lo <= hi <= self.entries.len(),
                self@.len() == self.entries@.len(),
                forall|i: int| 0 <= i < lo ==> bytes_before((#[trigger] self@[i]).key, key@),
                forall|i: int|
                    hi <= i < self@.len() ==> !bytes_before((#[trigger] self@[i]).key, key@),
            decreases hi - lo,
        {
            let mid: usize = lo + (hi - lo) / 2;
            let ghost at = self@[mid as int].key;
            assert(at == self.entries@[mid as int].key@);
            if comes_before(self.entries[mid].key.as_slice(), key) {
                assert forall|i: int| 0 <= i < mid + 1 implies bytes_before(
                    (#[trigger] self@[i]).key,
                    key@,
                ) by {
                    if i < mid {
                        lemma_before_transitive(self@[i].key, at, key@);
                    }
                }
                lo = mid + 1;
            } else {
                assert forall|i: int| mid <= i < self@.len() implies !bytes_before(
                    (#[trigger] self@[i]).key,
                    key@,
                ) by {
                    if mid < i && bytes_before(self@[i].key, key@) {
                        lemma_before_transitive(at, self@[i].key, key@);
                    }
                }
                hi = mid;
            }
        }
        lo
    }

    /// The value under a key.
    pub fn get(&self, key: &[u8]) -> (r: Option<&Vec<u8>>)
        requires
            self.wf(),
        ensures
            match r {
                Some(v) => exists|i: int|
                    0 <= i < self@.len() && (#[trigger] self@[i]).key == key@ && self@[i].value
                        == v@,
                None => forall|i: int| 0 <= i < self@.len() ==> (#[trigger] self@[i]).key != key@,
            },
    {
        let at: usize = self.seek(key);
        assert(self@.len() == self.entries@.len());
        if at < self.entries.len() && bytes_equal(self.entries[at].key.as_slice(), key) {
            assert(self@[at as int].key == key@);
            return Some(&self.entries[at].value);
        }
        assert forall|i: int| 0 <= i < self@.len() implies (#[trigger] self@[i]).key != key@ by {
            lemma_before_irreflexive(key@);
            if i < at {
                assert(bytes_before(self@[i].key, key@));
            } else if i > at {
                assert(bytes_before(self@[at as int].key, self@[i].key));
                assert(!bytes_before(self@[at as int].key, key@));
            } else {
                assert(self@[i].key == self.entries@[i].key@);
            }
        }
        None
    }

    /// The entries whose keys begin with a prefix.
    pub fn scan_prefix(&self, prefix: &[u8]) -> (r: Vec<DbEntry>)
        requires
            self.wf(),
        ensures
            entry_views(r@) == with_prefix(self@, prefix@),
    {
        let start: usize = self.seek(prefix);
        let mut out: Vec<DbEntry> = Vec::new();
        let mut i: usize = start;
        assert(entry_views(out@) =~= self@.subrange(start as int, start as int));
        while i < self.entries.len() && starts_with(self.entries[i].key.as_slice(), prefix)
            invariant
                start <= i <= self.entries.len(),
                self@.len() == self.entries@.len(),
                entry_views(out@) == self@.subrange(start as int, i as int),
                forall|k: int| start <= k < i ==> has_prefix((#[trigger] self@[k]).key, prefix@),
            decreases self.entries.len() - i,
        {
            assert(has_prefix(self@[i as int].key, prefix@));
            let ghost before = entry_views(out@);
            out.push(self.entries[i].clone());
            assert(entry_views(out@) =~= before.push(self@[i as int]));
            i += 1;
            assert(entry_views(out@) =~= self@.subrange(start as int, i as int));
        }
        proof {
            let f = |e: EntryView| has_prefix(e.key, prefix@);
            assert forall|k: int| 0 <= k < self@.len() implies (#[trigger] f(self@[k]) <==> start
                <= k < i) by {
                if k < start {
                    assert(bytes_before(self@[k].key, prefix@));
                    if has_prefix(self@[k].key, prefix@) {
                        lemma_prefixed_not_before(self@[k].key, prefix@);
                    }
                } else if i < k {
                    assert(!has_prefix(self@[i as int].key, prefix@));
                    lemma_past_prefix(self@[i as int].key, self@[k].key, prefix@);
                }
            }
            lemma_filter_stretch(self@, f, start as int, i as int);
        }
        out
    }
}

} // verus!
