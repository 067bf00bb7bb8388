//! Import into a database, entry by entry.
//!
//! The database stands with the caller, who says whether it holds a key. What becomes of it is
//! stated over its content as a map.

use crate::bytes::{bytes_before, lemma_before_irreflexive};
use crate::store::{entry_views, in_key_order, DbEntry, EntryView};
use vstd::prelude::*;

verus! {

/// The content of a database by its keys.
pub type Content = Map<Seq<u8>, Seq<u8>>;

/// Whether an import writes an entry: always, or only where the key is not there yet.
pub open spec fn writes(content: Content, e: EntryView, skip_existing: bool) -> bool {
    !(skip_existing && content.contains_key(e.key))
}

/// The content of a database once the first `n` entries were imported.
pub open spec fn imported(
    content: Content,
    entries: Seq<EntryView>,
    skip_existing: bool,
    n: nat,
) -> Content
    decreases n,
{
    if n == 0 {
        content
    } else {
        let before = imported(content, entries, skip_existing, (n - 1) as nat);
        let e = entries[n - 1];
        if writes(before, e, skip_existing) {
            before.insert(e.key, e.value)
        } else {
            before
        }
    }
}

/// How many of the first `n` entries were written.
pub open spec fn written(
    content: Content,
    entries: Seq<EntryView>,
    skip_existing: bool,
    n: nat,
) -> nat
    decreases n,
{
    if n == 0 {
        0
    } else {
        written(content, entries, skip_existing, (n - 1) as nat) + if writes(
            imported(content, entries, skip_existing, (n - 1) as nat),
            entries[n - 1],
            skip_existing,
        ) {
            1nat
        } else {
            0nat
        }
    }
}

/// An import under way.
pub struct ImportRun {
    entries: Vec<DbEntry>,
    skip_existing: bool,
    next: usize,
    imported: usize,
    skipped: usize,
}

impl ImportRun {
    /// The entries of the import.
    pub closed spec fn entries(&self) -> Seq<EntryView> {
        entry_views(self.entries@)
    }

    /// Whether keys that are there are left as they are.
    pub closed spec fn skips_existing(&self) -> bool {
        self.skip_existing
    }

    /// How many entries were dealt with.
    pub closed spec fn done(&self) -> nat {
        self.next as nat
    }

    /// How many entries were written.
    pub closed spec fn imported_count(&self) -> nat {
        self.imported as nat
    }

    /// How many entries were left out.
    pub closed spec fn skipped_count(&self) -> nat {
        self.skipped as nat
    }

    /// Whether every entry that was dealt with was either written or left out.
    pub open spec fn wf(&self) -> bool {
        self.done() <= self.entries().len() && self.imported_count() + self.skipped_count()
            == self.done()
    }

    /// Whether the import has brought a database from one content to another.
    pub open spec fn has_brought(&self, start: Content, now: Content) -> bool {
        &&& now == imported(start, self.entries(), self.skips_existing(), self.done())
        &&& self.imported_count() == written(
            start,
            self.entries(),
            self.skips_existing(),
            self.done(),
        )
    }

    /// An import that has not begun.
    pub fn new(entries: Vec<DbEntry>, skip_existing: bool) -> (r: ImportRun)
        ensures
            r.wf(),
            r.entries() == entry_views(entries@),
            r.skips_existing() == skip_existing,
            r.done() == 0,
            r.imported_count() == 0,
            r.skipped_count() == 0,
            forall|start: Content| r.has_brought(start, start),
    {
        ImportRun { entries, skip_existing, next: 0, imported: 0, skipped: 0 }
    }

    /// The entry that is next.
    pub fn pending(&self) -> (r: Option<&DbEntry>)
        requires
            self.wf(),
        ensures
            match r {
                Some(e) => self.done() < self.entries().len() && e@ == self.entries()[self.done() as int],
                None => self.done() == self.entries().len(),
            },
    {
        if self.next < self.entries.len() {
            Some(&self.entries[self.next])
        } else {
            None
        }
    }

    /// Decides on the entry that is next, given whether its key is there. The answer is whether
    /// it is to be written.
    pub fn decide(&mut self, exists: bool) -> (r: bool)
        requires
            old(self).wf(),
            old(self).done() < old(self).entries().len(),
        ensures
            final(self).wf(),
            final(self).entries() == old(self).entries(),
            final(self).skips_existing() == old(self).skips_existing(),
            final(self).done() == old(self).done() + 1,
            r == !(old(self).skips_existing() && exists),
            final(self).imported_count() == old(self).imported_count() + if r {
                1nat
            } else {
                0nat
            },
            final(self).skipped_count() == old(self).skipped_count() + if r {
                0nat
            } else {
                1nat
            },
            forall|start: Content, now: Content|
                #[trigger] old(self).has_brought(start, now) && (old(self).skips_existing()
                    ==> exists == now.contains_key(
                    old(self).entries()[old(self).done() as int].key,
                )) ==> final(self).has_brought(
                    start,
                    if r {
                        now.insert(
                            old(self).entries()[old(self).done() as int].key,
                            old(self).entries()[old(self).done() as int].value,
                        )
                    } else {
                        now
                    },
                ),
    {
        let total: usize = self.entries.len();
        assert(self.next < total);
        let write = !(self.skip_existing && exists);
        self.next += 1;
        if write {
            self.imported += 1;
        } else {
            self.skipped += 1;
        }
        write
    }

    /// How many entries were written, and how many were left out.
    pub fn counts(&self) -> (r: (usize, usize))
        ensures
            r.0 == self.imported_count(),
            r.1 == self.skipped_count(),
    {
        (self.imported, self.skipped)
    }
}

/// What an import that overwrites leaves under a key: the value of the last of the first `n`
/// entries with the key, else what was there.
pub proof fn law_overwriting(content: Content, entries: Seq<EntryView>, n: nat, i: int)
    requires
        n <= entries.len(),
        0 <= i < n,
        forall|j: int| i < j < n ==> (#[trigger] entries[j]).key != entries[i].key,
    ensures
        imported(content, entries, false, n).contains_key(entries[i].key),
        imported(content, entries, false, n)[entries[i].key] == entries[i].value,
    decreases n,
{
    if i < n - 1 {
        law_overwriting(content, entries, (n - 1) as nat, i);
        assert(entries[n - 1].key != entries[i].key);
    }
}

/// An import touches the keys of its entries only.
pub proof fn law_other_keys_stay(
    content: Content,
    entries: Seq<EntryView>,
    skip_existing: bool,
    n: nat,
    key: Seq<u8>,
)
    requires
        n <= entries.len(),
        forall|j: int| 0 <= j < n ==> (#[trigger] entries[j]).key != key,
    ensures
        imported(content, entries, skip_existing, n).contains_key(key) == content.contains_key(key),
        content.contains_key(key) ==> imported(content, entries, skip_existing, n)[key]
            == content[key],
    decreases n,
{
    if n > 0 {
        law_other_keys_stay(content, entries, skip_existing, (n - 1) as nat, key);
        assert(entries[n - 1].key != key);
    }
}

/// An import that skips what is there changes no value that was there.
pub proof fn law_skipping_keeps(content: Content, entries: Seq<EntryView>, n: nat, key: Seq<u8>)
    requires
        n <= entries.len(),
        content.contains_key(key),
    ensures
        imported(content, entries, true, n).contains_key(key),
        imported(content, entries, true, n)[key] == content[key],
    decreases n,
{
    if n > 0 {
        law_skipping_keeps(content, entries, (n - 1) as nat, key);
    }
}

/// An import that skips what is there gives a new key the value of the first entry with the key,
/// whatever follows.
pub proof fn law_first_entry_counts(content: Content, entries: Seq<EntryView>, n: nat, i: int)
    requires
        n <= entries.len(),
        0 <= i < n,
        !content.contains_key(entries[i].key),
        forall|j: int| 0 <= j < i ==> (#[trigger] entries[j]).key != entries[i].key,
    ensures
        imported(content, entries, true, n).contains_key(entries[i].key),
        imported(content, entries, true, n)[entries[i].key] == entries[i].value,
    decreases n,
{
    if i < n - 1 {
        law_first_entry_counts(content, entries, (n - 1) as nat, i);
    } else {
        law_other_keys_stay(content, entries, true, i as nat, entries[i].key);
    }
}

/// After an import every key of its entries is there.
pub proof fn law_all_keys_there(
    content: Content,
    entries: Seq<EntryView>,
    skip_existing: bool,
    n: nat,
    i: int,
)
    requires
        n <= entries.len(),
        0 <= i < n,
    ensures
        imported(content, entries, skip_existing, n).contains_key(entries[i].key),
    decreases n,
{
    if i < n - 1 {
        law_all_keys_there(content, entries, skip_existing, (n - 1) as nat, i);
    }
}

proof fn lemma_nothing_to_write(content: Content, entries: Seq<EntryView>, n: nat)
    requires
        n <= entries.len(),
        forall|i: int| 0 <= i < entries.len() ==> content.contains_key((#[trigger] entries[i]).key),
    ensures
        imported(content, entries, true, n) == content,
        written(content, entries, true, n) == 0,
    decreases n,
{
    if n > 0 {
        lemma_nothing_to_write(content, entries, (n - 1) as nat);
        assert(content.contains_key(entries[n - 1].key));
    }
}

/// An import can be repeated safely: a second run that skips what is there changes nothing and
/// writes nothing.
pub proof fn law_repeated_import(
    content: Content,
    entries: Seq<EntryView>,
    skip_existing: bool,
)
    ensures
        ({
            let once = imported(content, entries, skip_existing, entries.len());
            &&& imported(once, entries, true, entries.len()) == once
            &&& written(once, entries, true, entries.len()) == 0
        }),
{
    let once = imported(content, entries, skip_existing, entries.len());
    assert forall|i: int| 0 <= i < entries.len() implies once.contains_key(
        (#[trigger] entries[i]).key,
    ) by {
        law_all_keys_there(content, entries, skip_existing, entries.len(), i);
    }
    lemma_nothing_to_write(once, entries, entries.len());
}

/// An import that was cut short can be resumed: running it again from the start, skipping what is
/// there, ends where an import that skips what is there would have ended.
pub proof fn law_resumed_import(content: Content, entries: Seq<EntryView>, n: nat, m: nat)
    requires
        n <= m <= entries.len(),
    ensures
        imported(imported(content, entries, true, n), entries, true, m) == imported(
            content,
            entries,
            true,
            m,
        ),
    decreases m,
{
    let cut = imported(content, entries, true, n);
    if n == m {
        lemma_prefix_done(content, entries, n, n);
    } else {
        law_resumed_import(content, entries, n, (m - 1) as nat);
    }
}

proof fn lemma_prefix_done(content: Content, entries: Seq<EntryView>, n: nat, k: nat)
    requires
        k <= n <= entries.len(),
    ensures
        imported(imported(content, entries, true, n), entries, true, k) == imported(
            content,
            entries,
            true,
            n,
        ),
    decreases k,
{
    if k > 0 {
        lemma_prefix_done(content, entries, n, (k - 1) as nat);
        law_all_keys_there(content, entries, true, n, k - 1);
    }
}

/// What was exported from one database is in every other after an import that overwrites: where
/// all entries with a key have one value, that value is there.
pub proof fn law_migration(source: Seq<EntryView>, target: Content, n: nat, e: EntryView)
    requires
        n <= source.len(),
        source.take(n as int).contains(e),
        forall|j: int| 0 <= j < n && (#[trigger] source[j]).key == e.key ==> source[j] == e,
    ensures
        imported(target, source, false, n).contains_key(e.key),
        imported(target, source, false, n)[e.key] == e.value,
    decreases n,
{
    let k = choose|k: int| 0 <= k < n && source.take(n as int)[k] == e;
    if source[n - 1].key != e.key {
        assert(k < n - 1);
        assert(source.take(n - 1)[k] == e);
        law_migration(source, target, (n - 1) as nat, e);
    }
}

/// In the order of their keys, entries with the same key are the same.
pub proof fn lemma_key_tells_entry(entries: Seq<EntryView>, a: EntryView, b: EntryView)
    requires
        in_key_order(entries),
        entries.contains(a),
        entries.contains(b),
        a.key == b.key,
    ensures
        a == b,
{
    let i = choose|i: int| 0 <= i < entries.len() && entries[i] == a;
    let j = choose|j: int| 0 <= j < entries.len() && entries[j] == b;
    lemma_before_irreflexive(a.key);
    if i < j {
        assert(bytes_before(entries[i].key, entries[j].key));
    } else if j < i {
        assert(bytes_before(entries[j].key, entries[i].key));
    }
}

} // verus!
