//! Regions of chunks: what they hold, and which keys their deletion takes.

use crate::actors::{key_views, keys_of};
use crate::bytes::{copy_bytes, has_prefix, read_i32_le};
use crate::keys::{
    chunk_coordinate, chunk_key_prefix, chunk_of, chunk_prefix, dimension_of_key, any_dim,
    extract_dim_from_key, is_chunk_key, is_chunk_key_bytes, key_chunk, key_dim, law_chunk_prefix,
};
use crate::store::{
    entry_views, lemma_filter_exact, lemma_filter_step, with_prefix, DbEntry, EntryView, Snapshot,
};
use vstd::prelude::*;

verus! {

/// Two numbers in ascending order.
pub fn sort_pair(a: i32, b: i32) -> (r: (i32, i32))
    ensures
        r.0 <= r.1,
        r == (a, b) || r == (b, a),
{
    if a <= b {
        (a, b)
    } else {
        (b, a)
    }
}

/// A rectangle of chunks, both corners included.
#[derive(Clone, Copy, PartialEq, Eq, Structural, Debug)]
pub struct Area {
    pub cx1: i32,
    pub cz1: i32,
    pub cx2: i32,
    pub cz2: i32,
}

/// The smaller of two integers.
pub open spec fn smaller(a: int, b: int) -> int {
    if a <= b {
        a
    } else {
        b
    }
}

/// The greater of two integers.
pub open spec fn greater(a: int, b: int) -> int {
    if a <= b {
        b
    } else {
        a
    }
}

/// The rectangle of the chunks that hold two corner blocks.
pub open spec fn area_between(bx1: int, bz1: int, bx2: int, bz2: int) -> Area {
    Area {
        cx1: smaller(chunk_of(bx1), chunk_of(bx2)) as i32,
        cz1: smaller(chunk_of(bz1), chunk_of(bz2)) as i32,
        cx2: greater(chunk_of(bx1), chunk_of(bx2)) as i32,
        cz2: greater(chunk_of(bz1), chunk_of(bz2)) as i32,
    }
}

/// Whether the corners of a rectangle are in order, and it lies in the world.
pub open spec fn is_area(a: Area) -> bool {
    &&& -0x800_0000 <= a.cx1 <= a.cx2 < 0x800_0000
    &&& -0x800_0000 <= a.cz1 <= a.cz2 < 0x800_0000
}

/// Whether a chunk lies in a rectangle.
pub open spec fn in_area(a: Area, cx: int, cz: int) -> bool {
    a.cx1 <= cx <= a.cx2 && a.cz1 <= cz <= a.cz2
}

/// The rectangle of the chunks that hold two corner blocks, in any order.
pub fn block_area(bx1: i32, bz1: i32, bx2: i32, bz2: i32) -> (r: Area)
    ensures
        r == area_between(bx1 as int, bz1 as int, bx2 as int, bz2 as int),
        is_area(r),
        in_area(r, chunk_of(bx1 as int), chunk_of(bz1 as int)),
        in_area(r, chunk_of(bx2 as int), chunk_of(bz2 as int)),
{
    let (cx1, cx2) = sort_pair(chunk_coordinate(bx1), chunk_coordinate(bx2));
    let (cz1, cz2) = sort_pair(chunk_coordinate(bz1), chunk_coordinate(bz2));
    Area { cx1, cz1, cx2, cz2 }
}

/// The number of chunks in a rectangle.
pub open spec fn area_size(a: Area) -> int {
    (a.cx2 - a.cx1 + 1) * (a.cz2 - a.cz1 + 1)
}

/// The number of chunks in a rectangle.
pub fn chunk_count(a: Area) -> (r: i64)
    requires
        is_area(a),
    ensures
        r == area_size(a),
        r >= 1,
{
    let w: i64 = a.cx2 as i64 - a.cx1 as i64 + 1;
    let h: i64 = a.cz2 as i64 - a.cz1 as i64 + 1;
    assert(1 <= w * h <= 0x100_0000_0000_0000) by (nonlinear_arith)
        requires
            1 <= w <= 0x1000_0000,
            1 <= h <= 0x1000_0000,
    ;
    w * h
}

/// The entries of a chunk: those whose keys begin with its coordinates.
pub open spec fn chunk_entries(entries: Seq<EntryView>, cx: i32, cz: i32) -> Seq<EntryView> {
    with_prefix(entries, chunk_prefix(cx, cz))
}

/// The entries of a chunk.
pub fn collect_chunk_keys(db: &Snapshot, cx: i32, cz: i32) -> (r: Vec<DbEntry>)
    requires
        db.wf(),
    ensures
        entry_views(r@) == chunk_entries(db@, cx, cz),
{
    let prefix = chunk_key_prefix(cx, cz);
    db.scan_prefix(prefix.as_slice())
}

/// Which dimension is meant, and how it is told from a key.
#[derive(Clone, Copy, PartialEq, Eq, Structural, Debug)]
pub enum DimFilter {
    /// Every dimension.
    Any,
    /// The dimension in the four-byte field.
    Field(u8),
    /// The dimension in either form.
    Either(u8),
}

/// Whether a key is in the dimension that is meant.
pub open spec fn passes(filter: DimFilter, key: Seq<u8>) -> bool {
    match filter {
        DimFilter::Any => true,
        DimFilter::Field(d) => key_dim(key) == d,
        DimFilter::Either(d) => any_dim(key) == d,
    }
}

fn key_passes(filter: DimFilter, key: &[u8]) -> (r: bool)
    ensures
        r == passes(filter, key@),
{
    match filter {
        DimFilter::Any => true,
        DimFilter::Field(d) => extract_dim_from_key(key) == d,
        DimFilter::Either(d) => dimension_of_key(key) == d,
    }
}

/// What a chunk holds.
pub struct ChunkView {
    pub cx: i32,
    pub cz: i32,
    pub entries: Seq<EntryView>,
}

/// A chunk and its entries.
pub struct Chunk {
    pub cx: i32,
    pub cz: i32,
    pub entries: Vec<DbEntry>,
}

impl View for Chunk {
    type V = ChunkView;

    open spec fn view(&self) -> ChunkView {
        ChunkView { cx: self.cx, cz: self.cz, entries: entry_views(self.entries@) }
    }
}

/// What chunks hold.
pub open spec fn chunk_views(chunks: Seq<Chunk>) -> Seq<ChunkView> {
    chunks.map_values(|c: Chunk| c@)
}

/// A chunk with its entries in the dimension that is meant.
pub open spec fn chunk_at(entries: Seq<EntryView>, filter: DimFilter, cx: i32, cz: i32) -> ChunkView {
    ChunkView {
        cx,
        cz,
        entries: chunk_entries(entries, cx, cz).filter(|e: EntryView| passes(filter, e.key)),
    }
}

/// The first `n` chunks of a column that hold anything.
pub open spec fn column_chunks(
    entries: Seq<EntryView>,
    filter: DimFilter,
    cx: i32,
    cz: int,
    n: nat,
) -> Seq<ChunkView>
    decreases n,
{
    if n == 0 {
        Seq::empty()
    } else {
        let rest = column_chunks(entries, filter, cx, cz, (n - 1) as nat);
        let c = chunk_at(entries, filter, cx, (cz + n - 1) as i32);
        if c.entries.len() > 0 {
            rest.push(c)
        } else {
            rest
        }
    }
}

/// The chunks of the first `n` columns of a rectangle that hold anything.
pub open spec fn columns_chunks(
    entries: Seq<EntryView>,
    filter: DimFilter,
    area: Area,
    n: nat,
) -> Seq<ChunkView>
    decreases n,
{
    if n == 0 {
        Seq::empty()
    } else {
        columns_chunks(entries, filter, area, (n - 1) as nat) + column_chunks(
            entries,
            filter,
            (area.cx1 + n - 1) as i32,
            area.cz1 as int,
            (area.cz2 - area.cz1 + 1) as nat,
        )
    }
}

/// The chunks of a rectangle that hold anything, column by column.
pub open spec fn area_chunks(entries: Seq<EntryView>, filter: DimFilter, area: Area) -> Seq<
    ChunkView,
> {
    columns_chunks(entries, filter, area, (area.cx2 - area.cx1 + 1) as nat)
}

fn keep_passing(entries: Vec<DbEntry>, filter: DimFilter) -> (r: Vec<DbEntry>)
    ensures
        entry_views(r@) == entry_views(entries@).filter(|e: EntryView| passes(filter, e.key)),
{
    let ghost all = entry_views(entries@);
    let ghost source = entries@;
    let ghost keep = |e: EntryView| passes(filter, e.key);
    let mut out: Vec<DbEntry> = Vec::new();
    assert(all.take(0).filter(keep) =~= Seq::empty()) by {
        reveal(Seq::filter);
    }
    assert(entry_views(out@) =~= all.take(0).filter(keep));
    for e in it: entries.into_iter()
        invariant
            it.seq() == source,
            all == entry_views(source),
            keep == (|e: EntryView| passes(filter, e.key)),
            entry_views(out@) == all.take(it.index() as int).filter(keep),
    {
        let ghost i = it.index() as int;
        assert(all[i] == e@);
        proof {
            lemma_filter_step(all, keep, i);
        }
        if key_passes(filter, e.key.as_slice()) {
            let ghost before = entry_views(out@);
            out.push(e);
            assert(entry_views(out@) =~= before.push(all[i]));
        }
    }
    assert(all.take(all.len() as int) =~= all);
    out
}

fn push_column(db: &Snapshot, filter: DimFilter, area: Area, cx: i32, out: &mut Vec<Chunk>)
    requires
        db.wf(),
        is_area(area),
    ensures
        chunk_views(final(out)@) == chunk_views(old(out)@) + column_chunks(
            db@,
            filter,
            cx,
            area.cz1 as int,
            (area.cz2 - area.cz1 + 1) as nat,
        ),
{
    let ghost before = chunk_views(out@);
    let n: i32 = area.cz2 - area.cz1 + 1;
    let mut k: i32 = 0;
    assert(chunk_views(out@) =~= before + column_chunks(db@, filter, cx, area.cz1 as int, 0));
    while k < n
        invariant
            db.wf(),
            is_area(area),
            n == area.cz2 - area.cz1 + 1,
            0 <= k <= n,
            chunk_views(out@) == before + column_chunks(
                db@,
                filter,
                cx,
                area.cz1 as int,
                k as nat,
            ),
        decreases n - k,
    {
        let cz: i32 = area.cz1 + k;
        let found = collect_chunk_keys(db, cx, cz);
        let kept = keep_passing(found, filter);
        let ghost so_far = chunk_views(out@);
        assert(entry_views(kept@).len() == kept@.len());
        if kept.len() > 0 {
            let chunk = Chunk { cx, cz, entries: kept };
            let ghost view = chunk@;
            assert(view == chunk_at(db@, filter, cx, cz));
            out.push(chunk);
            assert(chunk_views(out@) =~= so_far.push(view));
        }
        k += 1;
        assert(chunk_views(out@) =~= before + column_chunks(
            db@,
            filter,
            cx,
            area.cz1 as int,
            k as nat,
        ));
    }
}

/// The chunks of a rectangle that hold anything, column by column.
pub fn collect_area(db: &Snapshot, filter: DimFilter, area: Area) -> (r: Vec<Chunk>)
    requires
        db.wf(),
        is_area(area),
    ensures
        chunk_views(r@) == area_chunks(db@, filter, area),
{
    let mut out: Vec<Chunk> = Vec::new();
    let n: i32 = area.cx2 - area.cx1 + 1;
    let mut k: i32 = 0;
    assert(chunk_views(out@) =~= columns_chunks(db@, filter, area, 0));
    while k < n
        invariant
            db.wf(),
            is_area(area),
            n == area.cx2 - area.cx1 + 1,
            0 <= k <= n,
            chunk_views(out@) == columns_chunks(db@, filter, area, k as nat),
        decreases n - k,
    {
        push_column(db, filter, area, area.cx1 + k, &mut out);
        k += 1;
    }
    out
}

/// The entries of chunks, chunk by chunk.
pub open spec fn all_entries(chunks: Seq<ChunkView>) -> Seq<EntryView>
    decreases chunks.len(),
{
    if chunks.len() == 0 {
        Seq::empty()
    } else {
        all_entries(chunks.drop_last()) + chunks.last().entries
    }
}

/// The keys that the deletion of a rectangle takes in a dimension.
pub open spec fn area_keys(entries: Seq<EntryView>, area: Area, dim: u8) -> Seq<Seq<u8>> {
    keys_of(all_entries(area_chunks(entries, DimFilter::Field(dim), area)))
}

/// What the deletion of a rectangle takes.
pub struct AreaDeletion {
    /// The keys that are to be deleted.
    pub keys: Vec<Vec<u8>>,
    /// The number of chunks that hold them.
    pub chunks: usize,
    /// The number of chunks of the rectangle that hold nothing.
    pub empty: i64,
}

/// What the deletion of the rectangle takes in a dimension.
pub fn plan_area_deletion(db: &Snapshot, area: Area, dim: u8) -> (r: AreaDeletion)
    requires
        db.wf(),
        is_area(area),
    ensures
        key_views(r.keys@) == area_keys(db@, area, dim),
        r.chunks == area_chunks(db@, DimFilter::Field(dim), area).len(),
        r.chunks + r.empty == area_size(area),
        r.empty >= 0,
{
    let chunks = collect_area(db, DimFilter::Field(dim), area);
    let ghost views = chunk_views(chunks@);
    let mut keys: Vec<Vec<u8>> = Vec::new();
    assert(key_views(keys@) =~= keys_of(all_entries(views.take(0))));
    for i in 0..chunks.len()
        invariant
            views == chunk_views(chunks@),
            key_views(keys@) == keys_of(all_entries(views.take(i as int))),
    {
        let ghost before = key_views(keys@);
        let ghost here = views[i as int].entries;
        assert(views.take(i + 1).drop_last() =~= views.take(i as int));
        assert(here == entry_views(chunks@[i as int].entries@));
        assert(key_views(keys@) =~= before + keys_of(here.take(0)));
        let found = &chunks[i].entries;
        for j in 0..found.len()
            invariant
                here == entry_views(found@),
                key_views(keys@) == before + keys_of(here.take(j as int)),
        {
            let ghost so_far = key_views(keys@);
            keys.push(copy_bytes(found[j].key.as_slice()));
            assert(key_views(keys@) =~= so_far.push(here[j as int].key));
            assert(key_views(keys@) =~= before + keys_of(here.take(j + 1)));
        }
        assert(here.take(here.len() as int) =~= here);
        assert(key_views(keys@) =~= keys_of(all_entries(views.take(i + 1))));
    }
    assert(views.take(chunks@.len() as int) =~= views);
    let total: i64 = chunk_count(area);
    proof {
        lemma_area_bound(db@, DimFilter::Field(dim), area);
    }
    let found: usize = chunks.len();
    AreaDeletion { keys, chunks: found, empty: total - found as i64 }
}

proof fn lemma_column_bound(
    entries: Seq<EntryView>,
    filter: DimFilter,
    cx: i32,
    cz: int,
    n: nat,
)
    ensures
        column_chunks(entries, filter, cx, cz, n).len() <= n,
    decreases n,
{
    if n > 0 {
        lemma_column_bound(entries, filter, cx, cz, (n - 1) as nat);
    }
}

proof fn lemma_columns_bound(entries: Seq<EntryView>, filter: DimFilter, area: Area, n: nat)
    requires
        is_area(area),
    ensures
        columns_chunks(entries, filter, area, n).len() <= n * (area.cz2 - area.cz1 + 1),
    decreases n,
{
    let h = (area.cz2 - area.cz1 + 1) as nat;
    if n > 0 {
        lemma_columns_bound(entries, filter, area, (n - 1) as nat);
        lemma_column_bound(entries, filter, (area.cx1 + n - 1) as i32, area.cz1 as int, h);
        assert((n - 1) * h + h == n * h) by (nonlinear_arith);
    }
}

/// No more chunks of a rectangle hold anything than there are.
proof fn lemma_area_bound(entries: Seq<EntryView>, filter: DimFilter, area: Area)
    requires
        is_area(area),
    ensures
        area_chunks(entries, filter, area).len() <= area_size(area),
{
    lemma_columns_bound(entries, filter, area, (area.cx2 - area.cx1 + 1) as nat);
}

/// Whether an entry belongs to a chunk in the dimension that is meant.
pub open spec fn belongs(filter: DimFilter, cx: int, cz: int, key: Seq<u8>) -> bool {
    key.len() >= 8 && key_chunk(key) == (cx, cz) && passes(filter, key)
}

proof fn lemma_chunk_exact(
    entries: Seq<EntryView>,
    filter: DimFilter,
    cx: i32,
    cz: i32,
    e: EntryView,
)
    ensures
        chunk_at(entries, filter, cx, cz).entries.contains(e) <==> entries.contains(e) && belongs(
            filter,
            cx as int,
            cz as int,
            e.key,
        ),
{
    let p = chunk_prefix(cx, cz);
    lemma_filter_exact(entries, |x: EntryView| has_prefix(x.key, p), e);
    lemma_filter_exact(
        chunk_entries(entries, cx, cz),
        |x: EntryView| passes(filter, x.key),
        e,
    );
    law_chunk_prefix(e.key, cx, cz);
}

proof fn lemma_all_entries_concat(a: Seq<ChunkView>, b: Seq<ChunkView>)
    ensures
        all_entries(a + b) == all_entries(a) + all_entries(b),
    decreases b.len(),
{
    if b.len() == 0 {
        assert(a + b =~= a);
        assert(all_entries(a) + all_entries(b) =~= all_entries(a));
    } else {
        lemma_all_entries_concat(a, b.drop_last());
        assert((a + b).drop_last() =~= a + b.drop_last());
        assert(all_entries(a + b) =~= all_entries(a) + all_entries(b));
    }
}

proof fn lemma_contains_concat(a: Seq<EntryView>, b: Seq<EntryView>, e: EntryView)
    ensures
        (a + b).contains(e) <==> a.contains(e) || b.contains(e),
{
    if a.contains(e) {
        let i = choose|i: int| 0 <= i < a.len() && a[i] == e;
        assert((a + b)[i] == e);
    }
    if b.contains(e) {
        let i = choose|i: int| 0 <= i < b.len() && b[i] == e;
        assert((a + b)[a.len() + i] == e);
    }
    if (a + b).contains(e) {
        let i = choose|i: int| 0 <= i < (a + b).len() && (a + b)[i] == e;
        if i < a.len() {
            assert(a[i] == e);
        } else {
            assert(b[i - a.len()] == e);
        }
    }
}

proof fn lemma_column_exact(
    entries: Seq<EntryView>,
    filter: DimFilter,
    cx: i32,
    cz: int,
    n: nat,
    e: EntryView,
)
    requires
        -0x800_0000 <= cz,
        cz + n <= 0x800_0000,
    ensures
        all_entries(column_chunks(entries, filter, cx, cz, n)).contains(e) <==> entries.contains(e)
            && e.key.len() >= 8 && key_chunk(e.key).0 == cx && cz <= key_chunk(e.key).1 < cz + n
            && passes(filter, e.key),
    decreases n,
{
    if n > 0 {
        lemma_column_exact(entries, filter, cx, cz, (n - 1) as nat, e);
        let rest = column_chunks(entries, filter, cx, cz, (n - 1) as nat);
        let z = (cz + n - 1) as i32;
        let c = chunk_at(entries, filter, cx, z);
        lemma_chunk_exact(entries, filter, cx, z, e);
        if c.entries.len() > 0 {
            assert(rest.push(c).drop_last() =~= rest);
            lemma_contains_concat(all_entries(rest), c.entries, e);
        } else {
            assert(!c.entries.contains(e));
        }
    }
}

proof fn lemma_columns_exact(
    entries: Seq<EntryView>,
    filter: DimFilter,
    area: Area,
    n: nat,
    e: EntryView,
)
    requires
        is_area(area),
        n <= area.cx2 - area.cx1 + 1,
    ensures
        all_entries(columns_chunks(entries, filter, area, n)).contains(e) <==> entries.contains(e)
            && e.key.len() >= 8 && area.cx1 <= key_chunk(e.key).0 < area.cx1 + n && area.cz1
            <= key_chunk(e.key).1 <= area.cz2 && passes(filter, e.key),
    decreases n,
{
    if n > 0 {
        lemma_columns_exact(entries, filter, area, (n - 1) as nat, e);
        let rest = columns_chunks(entries, filter, area, (n - 1) as nat);
        let x = (area.cx1 + n - 1) as i32;
        let h = (area.cz2 - area.cz1 + 1) as nat;
        let column = column_chunks(entries, filter, x, area.cz1 as int, h);
        lemma_column_exact(entries, filter, x, area.cz1 as int, h, e);
        lemma_all_entries_concat(rest, column);
        lemma_contains_concat(all_entries(rest), all_entries(column), e);
    }
}

/// What is collected of a rectangle is every entry of its chunks in the dimension that is meant,
/// and nothing else.
pub proof fn law_area_exact(
    entries: Seq<EntryView>,
    filter: DimFilter,
    area: Area,
    e: EntryView,
)
    requires
        is_area(area),
    ensures
        all_entries(area_chunks(entries, filter, area)).contains(e) <==> entries.contains(e)
            && e.key.len() >= 8 && in_area(area, key_chunk(e.key).0, key_chunk(e.key).1) && passes(
            filter,
            e.key,
        ),
{
    lemma_columns_exact(entries, filter, area, (area.cx2 - area.cx1 + 1) as nat, e);
}

/// The entries that are left when keys are deleted.
pub open spec fn without(entries: Seq<EntryView>, keys: Seq<Seq<u8>>) -> Seq<EntryView> {
    entries.filter(|e: EntryView| !keys.contains(e.key))
}

/// The deletion of a rectangle in a dimension takes its entries, and leaves every other.
pub proof fn law_area_deletion(entries: Seq<EntryView>, area: Area, dim: u8, e: EntryView)
    requires
        is_area(area),
    ensures
        without(entries, area_keys(entries, area, dim)).contains(e) <==> entries.contains(e) && !(
        e.key.len() >= 8 && in_area(area, key_chunk(e.key).0, key_chunk(e.key).1) && key_dim(e.key)
            == dim),
{
    let filter = DimFilter::Field(dim);
    let found = all_entries(area_chunks(entries, filter, area));
    let keys = keys_of(found);
    lemma_filter_exact(entries, |x: EntryView| !keys.contains(x.key), e);
    law_area_exact(entries, filter, area, e);
    if found.contains(e) {
        let i = choose|i: int| 0 <= i < found.len() && found[i] == e;
        assert(keys[i] == e.key);
    }
    if keys.contains(e.key) {
        let i = choose|i: int| 0 <= i < keys.len() && keys[i] == e.key;
        assert(found.contains(found[i]));
        law_area_exact(entries, filter, area, found[i]);
    }
}

proof fn lemma_no_chunks(chunks: Seq<ChunkView>)
    requires
        forall|i: int| 0 <= i < chunks.len() ==> (#[trigger] chunks[i]).entries.len() > 0,
        chunks.len() > 0,
    ensures
        all_entries(chunks).len() > 0,
{
    assert(chunks[chunks.len() - 1].entries.len() > 0);
}

proof fn lemma_column_filled(
    entries: Seq<EntryView>,
    filter: DimFilter,
    cx: i32,
    cz: int,
    n: nat,
)
    ensures
        forall|i: int|
            0 <= i < column_chunks(entries, filter, cx, cz, n).len() ==> (
            #[trigger] column_chunks(entries, filter, cx, cz, n)[i]).entries.len() > 0,
    decreases n,
{
    if n > 0 {
        lemma_column_filled(entries, filter, cx, cz, (n - 1) as nat);
        let rest = column_chunks(entries, filter, cx, cz, (n - 1) as nat);
        let all = column_chunks(entries, filter, cx, cz, n);
        assert forall|i: int| 0 <= i < all.len() implies (#[trigger] all[i]).entries.len() > 0 by {
            if i < rest.len() {
                assert(all[i] == rest[i]);
            }
        }
    }
}

proof fn lemma_columns_filled(entries: Seq<EntryView>, filter: DimFilter, area: Area, n: nat)
    ensures
        forall|i: int|
            0 <= i < columns_chunks(entries, filter, area, n).len() ==> (
            #[trigger] columns_chunks(entries, filter, area, n)[i]).entries.len() > 0,
    decreases n,
{
    if n > 0 {
        let m = (n - 1) as nat;
        lemma_columns_filled(entries, filter, area, m);
        lemma_column_filled(
            entries,
            filter,
            (area.cx1 + n - 1) as i32,
            area.cz1 as int,
            (area.cz2 - area.cz1 + 1) as nat,
        );
        let rest = columns_chunks(entries, filter, area, m);
        let all = columns_chunks(entries, filter, area, n);
        assert forall|i: int| 0 <= i < all.len() implies (#[trigger] all[i]).entries.len() > 0 by {
            if i < rest.len() {
                assert(all[i] == rest[i]);
            }
        }
    }
}

/// After the deletion of a rectangle none of its chunks holds anything in the dimension.
pub proof fn law_area_is_empty_after_deletion(entries: Seq<EntryView>, area: Area, dim: u8)
    requires
        is_area(area),
    ensures
        area_chunks(
            without(entries, area_keys(entries, area, dim)),
            DimFilter::Field(dim),
            area,
        ).len() == 0,
{
    let left = without(entries, area_keys(entries, area, dim));
    let filter = DimFilter::Field(dim);
    let chunks = area_chunks(left, filter, area);
    if chunks.len() > 0 {
        lemma_columns_filled(left, filter, area, (area.cx2 - area.cx1 + 1) as nat);
        lemma_no_chunks(chunks);
        let e = all_entries(chunks)[0];
        assert(all_entries(chunks).contains(e));
        law_area_exact(left, filter, area, e);
        law_area_deletion(entries, area, dim, e);
    }
}

/// A rectangle of chunks in a dimension.
#[derive(Clone, Copy, PartialEq, Eq, Structural, Debug)]
pub struct ChunkRect {
    pub dim_id: u8,
    pub cx1: i32,
    pub cz1: i32,
    pub cx2: i32,
    pub cz2: i32,
}

/// Whether a chunk of a dimension lies in a rectangle.
pub open spec fn in_rect(r: ChunkRect, cx: int, cz: int, dim: u8) -> bool {
    r.dim_id == dim && r.cx1 <= cx <= r.cx2 && r.cz1 <= cz <= r.cz2
}

/// Whether a chunk of a dimension lies in any of some rectangles.
pub open spec fn in_rects(rects: Seq<ChunkRect>, cx: int, cz: int, dim: u8) -> bool {
    exists|i: int| 0 <= i < rects.len() && in_rect(#[trigger] rects[i], cx, cz, dim)
}

/// Whether a chunk of a dimension lies in any of some rectangles.
pub fn is_chunk_in_rects(cx: i32, cz: i32, dim: u8, rects: &Vec<ChunkRect>) -> (r: bool)
    ensures
        r == in_rects(rects@, cx as int, cz as int, dim),
{
    for i in 0..rects.len()
        invariant
            forall|k: int|
                0 <= k < i ==> !in_rect(#[trigger] rects@[k], cx as int, cz as int, dim),
    {
        let rect = &rects[i];
        if rect.dim_id == dim && cx >= rect.cx1 && cx <= rect.cx2 && cz >= rect.cz1 && cz
            <= rect.cz2 {
            assert(in_rect(rects@[i as int], cx as int, cz as int, dim));
            return true;
        }
    }
    false
}

/// Whether a batch deletion takes a key: it is that of a chunk in the rectangles, or outside of
/// them where the choice is inverted.
pub open spec fn batch_takes(rects: Seq<ChunkRect>, invert: bool, key: Seq<u8>) -> bool {
    is_chunk_key_bytes(key) && in_rects(rects, key_chunk(key).0, key_chunk(key).1, key_dim(key))
        != invert
}

/// Whether a batch deletion takes a key.
pub fn takes_key(rects: &Vec<ChunkRect>, invert: bool, key: &[u8]) -> (r: bool)
    ensures
        r == batch_takes(rects@, invert, key@),
{
    is_chunk_key(key) && is_chunk_in_rects(
        read_i32_le(key, 0),
        read_i32_le(key, 4),
        extract_dim_from_key(key),
        rects,
    ) != invert
}

/// The keys of chunks.
pub open spec fn chunk_keys(entries: Seq<EntryView>) -> Seq<Seq<u8>> {
    keys_of(entries.filter(|e: EntryView| is_chunk_key_bytes(e.key)))
}

/// The keys that a batch deletion takes.
pub open spec fn batch_keys(
    entries: Seq<EntryView>,
    rects: Seq<ChunkRect>,
    invert: bool,
) -> Seq<Seq<u8>> {
    keys_of(entries.filter(|e: EntryView| batch_takes(rects, invert, e.key)))
}

/// The keys of all chunks of a database.
pub fn collect_all_chunk_keys(entries: &Vec<DbEntry>) -> (r: Vec<Vec<u8>>)
    ensures
        key_views(r@) == chunk_keys(entry_views(entries@)),
{
    let ghost all = entry_views(entries@);
    let ghost keep = |e: EntryView| is_chunk_key_bytes(e.key);
    let mut out: Vec<Vec<u8>> = Vec::new();
    assert(all.take(0).filter(keep) =~= Seq::empty()) by {
        reveal(Seq::filter);
    }
    assert(key_views(out@) =~= keys_of(all.take(0).filter(keep)));
    for i in 0..entries.len()
        invariant
            all == entry_views(entries@),
            keep == (|e: EntryView| is_chunk_key_bytes(e.key)),
            key_views(out@) == keys_of(all.take(i as int).filter(keep)),
    {
        let ghost kept = all.take(i as int).filter(keep);
        proof {
            lemma_filter_step(all, keep, i as int);
        }
        if is_chunk_key(entries[i].key.as_slice()) {
            let ghost before = key_views(out@);
            out.push(copy_bytes(entries[i].key.as_slice()));
            assert(key_views(out@) =~= before.push(all[i as int].key));
            assert(keys_of(kept.push(all[i as int])) =~= keys_of(kept).push(all[i as int].key));
        }
    }
    assert(all.take(entries@.len() as int) =~= all);
    out
}

/// The keys that a batch deletion takes.
pub fn plan_batch_deletion(entries: &Vec<DbEntry>, rects: &Vec<ChunkRect>, invert: bool) -> (r: Vec<
    Vec<u8>,
>)
    ensures
        key_views(r@) == batch_keys(entry_views(entries@), rects@, invert),
{
    let ghost all = entry_views(entries@);
    let ghost keep = |e: EntryView| batch_takes(rects@, invert, e.key);
    let mut out: Vec<Vec<u8>> = Vec::new();
    assert(all.take(0).filter(keep) =~= Seq::empty()) by {
        reveal(Seq::filter);
    }
    assert(key_views(out@) =~= keys_of(all.take(0).filter(keep)));
    for i in 0..entries.len()
        invariant
            all == entry_views(entries@),
            keep == (|e: EntryView| batch_takes(rects@, invert, e.key)),
            key_views(out@) == keys_of(all.take(i as int).filter(keep)),
    {
        let ghost kept = all.take(i as int).filter(keep);
        proof {
            lemma_filter_step(all, keep, i as int);
        }
        if takes_key(rects, invert, entries[i].key.as_slice()) {
            let ghost before = key_views(out@);
            out.push(copy_bytes(entries[i].key.as_slice()));
            assert(key_views(out@) =~= before.push(all[i as int].key));
            assert(keys_of(kept.push(all[i as int])) =~= keys_of(kept).push(all[i as int].key));
        }
    }
    assert(all.take(entries@.len() as int) =~= all);
    out
}

/// The chunks that keys belong to, each once.
pub open spec fn chunks_of_keys(keys: Seq<Seq<u8>>) -> Set<(int, int)> {
    Set::new(
        |c: (int, int)|
            exists|i: int| 0 <= i < keys.len() && (#[trigger] keys[i]).len() >= 8 && key_chunk(keys[i]) == c,
    )
}

/// Whether coordinates are the chunks that keys belong to, each once.
pub open spec fn lists_chunks(keys: Seq<Seq<u8>>, chunks: Seq<(i32, i32)>) -> bool {
    &&& chunks.no_duplicates()
    &&& forall|i: int|
        0 <= i < chunks.len() ==> chunks_of_keys(keys).contains(
            ((#[trigger] chunks[i]).0 as int, chunks[i].1 as int),
        )
    &&& forall|i: int|
        0 <= i < keys.len() && (#[trigger] keys[i]).len() >= 8 ==> chunks.contains(
            (key_chunk(keys[i]).0 as i32, key_chunk(keys[i]).1 as i32),
        )
}

/// Whether a chunk is listed. The last one is looked at first.
fn lists(chunks: &Vec<(i32, i32)>, cx: i32, cz: i32) -> (r: bool)
    ensures
        r == chunks@.contains((cx, cz)),
{
    let mut left: usize = chunks.len();
    while left > 0
        invariant
            left <= chunks@.len(),
            forall|k: int| left <= k < chunks@.len() ==> chunks@[k] != (cx, cz),
        decreases left,
    {
        left -= 1;
        if chunks[left].0 == cx && chunks[left].1 == cz {
            assert(chunks@[left as int] == (cx, cz));
            return true;
        }
    }
    false
}

/// The chunks that keys belong to, each once.
pub fn distinct_chunks(keys: &Vec<Vec<u8>>) -> (r: Vec<(i32, i32)>)
    ensures
        lists_chunks(key_views(keys@), r@),
{
    let ghost all = key_views(keys@);
    let mut out: Vec<(i32, i32)> = Vec::new();
    for i in 0..keys.len()
        invariant
            all == key_views(keys@),
            lists_chunks(all.take(i as int), out@),
    {
        let ghost seen = all.take(i as int);
        let ghost more = all.take(i + 1);
        assert(more =~= seen.push(all[i as int]));
        assert forall|c: (int, int)| chunks_of_keys(seen).contains(c) implies chunks_of_keys(
            more,
        ).contains(c) by {
            let k = choose|k: int|
                0 <= k < seen.len() && (#[trigger] seen[k]).len() >= 8 && key_chunk(seen[k]) == c;
            assert(more[k] == seen[k]);
        }
        let key = &keys[i];
        assert(all[i as int] == key@);
        if key.len() >= 8 {
            let cx: i32 = read_i32_le(key.as_slice(), 0);
            let cz: i32 = read_i32_le(key.as_slice(), 4);
            assert(more[i as int] == key@);
            assert(chunks_of_keys(more).contains((cx as int, cz as int)));
            let found = lists(&out, cx, cz);
            let ghost before = out@;
            if !found {
                out.push((cx, cz));
            }
            assert forall|k: int| 0 <= k < more.len() && (#[trigger] more[k]).len() >= 8 implies out@.contains(
            (key_chunk(more[k]).0 as i32, key_chunk(more[k]).1 as i32)) by {
                if k < i {
                    assert(more[k] == seen[k]);
                    let c = (key_chunk(seen[k]).0 as i32, key_chunk(seen[k]).1 as i32);
                    assert(before.contains(c));
                    let w = choose|w: int| 0 <= w < before.len() && before[w] == c;
                    assert(out@[w] == c);
                } else if !found {
                    assert(out@[before.len() as int] == (cx, cz));
                }
            }
        } else {
            assert forall|k: int| 0 <= k < more.len() && (#[trigger] more[k]).len() >= 8 implies out@.contains(
            (key_chunk(more[k]).0 as i32, key_chunk(more[k]).1 as i32)) by {
                assert(more[k] == seen[k]);
            }
        }
    }
    assert(all.take(keys@.len() as int) =~= all);
    out
}

/// A batch deletion and its inversion share the keys of chunks out between them: each is taken
/// by exactly one of the two, and no other key by either.
pub proof fn law_inversion_is_complement(rects: Seq<ChunkRect>, key: Seq<u8>)
    ensures
        is_chunk_key_bytes(key) ==> batch_takes(rects, false, key) != batch_takes(rects, true, key),
        !is_chunk_key_bytes(key) ==> !batch_takes(rects, false, key) && !batch_takes(
            rects,
            true,
            key,
        ),
{
}

/// A batch deletion takes the keys that it should, and leaves every other entry.
pub proof fn law_batch_deletion(
    entries: Seq<EntryView>,
    rects: Seq<ChunkRect>,
    invert: bool,
    e: EntryView,
)
    ensures
        without(entries, batch_keys(entries, rects, invert)).contains(e) <==> entries.contains(e)
            && !batch_takes(rects, invert, e.key),
{
    let f = |x: EntryView| batch_takes(rects, invert, x.key);
    let found = entries.filter(f);
    let keys = batch_keys(entries, rects, invert);
    lemma_filter_exact(entries, |x: EntryView| !keys.contains(x.key), e);
    lemma_filter_exact(entries, f, e);
    if found.contains(e) {
        let i = choose|i: int| 0 <= i < found.len() && found[i] == e;
        assert(keys[i] == e.key);
    }
    if keys.contains(e.key) {
        let i = choose|i: int| 0 <= i < keys.len() && keys[i] == e.key;
        entries.lemma_filter_pred(f, i);
    }
}

/// A chunk lies in the rectangle between two blocks exactly if a block between the two, in x and
/// in z, stands in the chunk.
pub proof fn law_area_in_blocks(bx1: i32, bz1: i32, bx2: i32, bz2: i32, cx: int, cz: int)
    ensures
        in_area(area_between(bx1 as int, bz1 as int, bx2 as int, bz2 as int), cx, cz) <==> exists|
            x: int,
            z: int,
        |
            #[trigger] stands_between(bx1 as int, bx2 as int, x, cx) && #[trigger] stands_between(
                bz1 as int,
                bz2 as int,
                z,
                cz,
            ),
{
    let area = area_between(bx1 as int, bz1 as int, bx2 as int, bz2 as int);
    lemma_axis(bx1 as int, bx2 as int, cx);
    lemma_axis(bz1 as int, bz2 as int, cz);
    if in_area(area, cx, cz) {
        let x = choose|x: int| #[trigger] stands_between(bx1 as int, bx2 as int, x, cx);
        let z = choose|z: int| #[trigger] stands_between(bz1 as int, bz2 as int, z, cz);
        assert(stands_between(bx1 as int, bx2 as int, x, cx));
        assert(stands_between(bz1 as int, bz2 as int, z, cz));
    }
}

/// Whether a coordinate lies between two others, in either order, and in a chunk of 16 blocks.
pub open spec fn stands_between(a: int, b: int, v: int, chunk: int) -> bool {
    (a <= v <= b || b <= v <= a) && 16 * chunk <= v < 16 * chunk + 16
}

proof fn lemma_axis(a: int, b: int, chunk: int)
    ensures
        smaller(chunk_of(a), chunk_of(b)) <= chunk <= greater(chunk_of(a), chunk_of(b)) <==> exists|
            v: int,
        | #[trigger] stands_between(a, b, v, chunk),
{
    if smaller(chunk_of(a), chunk_of(b)) <= chunk <= greater(chunk_of(a), chunk_of(b)) {
        let low = if a <= b { a } else { b };
        let v = if 16 * chunk >= low { 16 * chunk } else { low };
        assert(stands_between(a, b, v, chunk));
    }
}

/// A rectangle holds as many chunks as its two sides are long, both ends counted.
pub proof fn law_area_size(bx1: i32, bz1: i32, bx2: i32, bz2: i32)
    requires
        bx1 <= bx2,
        bz1 <= bz2,
    ensures
        area_size(area_between(bx1 as int, bz1 as int, bx2 as int, bz2 as int)) == (1 + bx2 as int
            / 16 - bx1 as int / 16) * (1 + bz2 as int / 16 - bz1 as int / 16),
{
}

/// A batch deletion takes the key of a chunk exactly if some rectangle is in the dimension of the
/// key and reaches over the chunk in x and in z, both ends counted. An inverted one takes it
/// exactly if no rectangle does.
pub proof fn law_batch_takes(rects: Seq<ChunkRect>, key: Seq<u8>)
    requires
        is_chunk_key_bytes(key),
    ensures
        ({
            let (cx, cz) = key_chunk(key);
            let inside = exists|i: int|
                0 <= i < rects.len() && (#[trigger] rects[i]).dim_id == key_dim(key)
                    && rects[i].cx1 <= cx && cx <= rects[i].cx2 && rects[i].cz1 <= cz && cz
                    <= rects[i].cz2;
            &&& batch_takes(rects, false, key) <==> inside
            &&& batch_takes(rects, true, key) <==> !inside
        }),
{
    let (cx, cz) = key_chunk(key);
    if exists|i: int|
        0 <= i < rects.len() && (#[trigger] rects[i]).dim_id == key_dim(key) && rects[i].cx1 <= cx
            && cx <= rects[i].cx2 && rects[i].cz1 <= cz && cz <= rects[i].cz2 {
        let i = choose|i: int|
            0 <= i < rects.len() && (#[trigger] rects[i]).dim_id == key_dim(key) && rects[i].cx1
                <= cx && cx <= rects[i].cx2 && rects[i].cz1 <= cz && cz <= rects[i].cz2;
        assert(in_rect(rects[i], cx, cz, key_dim(key)));
    }
    if in_rects(rects, cx, cz, key_dim(key)) {
        let i = choose|i: int|
            0 <= i < rects.len() && in_rect(#[trigger] rects[i], cx, cz, key_dim(key));
        assert(rects[i].dim_id == key_dim(key));
    }
}

/// The deletion of the rectangle between two blocks takes an entry exactly if its key is that of a
/// chunk of its dimension in which a block of the rectangle stands.
pub proof fn law_area_deletion_in_blocks(
    entries: Seq<EntryView>,
    bx1: i32,
    bz1: i32,
    bx2: i32,
    bz2: i32,
    dim: u8,
    e: EntryView,
)
    requires
        entries.contains(e),
    ensures
        ({
            let area = area_between(bx1 as int, bz1 as int, bx2 as int, bz2 as int);
            let inside = exists|x: int, z: int|
                #[trigger] stands_between(bx1 as int, bx2 as int, x, key_chunk(e.key).0)
                    && #[trigger] stands_between(bz1 as int, bz2 as int, z, key_chunk(e.key).1);
            area_keys(entries, area, dim).contains(e.key) <==> e.key.len() >= 8 && key_dim(e.key)
                == dim && inside
        }),
{
    let area = area_between(bx1 as int, bz1 as int, bx2 as int, bz2 as int);
    law_area_in_blocks(bx1, bz1, bx2, bz2, key_chunk(e.key).0, key_chunk(e.key).1);
    law_area_deletion(entries, area, dim, e);
    let keys = area_keys(entries, area, dim);
    lemma_filter_exact(entries, |x: EntryView| !keys.contains(x.key), e);
}

/// The chunks that are collected lie in the rectangle, and each holds the entries of its own
/// coordinates, at least one, and no others. They come column by column, x first, each once.
pub proof fn law_chunks_hold_their_own(
    entries: Seq<EntryView>,
    filter: DimFilter,
    area: Area,
    i: int,
)
    requires
        is_area(area),
        0 <= i < area_chunks(entries, filter, area).len(),
    ensures
        ({
            let chunks = area_chunks(entries, filter, area);
            let c = chunks[i];
            &&& area.cx1 <= c.cx && c.cx <= area.cx2
            &&& area.cz1 <= c.cz && c.cz <= area.cz2
            &&& c.entries.len() > 0
            &&& forall|e: EntryView|
                #[trigger] c.entries.contains(e) <==> entries.contains(e) && e.key.len() >= 8
                    && key_chunk(e.key) == (c.cx as int, c.cz as int) && passes(filter, e.key)
            &&& i + 1 < chunks.len() ==> c.cx < chunks[i + 1].cx || (c.cx == chunks[i + 1].cx && c.cz
                < chunks[i + 1].cz)
        }),
{
    lemma_columns_own(entries, filter, area, (area.cx2 - area.cx1 + 1) as nat);
    let c = area_chunks(entries, filter, area)[i];
    assert(c == chunk_at(entries, filter, c.cx, c.cz));
    assert forall|e: EntryView|
        #[trigger] c.entries.contains(e) <==> entries.contains(e) && e.key.len() >= 8 && key_chunk(
            e.key,
        ) == (c.cx as int, c.cz as int) && passes(filter, e.key) by {
        lemma_chunk_exact(entries, filter, c.cx, c.cz, e);
    }
}

proof fn lemma_column_own(entries: Seq<EntryView>, filter: DimFilter, cx: i32, cz: int, n: nat)
    requires
        -0x800_0000 <= cz,
        cz + n <= 0x800_0000,
    ensures
        ({
            let chunks = column_chunks(entries, filter, cx, cz, n);
            &&& forall|i: int|
                0 <= i < chunks.len() ==> {
                    let c = #[trigger] chunks[i];
                    &&& c.cx == cx
                    &&& cz <= c.cz < cz + n
                    &&& c.entries.len() > 0
                    &&& c == chunk_at(entries, filter, c.cx, c.cz)
                }
            &&& forall|i: int, j: int|
                0 <= i < j < chunks.len() ==> (#[trigger] chunks[i]).cz < (#[trigger] chunks[j]).cz
        }),
    decreases n,
{
    if n > 0 {
        lemma_column_own(entries, filter, cx, cz, (n - 1) as nat);
        let rest = column_chunks(entries, filter, cx, cz, (n - 1) as nat);
        let c = chunk_at(entries, filter, cx, (cz + n - 1) as i32);
        let all = column_chunks(entries, filter, cx, cz, n);
        if c.entries.len() > 0 {
            assert(all == rest.push(c));
            assert forall|i: int, j: int| 0 <= i < j < all.len() implies (#[trigger] all[i]).cz < (
            #[trigger] all[j]).cz by {
                assert(all[i] == rest[i]);
                if j < rest.len() {
                    assert(all[j] == rest[j]);
                }
            }
        } else {
            assert(all == rest);
        }
    }
}

proof fn lemma_columns_own(entries: Seq<EntryView>, filter: DimFilter, area: Area, n: nat)
    requires
        is_area(area),
        n <= area.cx2 - area.cx1 + 1,
    ensures
        ({
            let chunks = columns_chunks(entries, filter, area, n);
            &&& forall|i: int|
                0 <= i < chunks.len() ==> {
                    let c = #[trigger] chunks[i];
                    &&& area.cx1 <= c.cx < area.cx1 + n
                    &&& area.cz1 <= c.cz <= area.cz2
                    &&& c.entries.len() > 0
                    &&& c == chunk_at(entries, filter, c.cx, c.cz)
                }
            &&& forall|i: int, j: int|
                0 <= i < j < chunks.len() ==> (#[trigger] chunks[i]).cx < (#[trigger] chunks[j]).cx
                    || (chunks[i].cx == chunks[j].cx && chunks[i].cz < chunks[j].cz)
        }),
    decreases n,
{
    if n > 0 {
        let m = (n - 1) as nat;
        let x = (area.cx1 + n - 1) as i32;
        let h = (area.cz2 - area.cz1 + 1) as nat;
        lemma_columns_own(entries, filter, area, m);
        lemma_column_own(entries, filter, x, area.cz1 as int, h);
        let rest = columns_chunks(entries, filter, area, m);
        let column = column_chunks(entries, filter, x, area.cz1 as int, h);
        let all = columns_chunks(entries, filter, area, n);
        assert(all == rest + column);
        assert forall|i: int| 0 <= i < all.len() implies {
            let c = #[trigger] all[i];
            &&& area.cx1 <= c.cx < area.cx1 + n
            &&& area.cz1 <= c.cz <= area.cz2
            &&& c.entries.len() > 0
            &&& c == chunk_at(entries, filter, c.cx, c.cz)
        } by {
            if i < rest.len() {
                assert(all[i] == rest[i]);
            } else {
                assert(all[i] == column[i - rest.len()]);
            }
        }
        assert forall|i: int, j: int| 0 <= i < j < all.len() implies (#[trigger] all[i]).cx < (
        #[trigger] all[j]).cx || (all[i].cx == all[j].cx && all[i].cz < all[j].cz) by {
            if j < rest.len() {
                assert(all[i] == rest[i] && all[j] == rest[j]);
            } else if i < rest.len() {
                assert(all[i] == rest[i] && all[j] == column[j - rest.len()]);
            } else {
                assert(all[i] == column[i - rest.len()] && all[j] == column[j - rest.len()]);
            }
        }
    }
}

/// A filter lets every key pass, or those of one dimension: by the field of four bytes alone, or by
/// either form.
pub proof fn law_filters(key: Seq<u8>, dim: u8)
    ensures
        passes(DimFilter::Any, key),
        passes(DimFilter::Field(dim), key) <==> key_dim(key) == dim,
        passes(DimFilter::Either(dim), key) <==> any_dim(key) == dim,
{
}

/// The chunks that keys belong to are counted once each: a chunk counts exactly if one of the keys
/// begins with its coordinates.
pub proof fn law_chunks_of_keys(keys: Seq<Seq<u8>>, i: int, cx: i32, cz: i32)
    ensures
        0 <= i < keys.len() && has_prefix(keys[i], chunk_prefix(cx, cz)) ==> chunks_of_keys(
            keys,
        ).contains((cx as int, cz as int)),
        chunks_of_keys(keys).contains((cx as int, cz as int)) ==> exists|k: int|
            0 <= k < keys.len() && has_prefix(#[trigger] keys[k], chunk_prefix(cx, cz)),
{
    if 0 <= i < keys.len() {
        law_chunk_prefix(keys[i], cx, cz);
    }
    if chunks_of_keys(keys).contains((cx as int, cz as int)) {
        let k = choose|k: int|
            0 <= k < keys.len() && (#[trigger] keys[k]).len() >= 8 && key_chunk(keys[k]) == (
                cx as int,
                cz as int,
            );
        law_chunk_prefix(keys[k], cx, cz);
    }
}

/// The chunks that are listed for keys are those whose coordinates begin one of the keys, each once.
pub proof fn law_listed_chunks(keys: Seq<Seq<u8>>, chunks: Seq<(i32, i32)>, cx: i32, cz: i32)
    requires
        lists_chunks(keys, chunks),
    ensures
        chunks.contains((cx, cz)) <==> exists|k: int|
            0 <= k < keys.len() && has_prefix(#[trigger] keys[k], chunk_prefix(cx, cz)),
        forall|i: int, j: int| 0 <= i < j < chunks.len() ==> #[trigger] chunks[i] != #[trigger] chunks[j],
{
    if chunks.contains((cx, cz)) {
        let i = chunks.index_of((cx, cz));
        assert(chunks_of_keys(keys).contains((chunks[i].0 as int, chunks[i].1 as int)));
        law_chunks_of_keys(keys, 0, cx, cz);
    }
    if exists|k: int| 0 <= k < keys.len() && has_prefix(#[trigger] keys[k], chunk_prefix(cx, cz)) {
        let k = choose|k: int|
            0 <= k < keys.len() && has_prefix(#[trigger] keys[k], chunk_prefix(cx, cz));
        law_chunk_prefix(keys[k], cx, cz);
        assert(keys[k].len() >= 8);
    }
}

} // verus!
