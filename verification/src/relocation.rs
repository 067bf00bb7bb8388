//! The whole of an import at another place: what it removes first and what it writes.

use crate::actors::key_views;
use crate::bytes::{bytes_before, bytes_equal, copy_bytes, law_prefix, lemma_before_irreflexive};
use crate::chunk_export::{area_document, area_origin, chunk_names, plain_exports};
use crate::codec::{decodes, is_decoder, is_encoder, Decoded};
use crate::entities::{
    actor_key, first_free, is_first_free, is_free_from, law_actor_keys_differ, ID_LIMIT,
};
use crate::json::{as_i64, member, Json, JsonView};
use crate::keys::{
    any_dim, chunk_key_prefix, chunk_prefix, dim_bytes, dimension_of_key, key_chunk,
    key_in_dimension, key_starts, law_chunk_prefix, DimField,
};
use crate::nbt::{CompoundTag, CompoundView, Real};
use crate::placement::{
    copies_actors, copies_run_out, copy_actors, digest_place, entry_kind, id_views, is_actor_entry,
    is_copied_actor, is_movable, kind_of_entry, law_digest_moves_with_chunk, law_entry_kinds, place_entries, place_of_digest, places_all, places_run_out,
    EntryKind, IdPair, PlacementError,
};
use crate::regions::{all_entries, area_chunks, is_area, Area, DimFilter};
use crate::relocate::{is_shift, shift_between, shift_to, Shift};
use crate::store::{entry_views, in_key_order, DbEntry, EntryView, Snapshot};
use crate::transfer::{import_plan, law_chunk_document, plan_import, ImportError};
use vstd::prelude::*;
use vstd::slice::slice_subrange;
use vstd::utf8::{encode_utf8, is_ascii_chars_encode_utf8};

verus! {

/// The lowest block of the rectangle that a document holds, where it says so.
pub open spec fn origin_of(data: JsonView) -> Option<(i32, i32)> {
    match member(data, "origin"@) {
        Some(o) => match (as_i64(member(o, "x"@)), as_i64(member(o, "z"@))) {
            (Some(x), Some(z)) => if i32::MIN <= x <= i32::MAX && i32::MIN <= z <= i32::MAX {
                Some((x as i32, z as i32))
            } else {
                None
            },
            _ => None,
        },
        None => None,
    }
}

/// The lowest block of the rectangle that a document holds, where it says so.
pub fn read_origin(data: &Json) -> (r: Option<(i32, i32)>)
    ensures
        r == origin_of(data@),
{
    let o = match data.get("origin") {
        Some(o) => o,
        None => {
            return None;
        },
    };
    if let Some(x) = o.get_i64("x") {
        if let Some(z) = o.get_i64("z") {
            if i32::MIN as i64 <= x && x <= i32::MAX as i64 && i32::MIN as i64 <= z && z
                <= i32::MAX as i64 {
                return Some((x as i32, z as i32));
            }
        }
    }
    None
}

/// The coordinates and the dimension, in its long form, of the chunk that an entry belongs to.
/// Only chunk data and digests belong to one.
pub open spec fn chunk_front(key: Seq<u8>) -> Option<Seq<u8>> {
    match entry_kind(key) {
        EntryKind::Chunk => Some(key.take(8) + dim_bytes(any_dim(key), DimField::Long)),
        EntryKind::Digest => match digest_place(key) {
            Some(p) => Some(chunk_prefix(p.cx, p.cz) + dim_bytes(p.dim, DimField::Long)),
            None => None,
        },
        _ => None,
    }
}

/// The fronts of the chunks that the first `n` entries belong to, each once.
pub open spec fn fronts(entries: Seq<EntryView>, n: nat) -> Seq<Seq<u8>>
    decreases n,
{
    if n == 0 {
        Seq::empty()
    } else {
        let rest = fronts(entries, (n - 1) as nat);
        match chunk_front(entries[n - 1].key) {
            Some(front) => if rest.contains(front) {
                rest
            } else {
                rest.push(front)
            },
            None => rest,
        }
    }
}

/// Whether an entry with a key is among entries.
pub open spec fn has_key(entries: Seq<EntryView>, key: Seq<u8>) -> bool {
    exists|i: int| 0 <= i < entries.len() && (#[trigger] entries[i]).key == key
}

/// The value under a key.
pub open spec fn value_in(entries: Seq<EntryView>, key: Seq<u8>) -> Seq<u8> {
    entries[choose|i: int| 0 <= i < entries.len() && (#[trigger] entries[i]).key == key].value
}

/// The keys of the actors that the first `n` identifiers of a digest list.
pub open spec fn listed_actors(value: Seq<u8>, n: nat) -> Seq<Seq<u8>>
    decreases n,
{
    if n == 0 {
        Seq::empty()
    } else {
        listed_actors(value, (n - 1) as nat).push(
            encode_utf8("actorprefix"@) + value.subrange(8 * (n - 1), 8 * n as int),
        )
    }
}

/// A digest and the actors that it lists, where there is one under a key.
pub open spec fn held_under(db: Seq<EntryView>, key: Seq<u8>) -> Seq<Seq<u8>> {
    if has_key(db, key) {
        let value = value_in(db, key);
        seq![key] + listed_actors(value, value.len() / 8)
    } else {
        Seq::empty()
    }
}

/// The keys of what a chunk held of entities: its digest and the actors that it lists. Outside the
/// overworld the key of the digest can have either form.
pub open spec fn held_by(db: Seq<EntryView>, front: Seq<u8>) -> Seq<Seq<u8>> {
    held_under(db, encode_utf8("digp"@) + front) + if front.len() > 8 {
        held_under(db, encode_utf8("digp"@) + front.take(9))
    } else {
        Seq::empty()
    }
}

/// The keys of what the first `n` chunks held of entities.
pub open spec fn held_by_all(db: Seq<EntryView>, chunks: Seq<Seq<u8>>, n: nat) -> Seq<Seq<u8>>
    decreases n,
{
    if n == 0 {
        Seq::empty()
    } else {
        held_by_all(db, chunks, (n - 1) as nat) + held_by(db, chunks[n - 1])
    }
}

/// The keys that are removed before entries are written: what the chunks among them held of
/// entities.
pub open spec fn removed_keys(db: Seq<EntryView>, writes: Seq<EntryView>) -> Seq<Seq<u8>> {
    let chunks = fronts(writes, writes.len());
    held_by_all(db, chunks, chunks.len())
}

fn is_listed(list: &Vec<Vec<u8>>, key: &[u8]) -> (r: bool)
    ensures
        r == key_views(list@).contains(key@),
{
    let ghost views = key_views(list@);
    let mut left: usize = list.len();
    while left > 0
        invariant
            views == key_views(list@),
            left <= list@.len(),
            forall|k: int| left <= k < list@.len() ==> #[trigger] views[k] != key@,
        decreases left,
    {
        left -= 1;
        assert(views[left as int] == list@[left as int]@);
        if bytes_equal(list[left].as_slice(), key) {
            return true;
        }
    }
    false
}

fn front_of_key(key: &[u8]) -> (r: Option<Vec<u8>>)
    ensures
        match r {
            Some(front) => chunk_front(key@) == Some(front@),
            None => chunk_front(key@) is None,
        },
{
    match kind_of_entry(key) {
        EntryKind::Chunk => {
            let dim: u8 = dimension_of_key(key);
            let front = key_in_dimension(slice_subrange(key, 0, 8), dim, DimField::Long);
            assert(front@ =~= key@.take(8) + dim_bytes(dim, DimField::Long));
            Some(front)
        },
        EntryKind::Digest => match place_of_digest(key) {
            Some(p) => {
                let prefix = chunk_key_prefix(p.cx, p.cz);
                let front = key_in_dimension(prefix.as_slice(), p.dim, DimField::Long);
                assert(front@ =~= chunk_prefix(p.cx, p.cz) + dim_bytes(p.dim, DimField::Long));
                Some(front)
            },
            None => None,
        },
        _ => None,
    }
}

fn collect_fronts(entries: &Vec<DbEntry>) -> (r: Vec<Vec<u8>>)
    ensures
        key_views(r@) == fronts(entry_views(entries@), entries@.len()),
{
    let ghost all = entry_views(entries@);
    let mut out: Vec<Vec<u8>> = Vec::new();
    assert(key_views(out@) =~= fronts(all, 0));
    for i in 0..entries.len()
        invariant
            all == entry_views(entries@),
            key_views(out@) == fronts(all, i as nat),
    {
        let key = entries[i].key.as_slice();
        assert(all[i as int].key == key@);
        if let Some(front) = front_of_key(key) {
            if !is_listed(&out, front.as_slice()) {
                let ghost before = key_views(out@);
                let ghost view = front@;
                out.push(front);
                assert(key_views(out@) =~= before.push(view));
            }
        }
    }
    out
}

fn push_held(db: &Snapshot, front: &[u8], out: &mut Vec<Vec<u8>>)
    requires
        db.wf(),
    ensures
        key_views(final(out)@) == key_views(old(out)@) + held_by(db@, front@),
{
    let ghost before = key_views(out@);
    push_held_under(db, front, out);
    if front.len() > 8 {
        let short = slice_subrange(front, 0, 9);
        assert(short@ =~= front@.take(9));
        push_held_under(db, short, out);
    }
    assert(key_views(out@) =~= before + held_by(db@, front@));
}

fn push_held_under(db: &Snapshot, front: &[u8], out: &mut Vec<Vec<u8>>)
    requires
        db.wf(),
    ensures
        key_views(final(out)@) == key_views(old(out)@) + held_under(
            db@,
            encode_utf8("digp"@) + front@,
        ),
{
    let ghost before = key_views(out@);
    let mut key = copy_bytes("digp".as_bytes());
    let mut rest = copy_bytes(front);
    key.append(&mut rest);
    assert(key@ =~= encode_utf8("digp"@) + front@);
    match db.get(key.as_slice()) {
        Some(value) => {
            proof {
                let i = choose|i: int|
                    0 <= i < db@.len() && (#[trigger] db@[i]).key == key@ && db@[i].value
                        == value@;
                let j = choose|j: int| 0 <= j < db@.len() && (#[trigger] db@[j]).key == key@;
                lemma_before_irreflexive(key@);
                if i < j {
                    assert(bytes_before(db@[i].key, db@[j].key));
                } else if j < i {
                    assert(bytes_before(db@[j].key, db@[i].key));
                }
                assert(value_in(db@, key@) == value@);
            }
            let ghost digest = key@;
            out.push(key);
            let ghost start = key_views(out@);
            assert(start =~= before.push(digest));
            let count: usize = value.len() / 8;
            assert(key_views(out@) =~= start + listed_actors(value@, 0));
            for i in 0..count
                invariant
                    count == value.len() / 8,
                    key_views(out@) == start + listed_actors(value@, i as nat),
            {
                let ghost so_far = key_views(out@);
                let mut actor = copy_bytes("actorprefix".as_bytes());
                let mut id = copy_bytes(slice_subrange(value.as_slice(), 8 * i, 8 * i + 8));
                actor.append(&mut id);
                let ghost view = actor@;
                assert(view =~= encode_utf8("actorprefix"@) + value@.subrange(8 * i, 8 * i + 8));
                out.push(actor);
                assert(key_views(out@) =~= so_far.push(view));
                assert(key_views(out@) =~= start + listed_actors(value@, (i + 1) as nat));
            }
            assert(key_views(out@) =~= before + held_under(db@, encode_utf8("digp"@) + front@));
        },
        None => {
            assert(key_views(out@) =~= before + held_under(db@, encode_utf8("digp"@) + front@));
        },
    }
}

/// The keys that are removed before entries are written.
pub fn keys_to_remove(db: &Snapshot, writes: &Vec<DbEntry>) -> (r: Vec<Vec<u8>>)
    requires
        db.wf(),
    ensures
        key_views(r@) == removed_keys(db@, entry_views(writes@)),
{
    let chunks = collect_fronts(writes);
    let ghost all = key_views(chunks@);
    let mut out: Vec<Vec<u8>> = Vec::new();
    assert(key_views(out@) =~= held_by_all(db@, all, 0));
    for i in 0..chunks.len()
        invariant
            db.wf(),
            all == key_views(chunks@),
            key_views(out@) == held_by_all(db@, all, i as nat),
    {
        push_held(db, chunks[i].as_slice(), &mut out);
    }
    out
}

proof fn lemma_front_listed(entries: Seq<EntryView>, n: nat, i: int)
    requires
        0 <= i < n <= entries.len(),
        chunk_front(entries[i].key) is Some,
    ensures
        fronts(entries, n).contains(chunk_front(entries[i].key).unwrap()),
    decreases n,
{
    let front = chunk_front(entries[i].key).unwrap();
    let rest = fronts(entries, (n - 1) as nat);
    let all = fronts(entries, n);
    if i < n - 1 {
        lemma_front_listed(entries, (n - 1) as nat, i);
        let k = rest.index_of(front);
        assert(all[k] == front);
    } else if !rest.contains(front) {
        assert(all[rest.len() as int] == front);
    }
}

proof fn lemma_held_listed(db: Seq<EntryView>, chunks: Seq<Seq<u8>>, n: nat, k: int, key: Seq<u8>)
    requires
        0 <= k < n <= chunks.len(),
        held_by(db, chunks[k]).contains(key),
    ensures
        held_by_all(db, chunks, n).contains(key),
    decreases n,
{
    let rest = held_by_all(db, chunks, (n - 1) as nat);
    let last = held_by(db, chunks[n - 1]);
    let all = held_by_all(db, chunks, n);
    if k < n - 1 {
        lemma_held_listed(db, chunks, (n - 1) as nat, k, key);
        assert(all[rest.index_of(key)] == key);
    } else {
        assert(all[rest.len() + last.index_of(key)] == key);
    }
}

proof fn lemma_actor_listed(value: Seq<u8>, n: nat, j: int)
    requires
        0 <= j < n,
    ensures
        listed_actors(value, n).len() == n,
        listed_actors(value, n)[j] == encode_utf8("actorprefix"@) + value.subrange(8 * j, 8 * j + 8),
    decreases n,
{
    if n > 1 && j < n - 1 {
        lemma_actor_listed(value, (n - 1) as nat, j);
    } else if n > 1 {
        lemma_actor_listed(value, (n - 1) as nat, 0);
    } else {
        assert(listed_actors(value, 0).len() == 0);
        reveal_with_fuel(listed_actors, 2);
    }
}

/// No entity of a chunk is left without a digest when data is written to the chunk: the digest
/// that the chunk had, in whichever form its key holds the dimension, is removed first, and so is
/// every actor that it lists.
pub proof fn law_no_orphans(
    db: Seq<EntryView>,
    writes: Seq<EntryView>,
    i: int,
    field: DimField,
    j: int,
)
    requires
        0 <= i < writes.len(),
        entry_kind(writes[i].key) == EntryKind::Chunk,
        field != DimField::Absent,
    ensures
        ({
            let key = writes[i].key;
            let digest = encode_utf8("digp"@) + key.take(8) + dim_bytes(any_dim(key), field);
            has_key(db, digest) ==> {
                let value = value_in(db, digest);
                &&& removed_keys(db, writes).contains(digest)
                &&& 0 <= j < value.len() / 8 ==> removed_keys(db, writes).contains(
                    encode_utf8("actorprefix"@) + value.subrange(8 * j, 8 * j + 8),
                )
            }
        }),
{
    let key = writes[i].key;
    let dim = any_dim(key);
    let front = chunk_front(key).unwrap();
    let digest = encode_utf8("digp"@) + key.take(8) + dim_bytes(dim, field);
    let chunks = fronts(writes, writes.len());
    lemma_front_listed(writes, writes.len(), i);
    let k = chunks.index_of(front);
    if has_key(db, digest) {
        let value = value_in(db, digest);
        let held = held_under(db, digest);
        let long = held_under(db, encode_utf8("digp"@) + front);
        assert forall|x: int| 0 <= x < held.len() implies removed_keys(db, writes).contains(
            #[trigger] held[x],
        ) by {
            if dim == 0 || field == DimField::Long {
                assert(digest =~= encode_utf8("digp"@) + front);
                assert(held_by(db, front)[x] == held[x]);
            } else {
                assert(front.take(9) =~= key.take(8) + dim_bytes(dim, field));
                assert(digest =~= encode_utf8("digp"@) + front.take(9));
                assert(held_by(db, front)[long.len() + x] == held[x]);
            }
            lemma_held_listed(db, chunks, chunks.len(), k, held[x]);
        }
        assert(held[0] == digest);
        if 0 <= j < value.len() / 8 {
            lemma_actor_listed(value, value.len() / 8, j);
            assert(held[j + 1] == encode_utf8("actorprefix"@) + value.subrange(8 * j, 8 * j + 8));
        }
    }
}

/// What an import at another place does: keys that it removes, then entries that it writes.
pub struct RelocationPlan {
    pub removals: Vec<Vec<u8>>,
    pub writes: Vec<DbEntry>,
    /// The number of actors that are copied.
    pub actors: usize,
}

/// Whether a plan is that of an import of entries at another place into a database: copies of
/// the actors with identifiers that are in use nowhere, everything else at its new place, and
/// what the chunks there held of entities removed first.
pub open spec fn is_plan<
    F: Fn(&[u8]) -> Option<Decoded>,
    E: Fn(&CompoundTag) -> Vec<u8>,
    M: Fn(Real, i64) -> Real,
>(
    decode: F,
    encode: E,
    travel: M,
    db: Seq<EntryView>,
    entries: Seq<EntryView>,
    s: Shift,
    first: int,
    ids: Seq<IdPair>,
    copies: Seq<EntryView>,
    placed: Seq<EntryView>,
    plan: RelocationPlan,
) -> bool {
    &&& is_first_counter(db, entries, first)
    &&& first + ids.len() <= ID_LIMIT
    &&& copies_actors(decode, encode, travel, entries, entries.len(), s, first, ids, copies)
    &&& places_all(decode, encode, travel, entries, s, ids, first + ids.len(), placed)
    &&& entry_views(plan.writes@) == copies + placed
    &&& key_views(plan.removals@) == removed_keys(db, placed)
    &&& plan.actors == copies.len()
}

/// Whether a counter is the first from which on no identifier is in use, neither in a database
/// nor among entries.
pub open spec fn is_first_counter(db: Seq<EntryView>, entries: Seq<EntryView>, first: int) -> bool {
    exists|known: int|
        #[trigger] is_first_free(db, 0, known) && is_first_free(entries, known, first)
}

/// Whether identifiers run out when the actors among entries are copied.
pub open spec fn lacks_for_actors<
    F: Fn(&[u8]) -> Option<Decoded>,
    E: Fn(&CompoundTag) -> Vec<u8>,
    M: Fn(Real, i64) -> Real,
>(
    decode: F,
    encode: E,
    travel: M,
    entries: Seq<EntryView>,
    s: Shift,
    first: int,
) -> bool {
    exists|n: nat, ids: Seq<IdPair>, writes: Seq<EntryView>|
        #[trigger] copies_run_out(decode, encode, travel, entries, n, s, first, ids, writes)
}

/// Whether identifiers run out for the entities in values, once the actors were copied.
pub open spec fn lacks_for_values<
    F: Fn(&[u8]) -> Option<Decoded>,
    E: Fn(&CompoundTag) -> Vec<u8>,
    M: Fn(Real, i64) -> Real,
>(
    decode: F,
    encode: E,
    travel: M,
    entries: Seq<EntryView>,
    s: Shift,
    first: int,
) -> bool {
    exists|
        ids: Seq<IdPair>,
        copies: Seq<EntryView>,
        n: nat,
        used: int,
        writes: Seq<EntryView>,
    |
        #[trigger] copies_actors(
            decode,
            encode,
            travel,
            entries,
            entries.len(),
            s,
            first,
            ids,
            copies,
        ) && #[trigger] places_run_out(
            decode,
            encode,
            travel,
            entries,
            n,
            s,
            ids,
            first + ids.len(),
            used,
            writes,
        )
}

/// Whether there are more entities among entries than identifiers that are not in use.
pub open spec fn lacks_identifiers<
    F: Fn(&[u8]) -> Option<Decoded>,
    E: Fn(&CompoundTag) -> Vec<u8>,
    M: Fn(Real, i64) -> Real,
>(
    decode: F,
    encode: E,
    travel: M,
    db: Seq<EntryView>,
    entries: Seq<EntryView>,
    s: Shift,
) -> bool {
    exists|first: int|
        #[trigger] is_first_counter(db, entries, first) && (lacks_for_actors(
            decode,
            encode,
            travel,
            entries,
            s,
            first,
        ) || lacks_for_values(decode, encode, travel, entries, s, first))
}

/// Whether a plan is that of an import of entries at another place into a database.
pub open spec fn is_relocation<
    F: Fn(&[u8]) -> Option<Decoded>,
    E: Fn(&CompoundTag) -> Vec<u8>,
    M: Fn(Real, i64) -> Real,
>(
    decode: F,
    encode: E,
    travel: M,
    db: Seq<EntryView>,
    entries: Seq<EntryView>,
    s: Shift,
    plan: RelocationPlan,
) -> bool {
    exists|
        first: int,
        ids: Seq<IdPair>,
        copies: Seq<EntryView>,
        placed: Seq<EntryView>,
    |
        #[trigger] is_plan(
            decode,
            encode,
            travel,
            db,
            entries,
            s,
            first,
            ids,
            copies,
            placed,
            plan,
        )
}

/// Plans the import of entries at another place.
pub fn plan_relocation<
    F: Fn(&[u8]) -> Option<Decoded>,
    E: Fn(&CompoundTag) -> Vec<u8>,
    M: Fn(Real, i64) -> Real,
>(
    db: &Snapshot,
    entries: &Vec<DbEntry>,
    s: Shift,
    decode: &F,
    encode: &E,
    travel: &M,
) -> (r: Result<RelocationPlan, PlacementError>)
    requires
        db.wf(),
        is_decoder(*decode),
        is_encoder(*encode),
        forall|v: Real, d: i64| call_requires(*travel, (v, d)),
        is_shift(s),
    ensures
        match r {
            Ok(plan) => {
                &&& is_relocation(
                    *decode,
                    *encode,
                    *travel,
                    db@,
                    entry_views(entries@),
                    s,
                    plan,
                )
                &&& forall|i: int|
                    0 <= i < entries@.len() ==> is_movable((#[trigger] entries@[i]).key@, s)
            },
            Err(PlacementError::OutOfWorld(key)) => !is_movable(key@, s) && exists|i: int|
                0 <= i < entries@.len() && (#[trigger] entries@[i]).key@ == key@,
            Err(PlacementError::NoIdentifiers) => lacks_identifiers(
                *decode,
                *encode,
                *travel,
                db@,
                entry_views(entries@),
                s,
            ),
        },
{
    let known: u32 = first_free(db.entries(), 0);
    let first: u32 = first_free(entries, known);
    assert(is_first_free(db@, 0, known as int));
    assert(is_first_counter(db@, entry_views(entries@), first as int));
    assert(is_free_from(db@, first as int));
    let copies = match copy_actors(entries, s, first, decode, encode, travel) {
        Some(c) => c,
        None => {
            assert(lacks_for_actors(
                *decode,
                *encode,
                *travel,
                entry_views(entries@),
                s,
                first as int,
            ));
            return Err(PlacementError::NoIdentifiers);
        },
    };
    let taken: u32 = copies.ids.len() as u32;
    let placed = match place_entries(
        entries,
        s,
        &copies.ids,
        first + taken,
        decode,
        encode,
        travel,
    ) {
        Ok(p) => p,
        Err(e) => {
            return match e {
                PlacementError::OutOfWorld(key) => Err(PlacementError::OutOfWorld(key)),
                PlacementError::NoIdentifiers => {
                    proof {
                        let views = entry_views(entries@);
                        let ids = id_views(copies.ids@);
                        assert(views.len() == entries@.len());
                        assert(first + taken == first + ids.len());
                        let (n, used, writes) = choose|n: nat, used: int, writes: Seq<EntryView>|
                            #[trigger] places_run_out(
                                *decode,
                                *encode,
                                *travel,
                                views,
                                n,
                                s,
                                ids,
                                (first + taken) as int,
                                used,
                                writes,
                            );
                        assert(copies_actors(
                            *decode,
                            *encode,
                            *travel,
                            views,
                            views.len(),
                            s,
                            first as int,
                            ids,
                            entry_views(copies.writes@),
                        ));
                        assert(places_run_out(
                            *decode,
                            *encode,
                            *travel,
                            views,
                            n,
                            s,
                            ids,
                            first + ids.len(),
                            used,
                            writes,
                        ));
                        assert(lacks_for_values(*decode, *encode, *travel, views, s, first as int));
                    }
                    Err(PlacementError::NoIdentifiers)
                },
            };
        },
    };
    let removals = keys_to_remove(db, &placed);
    let actors: usize = copies.writes.len();
    let ghost ids = id_views(copies.ids@);
    let ghost front = entry_views(copies.writes@);
    let ghost back = entry_views(placed@);
    let mut writes = copies.writes;
    let mut rest = placed;
    writes.append(&mut rest);
    assert(entry_views(writes@) =~= front + back);
    let plan = RelocationPlan { removals, writes, actors };
    assert(is_plan(
        *decode,
        *encode,
        *travel,
        db@,
        entry_views(entries@),
        s,
        first as int,
        ids,
        front,
        back,
        plan,
    ));
    Ok(plan)
}

proof fn lemma_copy_keys<
    F: Fn(&[u8]) -> Option<Decoded>,
    E: Fn(&CompoundTag) -> Vec<u8>,
    M: Fn(Real, i64) -> Real,
>(
    decode: F,
    encode: E,
    travel: M,
    entries: Seq<EntryView>,
    n: nat,
    s: Shift,
    first: int,
    ids: Seq<IdPair>,
    copies: Seq<EntryView>,
)
    requires
        copies_actors(decode, encode, travel, entries, n, s, first, ids, copies),
    ensures
        copies.len() == ids.len(),
        forall|i: int| 0 <= i < copies.len() ==> (#[trigger] copies[i]).key == actor_key(first + i),
    decreases n,
{
    if n > 0 {
        let m = (n - 1) as nat;
        let e = entries[n - 1];
        if is_actor_entry(e.key) {
            let tag = choose|tag: Option<CompoundView>|
                #[trigger] decodes(decode, e.value, tag) && if is_copied_actor(tag) {
                    ids.len() > 0 && ids.len() == copies.len() && copies_actors(
                        decode,
                        encode,
                        travel,
                        entries,
                        m,
                        s,
                        first,
                        ids.drop_last(),
                        copies.drop_last(),
                    ) && copies.last().key == actor_key(first + ids.len() - 1)
                } else {
                    copies_actors(decode, encode, travel, entries, m, s, first, ids, copies)
                };
            if is_copied_actor(tag) {
                lemma_copy_keys(
                    decode,
                    encode,
                    travel,
                    entries,
                    m,
                    s,
                    first,
                    ids.drop_last(),
                    copies.drop_last(),
                );
                assert forall|i: int| 0 <= i < copies.len() implies (#[trigger] copies[i]).key
                    == actor_key(first + i) by {
                    if i < copies.len() - 1 {
                        assert(copies[i] == copies.drop_last()[i]);
                    }
                }
            } else {
                lemma_copy_keys(decode, encode, travel, entries, m, s, first, ids, copies);
            }
        } else {
            lemma_copy_keys(decode, encode, travel, entries, m, s, first, ids, copies);
        }
    }
}

/// A copied actor never takes the place of another: its key is in use neither in the database nor
/// among the entries, and no two copies share one.
pub proof fn law_copies_are_new<
    F: Fn(&[u8]) -> Option<Decoded>,
    E: Fn(&CompoundTag) -> Vec<u8>,
    M: Fn(Real, i64) -> Real,
>(
    decode: F,
    encode: E,
    travel: M,
    db: Seq<EntryView>,
    entries: Seq<EntryView>,
    s: Shift,
    first: int,
    ids: Seq<IdPair>,
    copies: Seq<EntryView>,
    placed: Seq<EntryView>,
    plan: RelocationPlan,
    i: int,
)
    requires
        is_plan(
            decode,
            encode,
            travel,
            db,
            entries,
            s,
            first,
            ids,
            copies,
            placed,
            plan,
        ),
        0 <= i < copies.len(),
    ensures
        !has_key(db, copies[i].key),
        !has_key(entries, copies[i].key),
        forall|j: int| 0 <= j < copies.len() && j != i ==> (#[trigger] copies[j]).key != copies[i].key,
{
    lemma_copy_keys(decode, encode, travel, entries, entries.len(), s, first, ids, copies);
    assert(copies[i].key == actor_key(first + i));
    let known = choose|known: int|
        #[trigger] is_first_free(db, 0, known) && is_first_free(entries, known, first);
    assert(is_free_from(db, known));
    assert(is_free_from(entries, first));
    assert forall|j: int| 0 <= j < copies.len() && j != i implies (#[trigger] copies[j]).key
        != copies[i].key by {
        assert(copies[j].key == actor_key(first + j));
        law_actor_keys_differ(first + j, first + i);
    }
}

/// Why a text cannot be imported at another place.
pub enum RelocationError {
    /// It cannot be imported at all.
    Import(ImportError),
    /// It does not say where its chunks come from.
    NoOrigin,
    /// Its entries cannot be moved.
    Placement(PlacementError),
}

/// The shift that brings the chunks of a document to the chunk of a block.
pub open spec fn document_shift(data: JsonView, to: (i32, i32), dimension: Option<u8>) -> Option<
    Shift,
> {
    match origin_of(data) {
        Some((x, z)) => Some(
            shift_between(x as int, z as int, to.0 as int, to.1 as int, dimension),
        ),
        None => None,
    }
}

/// Plans the import of a document at another place: its lowest chunk comes to the chunk of a
/// block.
pub fn plan_document_relocation<
    F: Fn(&[u8]) -> Option<Decoded>,
    E: Fn(&CompoundTag) -> Vec<u8>,
    M: Fn(Real, i64) -> Real,
>(
    db: &Snapshot,
    data: &Json,
    to: (i32, i32),
    dimension: Option<u8>,
    decode: &F,
    encode: &E,
    travel: &M,
) -> (r: Result<RelocationPlan, RelocationError>)
    requires
        db.wf(),
        is_decoder(*decode),
        is_encoder(*encode),
        forall|v: Real, d: i64| call_requires(*travel, (v, d)),
        dimension matches Some(d) ==> d <= 2,
    ensures
        match import_plan(data@).error {
            Some(e) => r matches Err(RelocationError::Import(x)) && x@ == e,
            None => match document_shift(data@, to, dimension) {
                None => r is Err && r->Err_0 is NoOrigin,
                Some(s) => match r {
                    Ok(plan) => is_relocation(
                        *decode,
                        *encode,
                        *travel,
                        db@,
                        import_plan(data@).entries,
                        s,
                        plan,
                    ),
                    Err(RelocationError::Placement(PlacementError::OutOfWorld(key))) => !is_movable(
                        key@,
                        s,
                    ) && has_key(import_plan(data@).entries, key@),
                    Err(RelocationError::Placement(PlacementError::NoIdentifiers)) =>
                        lacks_identifiers(
                            *decode,
                            *encode,
                            *travel,
                            db@,
                            import_plan(data@).entries,
                            s,
                        ),
                    Err(_) => false,
                },
            },
        },
{
    let plan = plan_import(data);
    if let Some(e) = plan.error {
        return Err(RelocationError::Import(e));
    }
    let origin = match read_origin(data) {
        Some(o) => o,
        None => {
            return Err(RelocationError::NoOrigin);
        },
    };
    let s = shift_to(origin, to, dimension);
    match plan_relocation(db, &plan.entries, s, decode, encode, travel) {
        Ok(p) => Ok(p),
        Err(PlacementError::OutOfWorld(key)) => {
            proof {
                let i = choose|i: int|
                    0 <= i < plan.entries@.len() && (#[trigger] plan.entries@[i]).key@ == key@;
                assert(entry_views(plan.entries@)[i].key == key@);
            }
            Err(RelocationError::Placement(PlacementError::OutOfWorld(key)))
        },
        Err(PlacementError::NoIdentifiers) => Err(
            RelocationError::Placement(PlacementError::NoIdentifiers),
        ),
    }
}

/// An exported rectangle comes with the origin that an import at another place reads: its lowest
/// chunk then goes to the chunk of the target, and to its own place where that is the target.
pub proof fn law_export_then_relocate(
    entries: Seq<EntryView>,
    filter: DimFilter,
    area: Area,
    to: (i32, i32),
    dimension: Option<u8>,
)
    requires
        is_area(area),
    ensures
        ({
            let data = area_document(entries, filter, area);
            &&& origin_of(data) == Some(((16 * area.cx1) as i32, (16 * area.cz1) as i32))
            &&& document_shift(data, to, dimension) matches Some(s) && s.dimension == dimension
                && 16 * (area.cx1 + s.dcx) <= to.0 < 16 * (area.cx1 + s.dcx) + 16 && 16 * (area.cz1
                + s.dcz) <= to.1 < 16 * (area.cz1 + s.dcz) + 16
        }),
{
    let chunks = area_chunks(entries, filter, area);
    law_chunk_document(
        chunk_names(chunks),
        area_origin(area),
        plain_exports(all_entries(chunks)),
    );
}

proof fn lemma_front_has_write(entries: Seq<EntryView>, n: nat, front: Seq<u8>)
    requires
        n <= entries.len(),
        fronts(entries, n).contains(front),
    ensures
        exists|i: int| 0 <= i < n && chunk_front((#[trigger] entries[i]).key) == Some(front),
    decreases n,
{
    if n > 0 {
        let rest = fronts(entries, (n - 1) as nat);
        if rest.contains(front) {
            lemma_front_has_write(entries, (n - 1) as nat, front);
        } else {
            let all = fronts(entries, n);
            let k = all.index_of(front);
            assert(all[k] == front);
            if k < rest.len() {
                assert(rest[k] == front);
            }
            assert(chunk_front(entries[n - 1].key) == Some(front));
        }
    }
}

proof fn lemma_held_from(db: Seq<EntryView>, chunks: Seq<Seq<u8>>, n: nat, key: Seq<u8>)
    requires
        n <= chunks.len(),
        held_by_all(db, chunks, n).contains(key),
    ensures
        exists|k: int| 0 <= k < n && held_by(db, #[trigger] chunks[k]).contains(key),
    decreases n,
{
    if n > 0 {
        let rest = held_by_all(db, chunks, (n - 1) as nat);
        let last = held_by(db, chunks[n - 1]);
        let all = held_by_all(db, chunks, n);
        let k = all.index_of(key);
        assert(all[k] == key);
        if k < rest.len() {
            assert(rest[k] == key);
            lemma_held_from(db, chunks, (n - 1) as nat, key);
        } else {
            assert(last[k - rest.len()] == key);
            assert(last.contains(key));
        }
    }
}

/// An import at another place removes nothing but what the chunks that it writes to held of
/// entities: every removed key is a digest of such a chunk, or an actor that such a digest lists.
pub proof fn law_only_entities_are_removed(db: Seq<EntryView>, writes: Seq<EntryView>, key: Seq<u8>)
    requires
        removed_keys(db, writes).contains(key),
    ensures
        exists|i: int, digest: Seq<u8>|
            {
                &&& 0 <= i < writes.len()
                &&& #[trigger] is_digest_of(digest, writes[i].key)
                &&& has_key(db, digest)
                &&& digest == key || listed_actors(
                    value_in(db, digest),
                    value_in(db, digest).len() / 8,
                ).contains(key)
            },
{
    let chunks = fronts(writes, writes.len());
    lemma_held_from(db, chunks, chunks.len(), key);
    let k = choose|k: int| 0 <= k < chunks.len() && held_by(db, #[trigger] chunks[k]).contains(key);
    let front = chunks[k];
    assert(chunks.contains(front));
    lemma_front_has_write(writes, writes.len(), front);
    let i = choose|i: int|
        0 <= i < writes.len() && chunk_front((#[trigger] writes[i]).key) == Some(front);
    let long = encode_utf8("digp"@) + front;
    let short = encode_utf8("digp"@) + front.take(9);
    let held = held_by(db, front);
    let q = held.index_of(key);
    assert(held[q] == key);
    let digest = if q < held_under(db, long).len() {
        long
    } else {
        short
    };
    let from = held_under(db, digest);
    let p = if q < held_under(db, long).len() {
        q
    } else {
        q - held_under(db, long).len()
    };
    assert(from[p] == key);
    let value = value_in(db, digest);
    let listed = listed_actors(value, value.len() / 8);
    if p > 0 {
        assert(listed[p - 1] == key);
        assert(listed.contains(key));
    }
    assert(is_digest_of(digest, writes[i].key));
}

/// Whether a key is one of a digest of the chunk that an entry belongs to, in either form.
pub open spec fn is_digest_of(digest: Seq<u8>, key: Seq<u8>) -> bool {
    chunk_front(key) matches Some(front) && (digest == encode_utf8("digp"@) + front || (front.len()
        > 8 && digest == encode_utf8("digp"@) + front.take(9)))
}

/// The chunk that an entry belongs to is the one that its key names.
pub proof fn law_chunk_front(key: Seq<u8>, cx: i32, cz: i32)
    requires
        entry_kind(key) == EntryKind::Chunk,
        key_chunk(key) == (cx as int, cz as int),
    ensures
        any_dim(key) == 0 ==> chunk_front(key) == Some(chunk_prefix(cx, cz)),
        any_dim(key) != 0 ==> chunk_front(key) == Some(
            chunk_prefix(cx, cz) + seq![any_dim(key), 0u8, 0u8, 0u8],
        ),
{
    law_chunk_prefix(key, cx, cz);
    assert(key.take(8) =~= key.subrange(0, 8));
    assert(chunk_prefix(cx, cz).len() == 8);
    assert(key.take(8) + Seq::<u8>::empty() =~= key.take(8));
}

/// A digest belongs to the chunk that its key names behind `digp`.
pub proof fn law_digest_front(cx: i32, cz: i32, dim: u8, field: DimField)
    requires
        dim <= 2,
        dim == 0 <==> field == DimField::Absent,
    ensures
        chunk_front(encode_utf8("digp"@) + chunk_prefix(cx, cz) + dim_bytes(dim, field)) == Some(
            chunk_prefix(cx, cz) + dim_bytes(dim, DimField::Long),
        ),
{
    let key = encode_utf8("digp"@) + chunk_prefix(cx, cz) + dim_bytes(dim, field);
    law_digest_moves_with_chunk(
        cx,
        cz,
        dim,
        field,
        Shift { dcx: 0, dcz: 0, dimension: None },
    );
    let rest = chunk_prefix(cx, cz) + dim_bytes(dim, field);
    assert(key =~= encode_utf8("digp"@) + rest);
    law_prefix(key, encode_utf8("digp"@), rest);
    assert(!key_starts(key, "actorprefix"@)) by {
        reveal_strlit("digp");
        reveal_strlit("actorprefix");
        is_ascii_chars_encode_utf8("digp"@);
        is_ascii_chars_encode_utf8("actorprefix"@);
        let a = encode_utf8("actorprefix"@);
        assert(key[0] == encode_utf8("digp"@)[0]);
        if key_starts(key, "actorprefix"@) {
            assert(key.subrange(0, a.len() as int)[0] == a[0]);
        }
    }
    law_entry_kinds(key);
}

/// An import at another place leaves no entity without a digest: what the digest of a chunk that it
/// writes to held, and the digest itself, in whichever form its key holds the dimension, is among the
/// removals of its plan.
pub proof fn law_plan_leaves_no_orphans<
    F: Fn(&[u8]) -> Option<Decoded>,
    E: Fn(&CompoundTag) -> Vec<u8>,
    M: Fn(Real, i64) -> Real,
>(
    decode: F,
    encode: E,
    travel: M,
    db: Seq<EntryView>,
    entries: Seq<EntryView>,
    s: Shift,
    first: int,
    ids: Seq<IdPair>,
    copies: Seq<EntryView>,
    placed: Seq<EntryView>,
    plan: RelocationPlan,
    i: int,
    field: DimField,
    j: int,
)
    requires
        is_plan(decode, encode, travel, db, entries, s, first, ids, copies, placed, plan),
        0 <= i < placed.len(),
        entry_kind(placed[i].key) == EntryKind::Chunk,
        field != DimField::Absent,
    ensures
        entry_views(plan.writes@) == copies + placed,
        plan.actors == ids.len(),
        ({
            let key = placed[i].key;
            let digest = encode_utf8("digp"@) + key.take(8) + dim_bytes(any_dim(key), field);
            has_key(db, digest) ==> {
                let value = value_in(db, digest);
                &&& key_views(plan.removals@).contains(digest)
                &&& 0 <= j < value.len() / 8 ==> key_views(plan.removals@).contains(
                    encode_utf8("actorprefix"@) + value.subrange(8 * j, 8 * j + 8),
                )
            }
        }),
{
    lemma_copy_keys(decode, encode, travel, entries, entries.len(), s, first, ids, copies);
    law_no_orphans(db, placed, i, field, j);
}

/// The value under a key is that of the entry with the key, where the keys are in order.
pub proof fn law_value_in(db: Seq<EntryView>, i: int)
    requires
        in_key_order(db),
        0 <= i < db.len(),
    ensures
        has_key(db, db[i].key),
        value_in(db, db[i].key) == db[i].value,
{
    let key = db[i].key;
    let j = choose|j: int| 0 <= j < db.len() && (#[trigger] db[j]).key == key;
    lemma_before_irreflexive(key);
    if i < j {
        assert(bytes_before(db[i].key, db[j].key));
    } else if j < i {
        assert(bytes_before(db[j].key, db[i].key));
    }
}

} // verus!
