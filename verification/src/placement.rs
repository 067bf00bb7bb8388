//! What an import at another place writes and removes.

use crate::actors::{is_player_actor, player_actor};
use crate::bytes::{
    bytes_equal, copy_bytes, law_le_i32_round_trip, le_i32, le_i32_bytes, read_i32_le,
};
use crate::codec::{
    compound_views, decode_one, decodes, encode_all, encode_one, encodes, encodes_all, is_decoder,
    is_encoder, read_all, reads_up_to, Decoded,
};
use crate::entities::{
    actor_key, are_copies, copied, copy_entities, copy_entity, id_bytes, is_copy, key_of_actor,
    push_id, with_id, ID_LIMIT,
};
use crate::keys::{
    chunk_of, chunk_prefix, dim_bytes, dimension_field, is_chunk_key_bytes, is_named,
    is_player_data_key, key_rest, key_starts, key_starts_with, law_dimension_of_key, named,
    player_data_key, width, DimField,
};
use crate::nbt::{lookup_text, CompoundTag, CompoundView, Real};
use crate::nbt_edit::{move_compound, move_ticks, moved, moved_ticks, placed, position};
use crate::relocate::{is_shift, move_front, move_key, moved_front, moved_key, Shift};
use crate::selection::{lemma_select_next, lemma_select_none, selects};
use crate::store::{entry_views, DbEntry, EntryView};
use vstd::prelude::*;
use vstd::slice::slice_subrange;
use vstd::utf8::{encode_utf8, is_ascii_chars_encode_utf8};

verus! {

/// What kind of data a key is for, where it is to be moved.
#[derive(Clone, Copy, PartialEq, Eq, Structural, Debug)]
pub enum EntryKind {
    Actor,
    Digest,
    Player,
    Chunk,
    Other,
}

/// What kind of data a key is for. A key that is long enough and does not begin with a name is
/// that of a chunk, whatever its first byte.
pub open spec fn entry_kind(key: Seq<u8>) -> EntryKind {
    if key_starts(key, "actorprefix"@) {
        EntryKind::Actor
    } else if key_starts(key, "digp"@) {
        EntryKind::Digest
    } else if key.len() >= 9 && !is_named(key) {
        EntryKind::Chunk
    } else if is_player_data_key(key) {
        EntryKind::Player
    } else {
        EntryKind::Other
    }
}

/// What kind of data a key is for.
pub fn kind_of_entry(key: &[u8]) -> (r: EntryKind)
    ensures
        r == entry_kind(key@),
{
    if key_starts_with(key, "actorprefix") {
        EntryKind::Actor
    } else if key_starts_with(key, "digp") {
        EntryKind::Digest
    } else if key.len() >= 9 && !named(key) {
        EntryKind::Chunk
    } else if player_data_key(key) {
        EntryKind::Player
    } else {
        EntryKind::Other
    }
}

/// The chunk of a digest and how its key holds the dimension.
pub struct DigestPlace {
    pub cx: i32,
    pub cz: i32,
    pub dim: u8,
    pub field: DimField,
}

/// The chunk of a digest, where its key has a known form.
pub open spec fn digest_place(key: Seq<u8>) -> Option<DigestPlace> {
    let cx = le_i32(key, 4) as i32;
    let cz = le_i32(key, 8) as i32;
    if key.len() == 12 {
        Some(DigestPlace { cx, cz, dim: 0, field: DimField::Absent })
    } else if key.len() == 13 && (key[12] == 1 || key[12] == 2) {
        Some(DigestPlace { cx, cz, dim: key[12], field: DimField::Short })
    } else if key.len() == 16 && (le_i32(key, 12) == 1 || le_i32(key, 12) == 2) {
        Some(DigestPlace { cx, cz, dim: le_i32(key, 12) as u8, field: DimField::Long })
    } else {
        None
    }
}

pub(crate) fn place_of_digest(key: &[u8]) -> (r: Option<DigestPlace>)
    ensures
        r == digest_place(key@),
{
    if key.len() == 12 {
        Some(
            DigestPlace {
                cx: read_i32_le(key, 4),
                cz: read_i32_le(key, 8),
                dim: 0,
                field: DimField::Absent,
            },
        )
    } else if key.len() == 13 && (key[12] == 1 || key[12] == 2) {
        Some(
            DigestPlace {
                cx: read_i32_le(key, 4),
                cz: read_i32_le(key, 8),
                dim: key[12],
                field: DimField::Short,
            },
        )
    } else if key.len() == 16 && (read_i32_le(key, 12) == 1 || read_i32_le(key, 12) == 2) {
        Some(
            DigestPlace {
                cx: read_i32_le(key, 4),
                cz: read_i32_le(key, 8),
                dim: read_i32_le(key, 12) as u8,
                field: DimField::Long,
            },
        )
    } else {
        None
    }
}

/// The key of the digest of a moved chunk.
pub open spec fn moved_digest_key(p: DigestPlace, s: Shift) -> Option<Seq<u8>> {
    match moved_front(p.cx as int, p.cz as int, p.dim, p.field, s) {
        Some(front) => Some(encode_utf8("digp"@) + front),
        None => None,
    }
}

fn move_digest_key(p: &DigestPlace, s: Shift) -> (r: Option<Vec<u8>>)
    ensures
        match r {
            Some(k) => moved_digest_key(*p, s) == Some(k@),
            None => moved_digest_key(*p, s) is None,
        },
{
    match move_front(p.cx, p.cz, p.dim, p.field, s) {
        Some(front) => {
            let mut out = copy_bytes("digp".as_bytes());
            let mut rest = front;
            out.append(&mut rest);
            Some(out)
        },
        None => None,
    }
}

/// An old identifier and the counter of the new one.
pub type IdPair = (Seq<u8>, int);

/// The counter of the new identifier in place of an old one.
pub open spec fn new_id(ids: Seq<IdPair>, old_id: Seq<u8>) -> Option<int>
    decreases ids.len(),
{
    if ids.len() == 0 {
        None
    } else if ids.last().0 == old_id {
        Some(ids.last().1)
    } else {
        new_id(ids.drop_last(), old_id)
    }
}

/// The first `n` identifiers of a digest, each by its new one. Those of entities that were not
/// copied are left out.
pub open spec fn moved_digest(value: Seq<u8>, ids: Seq<IdPair>, n: nat) -> Seq<u8>
    decreases n,
{
    if n == 0 {
        Seq::empty()
    } else {
        let rest = moved_digest(value, ids, (n - 1) as nat);
        match new_id(ids, value.subrange(8 * (n - 1), 8 * n as int)) {
            Some(k) => rest + id_bytes(k),
            None => rest,
        }
    }
}

/// Identifiers by what they hold.
pub open spec fn id_views(ids: Seq<(Vec<u8>, u32)>) -> Seq<IdPair> {
    ids.map_values(|p: (Vec<u8>, u32)| (p.0@, p.1 as int))
}

fn find_new_id(ids: &Vec<(Vec<u8>, u32)>, old_id: &[u8]) -> (r: Option<u32>)
    ensures
        match r {
            Some(k) => new_id(id_views(ids@), old_id@) == Some(k as int) && exists|i: int|
                0 <= i < ids@.len() && (#[trigger] ids@[i]).1 == k,
            None => new_id(id_views(ids@), old_id@) is None,
        },
{
    let ghost all = id_views(ids@);
    let mut left: usize = ids.len();
    assert(all.take(left as int) =~= all);
    while left > 0
        invariant
            all == id_views(ids@),
            left <= ids@.len(),
            new_id(all, old_id@) == new_id(all.take(left as int), old_id@),
        decreases left,
    {
        left -= 1;
        assert(all.take(left + 1).last() == all[left as int]);
        assert(all.take(left + 1).drop_last() =~= all.take(left as int));
        if bytes_equal(ids[left].0.as_slice(), old_id) {
            return Some(ids[left].1);
        }
    }
    None
}

/// The digest of a moved chunk.
pub fn move_digest(value: &[u8], ids: &Vec<(Vec<u8>, u32)>) -> (r: Vec<u8>)
    requires
        forall|i: int| 0 <= i < ids@.len() ==> (#[trigger] ids@[i]).1 < ID_LIMIT,
    ensures
        r@ == moved_digest(value@, id_views(ids@), value@.len() / 8),
{
    let mut out: Vec<u8> = Vec::new();
    let count: usize = value.len() / 8;
    for i in 0..count
        invariant
            count == value.len() / 8,
            forall|i: int| 0 <= i < ids@.len() ==> (#[trigger] ids@[i]).1 < ID_LIMIT,
            out@ == moved_digest(value@, id_views(ids@), i as nat),
    {
        let old_id = slice_subrange(value, 8 * i, 8 * i + 8);
        if let Some(k) = find_new_id(ids, old_id) {
            push_id(&mut out, k);
        }
    }
    out
}

/// How the value under a chunk key is moved.
#[derive(Clone, Copy, PartialEq, Eq, Structural, Debug)]
pub enum ValueKind {
    BlockEntities,
    Entities,
    Ticks,
    Plain,
}

/// How the value under a chunk key is moved, by the tag of the key.
pub open spec fn value_kind(key: Seq<u8>) -> ValueKind {
    let tag = key_rest(key)[0];
    if tag == 0x31 {
        ValueKind::BlockEntities
    } else if tag == 0x32 {
        ValueKind::Entities
    } else if tag == 0x33 {
        ValueKind::Ticks
    } else {
        ValueKind::Plain
    }
}

fn kind_of_value(key: &[u8]) -> (r: ValueKind)
    requires
        key@.len() >= 9,
    ensures
        r == value_kind(key@),
{
    let tag: u8 = key[8 + width(dimension_field(key))];
    if tag == 0x31 {
        ValueKind::BlockEntities
    } else if tag == 0x32 {
        ValueKind::Entities
    } else if tag == 0x33 {
        ValueKind::Ticks
    } else {
        ValueKind::Plain
    }
}

/// How far blocks are moved along one axis.
pub open spec fn blocks(chunks: i32) -> i64 {
    (16 * chunks) as i64
}

/// Whether a value is another with its compounds changed. What cannot be decoded stays at the
/// end as it was.
pub open spec fn rewritten<F: Fn(&[u8]) -> Option<Decoded>, E: Fn(&CompoundTag) -> Vec<u8>>(
    decode: F,
    encode: E,
    value: Seq<u8>,
    tags: Seq<CompoundView>,
    end: int,
    changed: Seq<CompoundView>,
    result: Seq<u8>,
) -> bool {
    &&& reads_up_to(decode, value, tags, end)
    &&& exists|front: Seq<u8>|
        #[trigger] encodes_all(encode, changed, front) && result == front + value.skip(end)
}

/// Block entities moved by a shift.
pub open spec fn moved_all(tags: Seq<CompoundView>, s: Shift) -> Seq<CompoundView> {
    tags.map_values(|t: CompoundView| moved(t, blocks(s.dcx) as int, blocks(s.dcz) as int))
}

/// Pending ticks moved by a shift.
pub open spec fn moved_all_ticks(tags: Seq<CompoundView>, s: Shift) -> Seq<CompoundView> {
    tags.map_values(|t: CompoundView| moved_ticks(t, blocks(s.dcx) as int, blocks(s.dcz) as int))
}

/// Whether a value under a chunk key is another one moved by a shift, where entities get
/// identifiers from a counter on and take so many of them.
pub open spec fn is_moved_value<
    F: Fn(&[u8]) -> Option<Decoded>,
    E: Fn(&CompoundTag) -> Vec<u8>,
    M: Fn(Real, i64) -> Real,
>(
    decode: F,
    encode: E,
    travel: M,
    kind: ValueKind,
    value: Seq<u8>,
    s: Shift,
    first: int,
    used: int,
    result: Seq<u8>,
) -> bool {
    match kind {
        ValueKind::Plain => result == value && used == 0,
        ValueKind::BlockEntities => used == 0 && exists|tags: Seq<CompoundView>, end: int|
            #[trigger] rewritten(
                decode,
                encode,
                value,
                tags,
                end,
                moved_all(tags, s),
                result,
            ),
        ValueKind::Ticks => used == 0 && exists|tags: Seq<CompoundView>, end: int|
            #[trigger] rewritten(
                decode,
                encode,
                value,
                tags,
                end,
                moved_all_ticks(tags, s),
                result,
            ),
        ValueKind::Entities => exists|
            tags: Seq<CompoundView>,
            end: int,
            copies: Seq<CompoundView>,
        |
            #[trigger] rewritten(decode, encode, value, tags, end, copies, result) && are_copies(
                travel,
                copied(tags),
                blocks(s.dcx),
                blocks(s.dcz),
                first,
                copies,
            ) && used == copies.len(),
    }
}

/// Whether the entities in a value need more identifiers than there are from a counter on.
pub open spec fn runs_out<F: Fn(&[u8]) -> Option<Decoded>>(
    decode: F,
    value: Seq<u8>,
    first: int,
) -> bool {
    exists|tags: Seq<CompoundView>, end: int|
        #[trigger] reads_up_to(decode, value, tags, end) && first + copied(tags).len() > ID_LIMIT
}

fn with_tail(front: Vec<u8>, value: &[u8], end: usize) -> (r: Vec<u8>)
    requires
        end <= value@.len(),
    ensures
        r@ == front@ + value@.skip(end as int),
{
    let ghost head = front@;
    let mut out = front;
    let mut i: usize = end;
    assert(out@ =~= head + value@.subrange(end as int, end as int));
    while i < value.len()
        invariant
            end <= i <= value.len(),
            out@ == head + value@.subrange(end as int, i as int),
        decreases value.len() - i,
    {
        out.push(value[i]);
        i += 1;
        assert(out@ =~= head + value@.subrange(end as int, i as int));
    }
    assert(value@.subrange(end as int, value@.len() as int) =~= value@.skip(end as int));
    out
}

fn move_blocks(tags: Vec<CompoundTag>, s: Shift, ticks: bool) -> (r: Vec<CompoundTag>)
    requires
        is_shift(s),
    ensures
        compound_views(r@) == if ticks {
            moved_all_ticks(compound_views(tags@), s)
        } else {
            moved_all(compound_views(tags@), s)
        },
{
    let ghost all = tags@;
    let ghost dx = blocks(s.dcx);
    let ghost dz = blocks(s.dcz);
    let mut out: Vec<CompoundTag> = Vec::new();
    for t in it: tags.into_iter()
        invariant
            is_shift(s),
            it.seq() == all,
            dx == blocks(s.dcx),
            dz == blocks(s.dcz),
            out@.len() == it.index(),
            forall|k: int|
                0 <= k < out@.len() ==> (#[trigger] out@[k])@ == if ticks {
                    moved_ticks(all[k]@, dx as int, dz as int)
                } else {
                    moved(all[k]@, dx as int, dz as int)
                },
    {
        let x: i64 = 16 * s.dcx as i64;
        let z: i64 = 16 * s.dcz as i64;
        if ticks {
            out.push(move_ticks(t, x, z));
        } else {
            out.push(move_compound(t, x, z));
        }
    }
    assert(compound_views(out@) =~= if ticks {
        moved_all_ticks(compound_views(all), s)
    } else {
        moved_all(compound_views(all), s)
    });
    out
}

/// Moves the value under a chunk key. The answer is the value, and how many identifiers the
/// entities in it took. There is none where the identifiers run out.
pub fn move_value<
    F: Fn(&[u8]) -> Option<Decoded>,
    E: Fn(&CompoundTag) -> Vec<u8>,
    M: Fn(Real, i64) -> Real,
>(
    kind: ValueKind,
    value: &[u8],
    s: Shift,
    first: u32,
    decode: &F,
    encode: &E,
    travel: &M,
) -> (r: Option<(Vec<u8>, u32)>)
    requires
        is_decoder(*decode),
        is_encoder(*encode),
        forall|v: Real, d: i64| call_requires(*travel, (v, d)),
        is_shift(s),
        first <= ID_LIMIT,
    ensures
        match r {
            Some((v, used)) => first + used <= ID_LIMIT && is_moved_value(
                *decode,
                *encode,
                *travel,
                kind,
                value@,
                s,
                first as int,
                used as int,
                v@,
            ),
            None => kind == ValueKind::Entities && runs_out(*decode, value@, first as int),
        },
{
    match kind {
        ValueKind::Plain => Some((copy_bytes(value), 0)),
        ValueKind::BlockEntities => {
            let (tags, end) = read_all(decode, value);
            let ghost views = compound_views(tags@);
            let changed = move_blocks(tags, s, false);
            let front = encode_all(encode, &changed);
            let out = with_tail(front, value, end);
            assert(rewritten(
                *decode,
                *encode,
                value@,
                views,
                end as int,
                moved_all(views, s),
                out@,
            ));
            Some((out, 0))
        },
        ValueKind::Ticks => {
            let (tags, end) = read_all(decode, value);
            let ghost views = compound_views(tags@);
            let changed = move_blocks(tags, s, true);
            let front = encode_all(encode, &changed);
            let out = with_tail(front, value, end);
            assert(rewritten(
                *decode,
                *encode,
                value@,
                views,
                end as int,
                moved_all_ticks(views, s),
                out@,
            ));
            Some((out, 0))
        },
        ValueKind::Entities => {
            let (tags, end) = read_all(decode, value);
            let ghost views = compound_views(tags@);
            match copy_entities(tags, 16 * s.dcx as i64, 16 * s.dcz as i64, first, travel) {
                Some(copies) => {
                    let front = encode_all(encode, &copies);
                    let out = with_tail(front, value, end);
                    assert(rewritten(
                        *decode,
                        *encode,
                        value@,
                        views,
                        end as int,
                        compound_views(copies@),
                        out@,
                    ));
                    assert(compound_views(copies@).len() == copies@.len());
                    Some((out, copies.len() as u32))
                },
                None => {
                    assert(reads_up_to(*decode, value@, views, end as int));
                    None
                },
            }
        },
    }
}

/// Whether an actor's value is copied: it can be decoded and is no player.
pub open spec fn is_copied_actor(tag: Option<CompoundView>) -> bool {
    tag is Some && !is_player_actor(tag)
}

/// Whether a key is that of an actor with an identifier of eight bytes.
pub open spec fn is_actor_entry(key: Seq<u8>) -> bool {
    entry_kind(key) == EntryKind::Actor && key.len() == 19
}

/// Whether a value is that of a copy of an actor with a new identifier.
pub open spec fn is_copied_value<E: Fn(&CompoundTag) -> Vec<u8>, M: Fn(Real, i64) -> Real>(
    encode: E,
    travel: M,
    c: CompoundView,
    s: Shift,
    n: int,
    value: Seq<u8>,
) -> bool {
    exists|copy: CompoundView|
        #[trigger] is_copy(travel, c, blocks(s.dcx), blocks(s.dcz), n, copy) && encodes(
            encode,
            copy,
            value,
        )
}

/// Whether entries are the copies of the actors among the first `n` entries, with identifiers
/// from a counter on that replace the old ones as listed.
pub open spec fn copies_actors<
    F: Fn(&[u8]) -> Option<Decoded>,
    E: Fn(&CompoundTag) -> Vec<u8>,
    M: Fn(Real, i64) -> Real,
>(
    decode: F,
    encode: E,
    travel: M,
    entries: Seq<EntryView>,
    n: nat,
    s: Shift,
    first: int,
    ids: Seq<IdPair>,
    writes: Seq<EntryView>,
) -> bool
    decreases n,
{
    if n == 0 {
        ids.len() == 0 && writes.len() == 0
    } else {
        let m = (n - 1) as nat;
        let e = entries[n - 1];
        if is_actor_entry(e.key) {
            exists|tag: Option<CompoundView>|
                #[trigger] decodes(decode, e.value, tag) && if is_copied_actor(tag) {
                    let k = first + ids.len() - 1;
                    &&& ids.len() > 0
                    &&& ids.len() == writes.len()
                    &&& ids.last() == (e.key.skip(11), k)
                    &&& writes.last().key == actor_key(k)
                    &&& is_copied_value(
                        encode,
                        travel,
                        tag.unwrap(),
                        s,
                        k,
                        writes.last().value,
                    )
                    &&& copies_actors(
                        decode,
                        encode,
                        travel,
                        entries,
                        m,
                        s,
                        first,
                        ids.drop_last(),
                        writes.drop_last(),
                    )
                } else {
                    copies_actors(decode, encode, travel, entries, m, s, first, ids, writes)
                }
        } else {
            copies_actors(decode, encode, travel, entries, m, s, first, ids, writes)
        }
    }
}

/// Whether the first `n` entries take all identifiers from a counter on, and the next entry is
/// an actor that needs one.
pub open spec fn copies_run_out<
    F: Fn(&[u8]) -> Option<Decoded>,
    E: Fn(&CompoundTag) -> Vec<u8>,
    M: Fn(Real, i64) -> Real,
>(
    decode: F,
    encode: E,
    travel: M,
    entries: Seq<EntryView>,
    n: nat,
    s: Shift,
    first: int,
    ids: Seq<IdPair>,
    writes: Seq<EntryView>,
) -> bool {
    &&& n < entries.len()
    &&& copies_actors(decode, encode, travel, entries, n, s, first, ids, writes)
    &&& first + ids.len() == ID_LIMIT
    &&& is_actor_entry(entries[n as int].key)
    &&& exists|tag: Option<CompoundView>|
        #[trigger] decodes(decode, entries[n as int].value, tag) && is_copied_actor(tag)
}

/// The copies of actors: the entries that hold them, and which identifiers replace which.
pub struct ActorCopies {
    pub writes: Vec<DbEntry>,
    pub ids: Vec<(Vec<u8>, u32)>,
}

/// Copies the actors among entries, with identifiers from a counter on. There are no copies
/// where the identifiers run out.
pub fn copy_actors<
    F: Fn(&[u8]) -> Option<Decoded>,
    E: Fn(&CompoundTag) -> Vec<u8>,
    M: Fn(Real, i64) -> Real,
>(entries: &Vec<DbEntry>, s: Shift, first: u32, decode: &F, encode: &E, travel: &M) -> (r: Option<
    ActorCopies,
>)
    requires
        is_decoder(*decode),
        is_encoder(*encode),
        forall|v: Real, d: i64| call_requires(*travel, (v, d)),
        is_shift(s),
        first <= ID_LIMIT,
    ensures
        match r {
            Some(c) => {
                &&& copies_actors(
                    *decode,
                    *encode,
                    *travel,
                    entry_views(entries@),
                    entries@.len(),
                    s,
                    first as int,
                    id_views(c.ids@),
                    entry_views(c.writes@),
                )
                &&& first + c.ids@.len() <= ID_LIMIT
                &&& forall|i: int| 0 <= i < c.ids@.len() ==> (#[trigger] c.ids@[i]).1 < ID_LIMIT
            },
            None => exists|n: nat, ids: Seq<IdPair>, writes: Seq<EntryView>|
                #[trigger] copies_run_out(
                    *decode,
                    *encode,
                    *travel,
                    entry_views(entries@),
                    n,
                    s,
                    first as int,
                    ids,
                    writes,
                ),
        },
{
    let ghost all = entry_views(entries@);
    let mut writes: Vec<DbEntry> = Vec::new();
    let mut ids: Vec<(Vec<u8>, u32)> = Vec::new();
    for i in 0..entries.len()
        invariant
            is_decoder(*decode),
            is_encoder(*encode),
            forall|v: Real, d: i64| call_requires(*travel, (v, d)),
            is_shift(s),
            all == entry_views(entries@),
            first + ids@.len() <= ID_LIMIT,
            ids@.len() == writes@.len(),
            ids@.len() <= i,
            forall|k: int| 0 <= k < ids@.len() ==> (#[trigger] ids@[k]).1 < ID_LIMIT,
            copies_actors(
                *decode,
                *encode,
                *travel,
                all,
                i as nat,
                s,
                first as int,
                id_views(ids@),
                entry_views(writes@),
            ),
    {
        let e = &entries[i];
        let ghost before_ids = id_views(ids@);
        let ghost before = entry_views(writes@);
        assert(all[i as int] == e@);
        if kind_of_entry(e.key.as_slice()) == EntryKind::Actor && e.key.len() == 19 {
            let tag = decode_one(decode, e.value.as_slice());
            if let Some(c) = tag {
                let boxed = Some(c);
                if !player_actor(&boxed) {
                    if ids.len() as u32 >= ID_LIMIT - first {
                        proof {
                            let tag = Some(boxed->Some_0@);
                            assert(decodes(*decode, all[i as int].value, tag));
                            assert(is_copied_actor(tag));
                            assert(copies_run_out(
                                *decode,
                                *encode,
                                *travel,
                                all,
                                i as nat,
                                s,
                                first as int,
                                before_ids,
                                before,
                            ));
                        }
                        return None;
                    }
                    let n: u32 = first + ids.len() as u32;
                    if let Some(entity) = boxed {
                        let ghost view = entity@;
                        let copy = copy_entity(
                            entity,
                            16 * s.dcx as i64,
                            16 * s.dcz as i64,
                            n,
                            travel,
                        );
                        let value = encode_one(encode, &copy);
                        assert(is_copy(
                            *travel,
                            view,
                            blocks(s.dcx),
                            blocks(s.dcz),
                            n as int,
                            copy@,
                        ));
                        assert(is_copied_value(*encode, *travel, view, s, n as int, value@));
                        assert(decodes(*decode, all[i as int].value, Some(view)));
                        let old_id = slice_subrange(e.key.as_slice(), 11, 19);
                        assert(old_id@ =~= all[i as int].key.skip(11));
                        ids.push((copy_bytes(old_id), n));
                        writes.push(DbEntry { key: key_of_actor(n), value });
                        let ghost after_ids = id_views(ids@);
                        let ghost after = entry_views(writes@);
                        assert(after_ids.drop_last() =~= before_ids);
                        assert(after.drop_last() =~= before);
                        assert(after_ids.last() == (all[i as int].key.skip(11), n as int));
                        assert(after.last().key == actor_key(n as int));
                    }
                } else {
                    assert(is_player_actor(Some(boxed->Some_0@)));
                    assert(decodes(*decode, all[i as int].value, Some(boxed->Some_0@)));
                }
            } else {
                assert(decodes(*decode, all[i as int].value, None));
            }
        }
    }
    Some(ActorCopies { writes, ids })
}

/// Whether the place to which an entry is moved can be written.
pub open spec fn is_movable(key: Seq<u8>, s: Shift) -> bool {
    match entry_kind(key) {
        EntryKind::Chunk => moved_key(key, s) is Some,
        EntryKind::Digest => digest_place(key) matches Some(p) ==> moved_digest_key(p, s) is Some,
        _ => true,
    }
}

/// Whether an entry is written as another at its new place, or not written. Entities in its
/// value get identifiers from a counter on and take so many of them. Actors are copied apart, and
/// players are not.
#[verifier::opaque]
pub open spec fn is_placed<
    F: Fn(&[u8]) -> Option<Decoded>,
    E: Fn(&CompoundTag) -> Vec<u8>,
    M: Fn(Real, i64) -> Real,
>(
    decode: F,
    encode: E,
    travel: M,
    e: EntryView,
    s: Shift,
    ids: Seq<IdPair>,
    from: int,
    here: int,
    out: Option<EntryView>,
) -> bool {
    match entry_kind(e.key) {
        EntryKind::Actor | EntryKind::Player => out is None && here == 0,
        EntryKind::Other => out == Some(e) && here == 0,
        EntryKind::Digest => here == 0 && match digest_place(e.key) {
            Some(p) => out matches Some(w) && moved_digest_key(p, s) == Some(w.key) && w.value
                == moved_digest(e.value, ids, e.value.len() / 8),
            None => out is None,
        },
        EntryKind::Chunk => out matches Some(w) && moved_key(e.key, s) == Some(w.key)
            && is_moved_value(
            decode,
            encode,
            travel,
            value_kind(e.key),
            e.value,
            s,
            from,
            here,
            w.value,
        ),
    }
}

/// Entries with one more, where there is one.
pub open spec fn appended(writes: Seq<EntryView>, out: Option<EntryView>) -> Seq<EntryView> {
    match out {
        Some(w) => writes.push(w),
        None => writes,
    }
}

/// Whether entries are the first `n` entries at their new place. Entities in the values take so
/// many identifiers from a counter on.
pub open spec fn places_entries<
    F: Fn(&[u8]) -> Option<Decoded>,
    E: Fn(&CompoundTag) -> Vec<u8>,
    M: Fn(Real, i64) -> Real,
>(
    decode: F,
    encode: E,
    travel: M,
    entries: Seq<EntryView>,
    n: nat,
    s: Shift,
    ids: Seq<IdPair>,
    first: int,
    used: int,
    writes: Seq<EntryView>,
) -> bool
    decreases n,
{
    if n == 0 {
        writes.len() == 0 && used == 0
    } else {
        exists|here: int, out: Option<EntryView>, before: Seq<EntryView>|
            #[trigger] is_placed(
                decode,
                encode,
                travel,
                entries[n - 1],
                s,
                ids,
                first + used - here,
                here,
                out,
            ) && writes == #[trigger] appended(before, out) && places_entries(
                decode,
                encode,
                travel,
                entries,
                (n - 1) as nat,
                s,
                ids,
                first,
                used - here,
                before,
            )
    }
}

/// Whether entries are others at their new place, with enough identifiers from a counter on.
pub open spec fn places_all<
    F: Fn(&[u8]) -> Option<Decoded>,
    E: Fn(&CompoundTag) -> Vec<u8>,
    M: Fn(Real, i64) -> Real,
>(
    decode: F,
    encode: E,
    travel: M,
    entries: Seq<EntryView>,
    s: Shift,
    ids: Seq<IdPair>,
    first: int,
    writes: Seq<EntryView>,
) -> bool {
    exists|used: int|
        first + used <= ID_LIMIT && #[trigger] places_entries(
            decode,
            encode,
            travel,
            entries,
            entries.len(),
            s,
            ids,
            first,
            used,
            writes,
        )
}

/// Whether the entities in the first `n` entries take so many identifiers from a counter on that
/// those in the next entry need more than are left.
pub open spec fn places_run_out<
    F: Fn(&[u8]) -> Option<Decoded>,
    E: Fn(&CompoundTag) -> Vec<u8>,
    M: Fn(Real, i64) -> Real,
>(
    decode: F,
    encode: E,
    travel: M,
    entries: Seq<EntryView>,
    n: nat,
    s: Shift,
    ids: Seq<IdPair>,
    first: int,
    used: int,
    writes: Seq<EntryView>,
) -> bool {
    &&& n < entries.len()
    &&& places_entries(decode, encode, travel, entries, n, s, ids, first, used, writes)
    &&& runs_out(decode, entries[n as int].value, first + used)
}

/// Why entries cannot be moved.
pub enum PlacementError {
    /// The place of a key cannot be written.
    OutOfWorld(Vec<u8>),
    /// There are not enough identifiers.
    NoIdentifiers,
}

/// Puts one entry at its new place, or leaves it out. The answer says how many identifiers the
/// entities in it took.
pub fn place_entry<
    F: Fn(&[u8]) -> Option<Decoded>,
    E: Fn(&CompoundTag) -> Vec<u8>,
    M: Fn(Real, i64) -> Real,
>(
    e: &DbEntry,
    s: Shift,
    ids: &Vec<(Vec<u8>, u32)>,
    from: u32,
    decode: &F,
    encode: &E,
    travel: &M,
) -> (r: Result<(Option<DbEntry>, u32), PlacementError>)
    requires
        is_decoder(*decode),
        is_encoder(*encode),
        forall|v: Real, d: i64| call_requires(*travel, (v, d)),
        is_shift(s),
        from <= ID_LIMIT,
        forall|i: int| 0 <= i < ids@.len() ==> (#[trigger] ids@[i]).1 < ID_LIMIT,
    ensures
        match r {
            Ok((out, here)) => from + here <= ID_LIMIT && is_movable(e.key@, s) && is_placed(
                *decode,
                *encode,
                *travel,
                e@,
                s,
                id_views(ids@),
                from as int,
                here as int,
                optional_entry(out),
            ),
            Err(PlacementError::OutOfWorld(key)) => key@ == e.key@ && !is_movable(e.key@, s),
            Err(PlacementError::NoIdentifiers) => runs_out(*decode, e.value@, from as int),
        },
{
    proof {
        reveal(is_placed);
    }
    match kind_of_entry(e.key.as_slice()) {
        EntryKind::Actor | EntryKind::Player => Ok((None, 0)),
        EntryKind::Other => Ok((Some(e.clone()), 0)),
        EntryKind::Digest => match place_of_digest(e.key.as_slice()) {
            Some(p) => match move_digest_key(&p, s) {
                Some(key) => Ok(
                    (Some(DbEntry { key, value: move_digest(e.value.as_slice(), ids) }), 0),
                ),
                None => Err(PlacementError::OutOfWorld(copy_bytes(e.key.as_slice()))),
            },
            None => Ok((None, 0)),
        },
        EntryKind::Chunk => {
            let key = match move_key(e.key.as_slice(), s) {
                Some(k) => k,
                None => {
                    return Err(PlacementError::OutOfWorld(copy_bytes(e.key.as_slice())));
                },
            };
            let kind = kind_of_value(e.key.as_slice());
            match move_value(kind, e.value.as_slice(), s, from, decode, encode, travel) {
                Some((value, here)) => Ok((Some(DbEntry { key, value }), here)),
                None => Err(PlacementError::NoIdentifiers),
            }
        },
    }
}

/// What an optional entry holds.
pub open spec fn optional_entry(e: Option<DbEntry>) -> Option<EntryView> {
    match e {
        Some(x) => Some(x@),
        None => None,
    }
}

/// One more entry at its new place.
proof fn lemma_place_one<
    F: Fn(&[u8]) -> Option<Decoded>,
    E: Fn(&CompoundTag) -> Vec<u8>,
    M: Fn(Real, i64) -> Real,
>(
    decode: F,
    encode: E,
    travel: M,
    entries: Seq<EntryView>,
    n: nat,
    s: Shift,
    ids: Seq<IdPair>,
    first: int,
    used: int,
    writes: Seq<EntryView>,
    here: int,
    out: Option<EntryView>,
)
    requires
        places_entries(decode, encode, travel, entries, n, s, ids, first, used, writes),
        is_placed(
            decode,
            encode,
            travel,
            entries[n as int],
            s,
            ids,
            first + used,
            here,
            out,
        ),
    ensures
        places_entries(
            decode,
            encode,
            travel,
            entries,
            n + 1,
            s,
            ids,
            first,
            used + here,
            appended(writes, out),
        ),
{
    assert(first + (used + here) - here == first + used);
    assert(((n + 1) - 1) as nat == n);
    assert(is_placed(
        decode,
        encode,
        travel,
        entries[(n + 1) - 1],
        s,
        ids,
        first + (used + here) - here,
        here,
        out,
    ));
    assert(appended(writes, out) == appended(writes, out));
}

/// Puts entries at their new place, actors and players aside.
pub fn place_entries<
    F: Fn(&[u8]) -> Option<Decoded>,
    E: Fn(&CompoundTag) -> Vec<u8>,
    M: Fn(Real, i64) -> Real,
>(
    entries: &Vec<DbEntry>,
    s: Shift,
    ids: &Vec<(Vec<u8>, u32)>,
    first: u32,
    decode: &F,
    encode: &E,
    travel: &M,
) -> (r: Result<Vec<DbEntry>, PlacementError>)
    requires
        is_decoder(*decode),
        is_encoder(*encode),
        forall|v: Real, d: i64| call_requires(*travel, (v, d)),
        is_shift(s),
        first <= ID_LIMIT,
        forall|i: int| 0 <= i < ids@.len() ==> (#[trigger] ids@[i]).1 < ID_LIMIT,
    ensures
        match r {
            Ok(writes) => {
                &&& places_all(
                    *decode,
                    *encode,
                    *travel,
                    entry_views(entries@),
                    s,
                    id_views(ids@),
                    first as int,
                    entry_views(writes@),
                )
                &&& forall|i: int|
                    0 <= i < entries@.len() ==> is_movable((#[trigger] entries@[i]).key@, s)
            },
            Err(PlacementError::OutOfWorld(key)) => !is_movable(key@, s) && exists|i: int|
                0 <= i < entries@.len() && (#[trigger] entries@[i]).key@ == key@,
            Err(PlacementError::NoIdentifiers) => exists|
                n: nat,
                used: int,
                writes: Seq<EntryView>,
            |
                #[trigger] places_run_out(
                    *decode,
                    *encode,
                    *travel,
                    entry_views(entries@),
                    n,
                    s,
                    id_views(ids@),
                    first as int,
                    used,
                    writes,
                ),
        },
{
    let ghost all = entry_views(entries@);
    let ghost pairs = id_views(ids@);
    let mut writes: Vec<DbEntry> = Vec::new();
    let mut used: u32 = 0;
    for i in 0..entries.len()
        invariant
            is_decoder(*decode),
            is_encoder(*encode),
            forall|v: Real, d: i64| call_requires(*travel, (v, d)),
            is_shift(s),
            forall|i: int| 0 <= i < ids@.len() ==> (#[trigger] ids@[i]).1 < ID_LIMIT,
            all == entry_views(entries@),
            pairs == id_views(ids@),
            first + used <= ID_LIMIT,
            forall|k: int| 0 <= k < i ==> is_movable((#[trigger] entries@[k]).key@, s),
            places_entries(
                *decode,
                *encode,
                *travel,
                all,
                i as nat,
                s,
                pairs,
                first as int,
                used as int,
                entry_views(writes@),
            ),
    {
        let e = &entries[i];
        let ghost before = entry_views(writes@);
        assert(all[i as int] == e@);
        match place_entry(e, s, ids, first + used, decode, encode, travel) {
            Ok((out, here)) => {
                let ghost view = optional_entry(out);
                proof {
                    lemma_place_one(
                        *decode,
                        *encode,
                        *travel,
                        all,
                        i as nat,
                        s,
                        pairs,
                        first as int,
                        used as int,
                        before,
                        here as int,
                        view,
                    );
                }
                if let Some(w) = out {
                    writes.push(w);
                }
                assert(entry_views(writes@) =~= appended(before, view));
                used = used + here;
            },
            Err(PlacementError::OutOfWorld(key)) => {
                return Err(PlacementError::OutOfWorld(key));
            },
            Err(PlacementError::NoIdentifiers) => {
                assert(places_run_out(
                    *decode,
                    *encode,
                    *travel,
                    all,
                    i as nat,
                    s,
                    pairs,
                    first as int,
                    used as int,
                    before,
                ));
                return Err(PlacementError::NoIdentifiers);
            },
        }
    }
    assert(places_entries(
        *decode,
        *encode,
        *travel,
        all,
        all.len(),
        s,
        pairs,
        first as int,
        used as int,
        entry_views(writes@),
    ));
    Ok(writes)
}

/// What moves with a chunk stays in it: a block that is moved as far as its chunk stands in the moved
/// chunk, at the same place.
pub proof fn law_blocks_move_with_chunks(x: int, chunks: i32)
    requires
        -0x1000_0000 <= chunks <= 0x1000_0000,
    ensures
        chunk_of(x + blocks(chunks)) == chunk_of(x) + chunks,
        (x + blocks(chunks)) % 16 == x % 16,
{
}

/// In the data of a chunk, block entities, entities and scheduled ticks are moved by what they hold,
/// and everything else goes as it is.
pub proof fn law_value_kinds(place: Seq<u8>, dim: u8, tag: u8, rest: Seq<u8>)
    requires
        place.len() == 8,
        dim == 1 || dim == 2,
        tag > 2,
        rest.len() < 4,
    ensures
        ({
            let kind = if tag == 0x31 {
                ValueKind::BlockEntities
            } else if tag == 0x32 {
                ValueKind::Entities
            } else if tag == 0x33 {
                ValueKind::Ticks
            } else {
                ValueKind::Plain
            };
            &&& value_kind(place + seq![tag] + rest) == kind
            &&& value_kind(place + seq![dim, 0u8, 0u8, 0u8, tag] + rest) == kind
            &&& value_kind(place + seq![dim, tag] + rest) == kind
        }),
{
    let plain = place + seq![tag] + rest;
    assert(plain[8] == tag);
    assert(plain.skip(8)[0] == tag);
    law_dimension_of_key(place, dim, tag, rest);
}

/// The kind of an entry: actors, digests and players by how their keys begin, chunk data by any other
/// key of nine bytes or more that does not begin with a name.
pub proof fn law_entry_kinds(key: Seq<u8>)
    ensures
        key_starts(key, "actorprefix"@) ==> entry_kind(key) == EntryKind::Actor,
        key_starts(key, "digp"@) && !key_starts(key, "actorprefix"@) ==> entry_kind(key)
            == EntryKind::Digest,
        is_chunk_key_bytes(key) && !key_starts(key, "actorprefix"@) && !key_starts(key, "digp"@)
            ==> entry_kind(key) == EntryKind::Chunk,
        is_named(key) && (key_starts(key, "~"@) || key_starts(key, "player_"@)) && !key_starts(
            key,
            "actorprefix"@,
        ) && !key_starts(key, "digp"@) ==> entry_kind(key) == EntryKind::Player,
        is_named(key) && !key_starts(key, "~"@) && !key_starts(key, "player_"@) && !key_starts(
            key,
            "actorprefix"@,
        ) && !key_starts(key, "digp"@) ==> entry_kind(key) == EntryKind::Other,
{
}

proof fn lemma_digp()
    ensures
        encode_utf8("digp"@).len() == 4,
{
    reveal_strlit("digp");
    is_ascii_chars_encode_utf8("digp"@);
}

/// The digest of a chunk has `digp` and the coordinates and dimension of the chunk as its key, and
/// moves to the key that the moved chunk has its digest under.
pub proof fn law_digest_moves_with_chunk(cx: i32, cz: i32, dim: u8, field: DimField, s: Shift)
    requires
        dim <= 2,
        dim == 0 <==> field == DimField::Absent,
        is_shift(s),
        i32::MIN <= cx + s.dcx <= i32::MAX,
        i32::MIN <= cz + s.dcz <= i32::MAX,
    ensures
        ({
            let key = encode_utf8("digp"@) + chunk_prefix(cx, cz) + dim_bytes(dim, field);
            let d = match s.dimension {
                Some(d) => d,
                None => dim,
            };
            let form = if field == DimField::Short {
                DimField::Short
            } else {
                DimField::Long
            };
            &&& digest_place(key) matches Some(p) && p.cx == cx && p.cz == cz && p.dim == dim
                && moved_digest_key(p, s) == Some(
                encode_utf8("digp"@) + (chunk_prefix((cx + s.dcx) as i32, (cz + s.dcz) as i32)
                    + dim_bytes(d, form)),
            )
        }),
{
    lemma_digp();
    let front = encode_utf8("digp"@);
    let key = front + chunk_prefix(cx, cz) + dim_bytes(dim, field);
    let a = le_i32_bytes(cx);
    let b = le_i32_bytes(cz);
    law_le_i32_round_trip(cx);
    law_le_i32_round_trip(cz);
    assert(key[4] == a[0] && key[5] == a[1] && key[6] == a[2] && key[7] == a[3]);
    assert(key[8] == b[0] && key[9] == b[1] && key[10] == b[2] && key[11] == b[3]);
    assert(le_i32(key, 4) == le_i32(a, 0));
    assert(le_i32(key, 8) == le_i32(b, 0));
    if field == DimField::Short {
        assert(key[12] == dim);
    } else if field == DimField::Long {
        assert(key[12] == dim && key[13] == 0 && key[14] == 0 && key[15] == 0);
    }
}

/// The new identifier in place of an old one is that of the last pair with the old one. There is one
/// exactly if a pair has the old one.
pub proof fn law_new_id(ids: Seq<IdPair>, old_id: Seq<u8>)
    ensures
        match new_id(ids, old_id) {
            Some(k) => exists|i: int|
                0 <= i < ids.len() && #[trigger] ids[i] == (old_id, k) && forall|j: int|
                    i < j < ids.len() ==> (#[trigger] ids[j]).0 != old_id,
            None => forall|j: int| 0 <= j < ids.len() ==> (#[trigger] ids[j]).0 != old_id,
        },
    decreases ids.len(),
{
    if ids.len() > 0 {
        let rest = ids.drop_last();
        law_new_id(rest, old_id);
        let n = ids.len() - 1;
        if ids[n].0 == old_id {
            assert(ids[n] == (old_id, ids[n].1));
        } else if let Some(k) = new_id(rest, old_id) {
            let i = choose|i: int|
                0 <= i < rest.len() && #[trigger] rest[i] == (old_id, k) && forall|j: int|
                    i < j < rest.len() ==> (#[trigger] rest[j]).0 != old_id;
            assert(ids[i] == (old_id, k));
            assert forall|j: int| i < j < ids.len() implies (#[trigger] ids[j]).0 != old_id by {
                if j < n {
                    assert(rest[j] == ids[j]);
                }
            }
        } else {
            assert forall|j: int| 0 <= j < ids.len() implies (#[trigger] ids[j]).0 != old_id by {
                if j < n {
                    assert(rest[j] == ids[j]);
                }
            }
        }
    }
}

/// A moved digest lists the new identifiers of the entities that were copied, in the order in which
/// it listed the old ones, eight bytes each, and no others.
pub proof fn law_moved_digest(value: Seq<u8>, ids: Seq<IdPair>) -> (places: Seq<int>)
    ensures
        ({
            let n = value.len() / 8;
            let r = moved_digest(value, ids, n);
            &&& selects(
                places,
                n as int,
                |i: int| new_id(ids, value.subrange(8 * i, 8 * i + 8)) is Some,
            )
            &&& r.len() == 8 * places.len()
            &&& forall|k: int|
                0 <= k < places.len() ==> #[trigger] r.subrange(8 * k, 8 * k + 8) == id_bytes(
                    new_id(ids, value.subrange(8 * places[k], 8 * places[k] + 8)).unwrap(),
                )
        }),
{
    lemma_digest_places(value, ids, value.len() / 8)
}

proof fn lemma_digest_places(value: Seq<u8>, ids: Seq<IdPair>, n: nat) -> (places: Seq<int>)
    ensures
        ({
            let r = moved_digest(value, ids, n);
            &&& selects(
                places,
                n as int,
                |i: int| new_id(ids, value.subrange(8 * i, 8 * i + 8)) is Some,
            )
            &&& r.len() == 8 * places.len()
            &&& forall|k: int|
                0 <= k < places.len() ==> #[trigger] r.subrange(8 * k, 8 * k + 8) == id_bytes(
                    new_id(ids, value.subrange(8 * places[k], 8 * places[k] + 8)).unwrap(),
                )
        }),
    decreases n,
{
    let wanted = |i: int| new_id(ids, value.subrange(8 * i, 8 * i + 8)) is Some;
    if n == 0 {
        lemma_select_none(wanted);
        Seq::empty()
    } else {
        let m = n - 1;
        let before = lemma_digest_places(value, ids, m as nat);
        lemma_select_next(before, m, wanted);
        let some = moved_digest(value, ids, m as nat);
        let all = moved_digest(value, ids, n);
        assert(8 * m + 8 == 8 * n);
        if wanted(m) {
            let k = new_id(ids, value.subrange(8 * m, 8 * m + 8)).unwrap();
            assert(all == some + id_bytes(k));
            let places = before.push(m);
            assert forall|q: int| 0 <= q < places.len() implies #[trigger] all.subrange(
                8 * q,
                8 * q + 8,
            ) == id_bytes(
                new_id(ids, value.subrange(8 * places[q], 8 * places[q] + 8)).unwrap(),
            ) by {
                if q < before.len() {
                    assert(all.subrange(8 * q, 8 * q + 8) =~= some.subrange(8 * q, 8 * q + 8));
                    assert(places[q] == before[q]);
                } else {
                    assert(all.subrange(8 * q, 8 * q + 8) =~= id_bytes(k));
                }
            }
            places
        } else {
            assert(all == some);
            before
        }
    }
}

/// What is moved with a chunk moves 16 blocks for each chunk, along x and along z: block entities,
/// scheduled ticks and, through the function that moves a coordinate, copies of actors.
pub proof fn law_everything_moves_as_far<E: Fn(&CompoundTag) -> Vec<u8>, M: Fn(Real, i64) -> Real>(
    encode: E,
    travel: M,
    tags: Seq<CompoundView>,
    s: Shift,
    i: int,
    n: int,
    value: Seq<u8>,
)
    requires
        is_shift(s),
        0 <= i < tags.len(),
    ensures
        moved_all(tags, s).len() == tags.len(),
        moved_all(tags, s)[i] == moved(tags[i], 16 * s.dcx as int, 16 * s.dcz as int),
        moved_all_ticks(tags, s).len() == tags.len(),
        moved_all_ticks(tags, s)[i] == moved_ticks(tags[i], 16 * s.dcx as int, 16 * s.dcz as int),
        is_copied_value(encode, travel, tags[i], s, n, value) ==> match position(tags[i]) {
            Some((x, z)) => exists|nx: Real, nz: Real|
                #[trigger] call_ensures(travel, (x, (16 * s.dcx) as i64), nx)
                    && #[trigger] call_ensures(travel, (z, (16 * s.dcz) as i64), nz) && encodes(
                    encode,
                    with_id(placed(tags[i], nx, nz), n),
                    value,
                ),
            None => encodes(encode, with_id(tags[i], n), value),
        },
{
    if is_copied_value(encode, travel, tags[i], s, n, value) {
        let copy = choose|copy: CompoundView|
            #[trigger] is_copy(travel, tags[i], blocks(s.dcx), blocks(s.dcz), n, copy) && encodes(
                encode,
                copy,
                value,
            );
        assert(blocks(s.dcx) == (16 * s.dcx) as i64);
        assert(blocks(s.dcz) == (16 * s.dcz) as i64);
        if let Some((x, z)) = position(tags[i]) {
            let (nx, nz) = choose|nx: Real, nz: Real|
                #[trigger] call_ensures(travel, (x, blocks(s.dcx)), nx) && #[trigger] call_ensures(
                    travel,
                    (z, blocks(s.dcz)),
                    nz,
                ) && copy == with_id(placed(tags[i], nx, nz), n);
            assert(call_ensures(travel, (x, (16 * s.dcx) as i64), nx));
            assert(call_ensures(travel, (z, (16 * s.dcz) as i64), nz));
        }
    }
}

/// What becomes of an entry that is moved. Actors and players are not written with the rest, what
/// belongs to no chunk is written as it is, and chunk data is written under its moved key.
pub proof fn law_entry_is_placed<
    F: Fn(&[u8]) -> Option<Decoded>,
    E: Fn(&CompoundTag) -> Vec<u8>,
    M: Fn(Real, i64) -> Real,
>(
    decode: F,
    encode: E,
    travel: M,
    e: EntryView,
    s: Shift,
    ids: Seq<IdPair>,
    from: int,
    here: int,
    out: Option<EntryView>,
)
    requires
        is_placed(decode, encode, travel, e, s, ids, from, here, out),
        is_shift(s),
    ensures
        entry_kind(e.key) == EntryKind::Actor || entry_kind(e.key) == EntryKind::Player ==> out is None,
        entry_kind(e.key) == EntryKind::Other ==> out == Some(e),
        entry_kind(e.key) == EntryKind::Chunk ==> out is Some && moved_key(e.key, s) == Some(
            out->Some_0.key,
        ) && (value_kind(e.key) == ValueKind::Plain ==> out->Some_0.value == e.value),
        entry_kind(e.key) == EntryKind::Digest && digest_place(e.key) is Some ==> out is Some
            && out->Some_0.value == moved_digest(e.value, ids, e.value.len() / 8),
{
    reveal(is_placed);
}

/// How the value of chunk data is moved: block entities and ticks by 16 blocks for each chunk, x with
/// x and z with z, entities as copies that are moved as far, and everything else not at all.
pub proof fn law_values_move_as_far<
    F: Fn(&[u8]) -> Option<Decoded>,
    E: Fn(&CompoundTag) -> Vec<u8>,
    M: Fn(Real, i64) -> Real,
>(
    decode: F,
    encode: E,
    travel: M,
    kind: ValueKind,
    value: Seq<u8>,
    s: Shift,
    first: int,
    used: int,
    result: Seq<u8>,
)
    requires
        is_moved_value(decode, encode, travel, kind, value, s, first, used, result),
        is_shift(s),
    ensures
        kind == ValueKind::Plain ==> result == value && used == 0,
        kind == ValueKind::BlockEntities ==> exists|tags: Seq<CompoundView>, end: int|
            #[trigger] rewritten(decode, encode, value, tags, end, moved_all(tags, s), result),
        kind == ValueKind::Ticks ==> exists|tags: Seq<CompoundView>, end: int|
            #[trigger] rewritten(decode, encode, value, tags, end, moved_all_ticks(tags, s), result),
        kind == ValueKind::Entities ==> exists|
            tags: Seq<CompoundView>,
            end: int,
            copies: Seq<CompoundView>,
        |
            #[trigger] rewritten(decode, encode, value, tags, end, copies, result) && are_copies(
                travel,
                copied(tags),
                (16 * s.dcx) as i64,
                (16 * s.dcz) as i64,
                first,
                copies,
            ) && used == copies.len(),
{
    assert(blocks(s.dcx) == (16 * s.dcx) as i64);
    assert(blocks(s.dcz) == (16 * s.dcz) as i64);
}

/// A value that is rewritten is what its compounds are written as, and then what could not be read.
pub proof fn law_rewritten<F: Fn(&[u8]) -> Option<Decoded>, E: Fn(&CompoundTag) -> Vec<u8>>(
    decode: F,
    encode: E,
    value: Seq<u8>,
    tags: Seq<CompoundView>,
    end: int,
    changed: Seq<CompoundView>,
    result: Seq<u8>,
)
    requires
        rewritten(decode, encode, value, tags, end, changed, result),
        0 <= end <= value.len(),
    ensures
        reads_up_to(decode, value, tags, end),
        result.len() >= value.len() - end,
        result.skip(result.len() - (value.len() - end)) == value.skip(end),
        encodes_all(encode, changed, result.take(result.len() - (value.len() - end))),
{
    let front = choose|front: Seq<u8>|
        #[trigger] encodes_all(encode, changed, front) && result == front + value.skip(end);
    assert(result.skip(front.len() as int) =~= value.skip(end));
    assert(result.take(front.len() as int) =~= front);
}

/// Every actor of a moved document that can be decoded and is not a player is copied: its old
/// identifier is paired with a new one, and a copy of its data is written under the key of the new one.
pub proof fn law_every_actor_is_copied<
    F: Fn(&[u8]) -> Option<Decoded>,
    E: Fn(&CompoundTag) -> Vec<u8>,
    M: Fn(Real, i64) -> Real,
>(
    decode: F,
    encode: E,
    travel: M,
    entries: Seq<EntryView>,
    n: nat,
    s: Shift,
    first: int,
    ids: Seq<IdPair>,
    writes: Seq<EntryView>,
    i: int,
    c: CompoundView,
) -> (k: int)
    requires
        copies_actors(decode, encode, travel, entries, n, s, first, ids, writes),
        0 <= i < n <= entries.len(),
        key_starts(entries[i].key, "actorprefix"@),
        entries[i].key.len() == 19,
        forall|t: Option<CompoundView>| #[trigger]
            decodes(decode, entries[i].value, t) ==> t == Some(c),
        lookup_text(c, "identifier"@) != Some("minecraft:player"@),
    ensures
        ids.len() == writes.len(),
        0 <= k < ids.len(),
        ids[k] == (entries[i].key.subrange(11, 19), first + k),
        writes[k].key == actor_key(first + k),
        is_copied_value(encode, travel, c, s, first + k, writes[k].value),
    decreases n,
{
    lemma_as_many_copies(decode, encode, travel, entries, n, s, first, ids, writes);
    let m = (n - 1) as nat;
    let e = entries[n - 1];
    assert(entries[i].key.skip(11) =~= entries[i].key.subrange(11, 19));
    if is_actor_entry(e.key) {
        let tag = choose|tag: Option<CompoundView>|
            #[trigger] decodes(decode, e.value, tag) && if is_copied_actor(tag) {
                let k = first + ids.len() - 1;
                &&& ids.len() > 0
                &&& ids.len() == writes.len()
                &&& ids.last() == (e.key.skip(11), k)
                &&& writes.last().key == actor_key(k)
                &&& is_copied_value(encode, travel, tag.unwrap(), s, k, writes.last().value)
                &&& copies_actors(
                    decode,
                    encode,
                    travel,
                    entries,
                    m,
                    s,
                    first,
                    ids.drop_last(),
                    writes.drop_last(),
                )
            } else {
                copies_actors(decode, encode, travel, entries, m, s, first, ids, writes)
            };
        if i == n - 1 {
            assert(tag == Some(c));
            ids.len() - 1
        } else if is_copied_actor(tag) {
            law_every_actor_is_copied(
                decode,
                encode,
                travel,
                entries,
                m,
                s,
                first,
                ids.drop_last(),
                writes.drop_last(),
                i,
                c,
            )
        } else {
            law_every_actor_is_copied(
                decode,
                encode,
                travel,
                entries,
                m,
                s,
                first,
                ids,
                writes,
                i,
                c,
            )
        }
    } else {
        law_every_actor_is_copied(decode, encode, travel, entries, m, s, first, ids, writes, i, c)
    }
}

proof fn lemma_as_many_copies<
    F: Fn(&[u8]) -> Option<Decoded>,
    E: Fn(&CompoundTag) -> Vec<u8>,
    M: Fn(Real, i64) -> Real,
>(
    decode: F,
    encode: E,
    travel: M,
    entries: Seq<EntryView>,
    n: nat,
    s: Shift,
    first: int,
    ids: Seq<IdPair>,
    writes: Seq<EntryView>,
)
    requires
        copies_actors(decode, encode, travel, entries, n, s, first, ids, writes),
    ensures
        ids.len() == writes.len(),
    decreases n,
{
    if n > 0 {
        let m = (n - 1) as nat;
        if copies_actors(decode, encode, travel, entries, m, s, first, ids, writes) {
            lemma_as_many_copies(decode, encode, travel, entries, m, s, first, ids, writes);
        }
    }
}

} // verus!
