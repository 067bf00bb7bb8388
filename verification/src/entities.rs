//! Entities that are copied to another place: their identifiers, their data and the digests that
//! list them.

use crate::actors::{is_player_actor, player_actor};
use crate::bytes::copy_bytes;
use crate::codec::compound_views;
use crate::keys::{key_starts, key_starts_with};
use crate::nbt::{lookup, lookup_text, tag_real, CompoundTag, CompoundView, Real, Tag, TagView};
use crate::nbt_edit::{
    get_inner, inner, law_placed, law_position, law_set_keeps_others, law_set_then_lookup, place,
    placed, position, put, read_position, set_entry,
};
use crate::selection::{lemma_select_next, lemma_select_none, selects};
use crate::store::{entry_views, DbEntry, EntryView};
use vstd::prelude::*;
use vstd::utf8::{encode_utf8, is_ascii_chars, is_ascii_chars_encode_utf8};

verus! {

/// The number of identifiers that can be given out.
pub const ID_LIMIT: u32 = 0x1000_0000;

/// The eight bytes of a new identifier: the first session of a world, then a counter in four
/// bytes of which each is an ASCII character.
pub open spec fn id_bytes(n: int) -> Seq<u8> {
    seq![
        0u8,
        0u8,
        0u8,
        1u8,
        (n / 0x20_0000 % 0x80) as u8,
        (n / 0x4000 % 0x80) as u8,
        (n / 0x80 % 0x80) as u8,
        (n % 0x80) as u8,
    ]
}

/// A new identifier as a number: the counter in its low half, the session with a minus sign in
/// its high half.
pub open spec fn unique_id(n: int) -> int {
    -0x1_0000_0000 + 0x100_0000 * (n / 0x20_0000 % 0x80) + 0x1_0000 * (n / 0x4000 % 0x80) + 0x100
        * (n / 0x80 % 0x80) + n % 0x80
}

/// A new identifier as a text.
pub open spec fn storage_text(n: int) -> Seq<char> {
    id_bytes(n).map_values(|b: u8| b as char)
}

/// The key of an actor with a new identifier.
pub open spec fn actor_key(n: int) -> Seq<u8> {
    encode_utf8("actorprefix"@) + id_bytes(n)
}

/// Different counters make different identifiers.
pub proof fn law_ids_differ(n: int, m: int)
    requires
        0 <= n < ID_LIMIT,
        0 <= m < ID_LIMIT,
        id_bytes(n) == id_bytes(m),
    ensures
        n == m,
{
    let a = id_bytes(n);
    let b = id_bytes(m);
    assert(a[4] == b[4] && a[5] == b[5] && a[6] == b[6] && a[7] == b[7]);
    assert(n / 0x20_0000 % 0x80 == m / 0x20_0000 % 0x80);
    assert(n / 0x4000 % 0x80 == m / 0x4000 % 0x80);
    assert(n / 0x80 % 0x80 == m / 0x80 % 0x80);
    assert(n % 0x80 == m % 0x80);
}

/// Different counters make different keys.
pub proof fn law_actor_keys_differ(n: int, m: int)
    requires
        0 <= n < ID_LIMIT,
        0 <= m < ID_LIMIT,
        n != m,
    ensures
        actor_key(n) != actor_key(m),
{
    let p = encode_utf8("actorprefix"@);
    if actor_key(n) == actor_key(m) {
        assert(id_bytes(n) =~= actor_key(n).skip(p.len() as int));
        assert(id_bytes(m) =~= actor_key(m).skip(p.len() as int));
        law_ids_differ(n, m);
    }
}

/// The identifier as a number says the same as its bytes: read from the highest byte on, the
/// first four are the session and the last four the counter.
pub proof fn law_unique_id(n: int)
    requires
        0 <= n < ID_LIMIT,
    ensures
        ({
            let b = id_bytes(n);
            let session = 0x100_0000 * b[0] + 0x1_0000 * b[1] + 0x100 * b[2] + b[3];
            let counter = 0x100_0000 * b[4] + 0x1_0000 * b[5] + 0x100 * b[6] + b[7];
            unique_id(n) == -0x1_0000_0000 * session + counter
        }),
{
}

pub(crate) fn push_id(out: &mut Vec<u8>, n: u32)
    requires
        n < ID_LIMIT,
    ensures
        final(out)@ == old(out)@ + id_bytes(n as int),
{
    out.push(0);
    out.push(0);
    out.push(0);
    out.push(1);
    out.push((n / 0x20_0000 % 0x80) as u8);
    out.push((n / 0x4000 % 0x80) as u8);
    out.push((n / 0x80 % 0x80) as u8);
    out.push((n % 0x80) as u8);
    assert(out@ =~= old(out)@ + id_bytes(n as int));
}

/// The key of an actor with a new identifier.
pub fn key_of_actor(n: u32) -> (r: Vec<u8>)
    requires
        n < ID_LIMIT,
    ensures
        r@ == actor_key(n as int),
{
    let mut out = copy_bytes("actorprefix".as_bytes());
    push_id(&mut out, n);
    out
}

fn text_of_id(n: u32) -> (r: String)
    requires
        n < ID_LIMIT,
    ensures
        r@ == storage_text(n as int),
{
    let mut bytes: Vec<u8> = Vec::new();
    push_id(&mut bytes, n);
    assert(bytes@ =~= id_bytes(n as int));
    let mut out = String::new();
    for i in 0..bytes.len()
        invariant
            out@.len() == i,
            forall|k: int| 0 <= k < i ==> #[trigger] out@[k] == bytes@[k] as char,
    {
        out.push(bytes[i] as char);
    }
    assert(out@ =~= storage_text(n as int));
    out
}

/// The counter of a key that a new identifier would make.
pub open spec fn counter_of(key: Seq<u8>) -> Option<int> {
    if key.len() == 19 && key_starts(key, "actorprefix"@) && key[11] == 0 && key[12] == 0
        && key[13] == 0 && key[14] == 1 && key[15] < 0x80 && key[16] < 0x80 && key[17] < 0x80
        && key[18] < 0x80 {
        Some(0x20_0000 * key[15] + 0x4000 * key[16] + 0x80 * key[17] + key[18])
    } else {
        None
    }
}

proof fn lemma_prefix_length()
    ensures
        encode_utf8("actorprefix"@).len() == 11,
{
    reveal_strlit("actorprefix");
    assert(is_ascii_chars("actorprefix"@));
    is_ascii_chars_encode_utf8("actorprefix"@);
}

/// A counter is what its four digits say.
proof fn lemma_counter_digits(n: int)
    requires
        0 <= n < ID_LIMIT,
    ensures
        0x20_0000 * (n / 0x20_0000 % 0x80) + 0x4000 * (n / 0x4000 % 0x80) + 0x80 * (n / 0x80
            % 0x80) + n % 0x80 == n,
{
    let a = n / 0x80;
    let b = n / 0x4000;
    let c = n / 0x20_0000;
    assert(b == a / 0x80);
    assert(c == b / 0x80);
    assert(c % 0x80 == c);
    assert(n == 0x80 * a + n % 0x80);
    assert(a == 0x80 * b + a % 0x80);
    assert(b == 0x80 * c + b % 0x80);
}

/// The counter of a new key is the one that it was made with.
proof fn lemma_counter_of_new(n: int)
    requires
        0 <= n < ID_LIMIT,
    ensures
        counter_of(actor_key(n)) == Some(n),
{
    lemma_prefix_length();
    lemma_counter_digits(n);
    let p = encode_utf8("actorprefix"@);
    let key = actor_key(n);
    assert(key.subrange(0, 11) =~= p);
    let b = id_bytes(n);
    assert(key[11] == b[0] && key[12] == b[1] && key[13] == b[2] && key[14] == b[3]);
    assert(key[15] == b[4] && key[16] == b[5] && key[17] == b[6] && key[18] == b[7]);
}

fn counter(key: &[u8]) -> (r: Option<u32>)
    ensures
        match r {
            Some(n) => counter_of(key@) == Some(n as int) && n < ID_LIMIT,
            None => counter_of(key@) is None,
        },
{
    if key.len() == 19 && key_starts_with(key, "actorprefix") && key[11] == 0 && key[12] == 0
        && key[13] == 0 && key[14] == 1 && key[15] < 0x80 && key[16] < 0x80 && key[17] < 0x80
        && key[18] < 0x80 {
        Some(
            0x20_0000 * (key[15] as u32) + 0x4000 * (key[16] as u32) + 0x80 * (key[17] as u32)
                + key[18] as u32,
        )
    } else {
        None
    }
}

/// Whether no entry has a key that an identifier from a counter on would make.
pub open spec fn is_free_from(entries: Seq<EntryView>, first: int) -> bool {
    forall|i: int, n: int|
        0 <= i < entries.len() && first <= n < ID_LIMIT ==> (#[trigger] entries[i]).key
            != #[trigger] actor_key(n)
}

/// Whether an entry has the key that a counter makes.
pub open spec fn in_use(entries: Seq<EntryView>, n: int) -> bool {
    exists|i: int| 0 <= i < entries.len() && (#[trigger] entries[i]).key == actor_key(n)
}

/// Whether a counter is the first, from another on, from which on no identifier is in use.
pub open spec fn is_first_free(entries: Seq<EntryView>, from: int, first: int) -> bool {
    &&& from <= first <= ID_LIMIT
    &&& is_free_from(entries, first)
    &&& first == from || in_use(entries, first - 1)
}

/// A key that shows a counter is the one that the counter makes.
proof fn lemma_key_of_counter(key: Seq<u8>)
    requires
        counter_of(key) is Some,
    ensures
        key == actor_key(counter_of(key).unwrap()),
{
    lemma_prefix_length();
    let n = counter_of(key).unwrap();
    let a = key[15] as int;
    let b = key[16] as int;
    let c = key[17] as int;
    let d = key[18] as int;
    assert(n == 0x20_0000 * a + 0x4000 * b + 0x80 * c + d);
    assert(n / 0x20_0000 == a);
    assert(n / 0x4000 == 0x80 * a + b);
    assert(n / 0x80 == 0x4000 * a + 0x80 * b + c);
    assert(n / 0x20_0000 % 0x80 == a);
    assert(n / 0x4000 % 0x80 == b);
    assert(n / 0x80 % 0x80 == c);
    assert(n % 0x80 == d);
    let p = encode_utf8("actorprefix"@);
    assert(key.subrange(0, 11) == p);
    assert(key.subrange(11, 19) =~= id_bytes(n));
    assert(key =~= key.subrange(0, 11) + key.subrange(11, 19));
}

/// The first counter, from another on, from which on no identifier is in use among entries.
pub fn first_free(entries: &Vec<DbEntry>, from: u32) -> (r: u32)
    requires
        from <= ID_LIMIT,
    ensures
        is_first_free(entry_views(entries@), from as int, r as int),
{
    let ghost all = entry_views(entries@);
    let mut first: u32 = from;
    for i in 0..entries.len()
        invariant
            all == entry_views(entries@),
            from <= first <= ID_LIMIT,
            is_free_from(all.take(i as int), first as int),
            first == from || in_use(all, first - 1),
    {
        let key = entries[i].key.as_slice();
        assert(all[i as int].key == key@);
        if let Some(n) = counter(key) {
            if n >= first {
                proof {
                    lemma_key_of_counter(key@);
                }
                first = n + 1;
                assert(in_use(all, first - 1));
            }
        }
        assert forall|k: int, n: int|
            0 <= k < i + 1 && first <= n < ID_LIMIT implies (#[trigger] all.take(i + 1)[k]).key
            != #[trigger] actor_key(n) by {
            if k < i {
                assert(all.take(i + 1)[k] == all.take(i as int)[k]);
            } else {
                lemma_counter_of_new(n);
            }
        }
    }
    assert(all.take(entries@.len() as int) =~= all);
    first
}

/// An entity with a new identifier, in each of the places that hold it.
pub open spec fn with_id(c: CompoundView, n: int) -> CompoundView {
    let named = set_entry(c, "UniqueID"@, TagView::Long(unique_id(n) as i64));
    let components = inner(named, "internalComponents"@);
    let component = inner(components, "EntityStorageKeyComponent"@);
    set_entry(
        named,
        "internalComponents"@,
        TagView::Compound(
            set_entry(
                components,
                "EntityStorageKeyComponent"@,
                TagView::Compound(
                    set_entry(component, "StorageKey"@, TagView::Text(storage_text(n))),
                ),
            ),
        ),
    )
}

/// Gives an entity a new identifier.
pub fn give_id(c: CompoundTag, n: u32) -> (r: CompoundTag)
    requires
        n < ID_LIMIT,
    ensures
        r@ == with_id(c@, n as int),
{
    let id: i64 = -0x1_0000_0000 + 0x100_0000 * ((n / 0x20_0000 % 0x80) as i64) + 0x1_0000 * ((n
        / 0x4000 % 0x80) as i64) + 0x100 * ((n / 0x80 % 0x80) as i64) + (n % 0x80) as i64;
    let named = put(c, "UniqueID", Tag::Long(id));
    let components = get_inner(&named, "internalComponents");
    let component = get_inner(&components, "EntityStorageKeyComponent");
    let stored = put(component, "StorageKey", Tag::Text(text_of_id(n)));
    let listed = put(components, "EntityStorageKeyComponent", Tag::Compound(stored));
    put(named, "internalComponents", Tag::Compound(listed))
}

/// Whether an entity is a copy of another at a distance, with a new identifier. `travel` moves a
/// coordinate by a distance.
pub open spec fn is_copy<M: Fn(Real, i64) -> Real>(
    travel: M,
    c: CompoundView,
    dx: i64,
    dz: i64,
    n: int,
    copy: CompoundView,
) -> bool {
    match position(c) {
        Some((x, z)) => exists|nx: Real, nz: Real|
            #[trigger] call_ensures(travel, (x, dx), nx) && #[trigger] call_ensures(travel, (z, dz), nz)
                && copy == with_id(placed(c, nx, nz), n),
        None => copy == with_id(c, n),
    }
}

/// Copies an entity to a distance, with a new identifier.
pub fn copy_entity<M: Fn(Real, i64) -> Real>(c: CompoundTag, dx: i64, dz: i64, n: u32, travel: &M)
    -> (r: CompoundTag)
    requires
        n < ID_LIMIT,
        forall|v: Real, d: i64| call_requires(*travel, (v, d)),
    ensures
        is_copy(*travel, c@, dx, dz, n as int, r@),
{
    match read_position(&c) {
        Some((x, z)) => {
            let nx = travel(x, dx);
            let nz = travel(z, dz);
            give_id(place(c, nx, nz), n)
        },
        None => give_id(c, n),
    }
}

/// The entities that are copied: all but players.
pub open spec fn copied(tags: Seq<CompoundView>) -> Seq<CompoundView>
    decreases tags.len(),
{
    if tags.len() == 0 {
        Seq::empty()
    } else if is_player_actor(Some(tags.last())) {
        copied(tags.drop_last())
    } else {
        copied(tags.drop_last()).push(tags.last())
    }
}

/// Whether entities are copies of others, one for one, with identifiers from a counter on.
pub open spec fn are_copies<M: Fn(Real, i64) -> Real>(
    travel: M,
    tags: Seq<CompoundView>,
    dx: i64,
    dz: i64,
    first: int,
    copies: Seq<CompoundView>,
) -> bool {
    &&& copies.len() == tags.len()
    &&& forall|i: int|
        0 <= i < tags.len() ==> is_copy(travel, #[trigger] tags[i], dx, dz, first + i, copies[i])
}

/// Copies the entities that are no players, with identifiers from a counter on. There are no
/// copies where the identifiers run out.
pub fn copy_entities<M: Fn(Real, i64) -> Real>(
    tags: Vec<CompoundTag>,
    dx: i64,
    dz: i64,
    first: u32,
    travel: &M,
) -> (r: Option<Vec<CompoundTag>>)
    requires
        first <= ID_LIMIT,
        forall|v: Real, d: i64| call_requires(*travel, (v, d)),
    ensures
        match r {
            Some(copies) => are_copies(
                *travel,
                copied(compound_views(tags@)),
                dx,
                dz,
                first as int,
                compound_views(copies@),
            ) && first + copies@.len() <= ID_LIMIT,
            None => first + copied(compound_views(tags@)).len() > ID_LIMIT,
        },
{
    let ghost all = compound_views(tags@);
    let ghost source = tags@;
    let mut out: Vec<CompoundTag> = Vec::new();
    let mut next: u32 = first;
    assert(compound_views(out@) =~= Seq::empty());
    for t in it: tags.into_iter()
        invariant
            it.seq() == source,
            all == compound_views(source),
            forall|v: Real, d: i64| call_requires(*travel, (v, d)),
            first <= next <= ID_LIMIT,
            next == first + out@.len(),
            are_copies(
                *travel,
                copied(all.take(it.index() as int)),
                dx,
                dz,
                first as int,
                compound_views(out@),
            ),
    {
        let ghost i = it.index() as int;
        let ghost before = compound_views(out@);
        let ghost kept = copied(all.take(i));
        assert(all[i] == t@);
        assert(all.take(i + 1).drop_last() =~= all.take(i));
        let boxed = Some(t);
        if !player_actor(&boxed) {
            if next >= ID_LIMIT {
                proof {
                    lemma_copied_grows(all, i + 1, all.len() as int);
                    assert(all.take(all.len() as int) =~= all);
                    assert(compound_views(out@).len() == out@.len());
                }
                return None;
            }
            if let Some(entity) = boxed {
                let copy = copy_entity(entity, dx, dz, next, travel);
                let ghost view = copy@;
                out.push(copy);
                assert(compound_views(out@) =~= before.push(view));
                assert(copied(all.take(i + 1)) == kept.push(all[i]));
                assert(before.len() == kept.len());
                next += 1;
            }
        }
    }
    assert(all.take(all.len() as int) =~= all);
    Some(out)
}

proof fn lemma_copied_grows(tags: Seq<CompoundView>, i: int, j: int)
    requires
        0 <= i <= j <= tags.len(),
    ensures
        copied(tags.take(i)).len() <= copied(tags.take(j)).len(),
    decreases j - i,
{
    if i < j {
        lemma_copied_grows(tags, i, j - 1);
        assert(tags.take(j).drop_last() =~= tags.take(j - 1));
    }
}

/// Players are never copied, and every other entity is.
pub proof fn law_players_are_not_copied(tags: Seq<CompoundView>, c: CompoundView)
    ensures
        copied(tags).contains(c) <==> tags.contains(c) && !is_player_actor(Some(c)),
    decreases tags.len(),
{
    if tags.len() > 0 {
        let front = tags.drop_last();
        let rest = copied(front);
        let all = copied(tags);
        law_players_are_not_copied(front, c);
        if tags.contains(c) {
            let i = choose|i: int| 0 <= i < tags.len() && tags[i] == c;
            if i < front.len() {
                assert(front[i] == c);
            }
        }
        if front.contains(c) {
            let i = choose|i: int| 0 <= i < front.len() && front[i] == c;
            assert(tags[i] == c);
        }
        if rest.contains(c) {
            let i = choose|i: int| 0 <= i < rest.len() && rest[i] == c;
            assert(all[i] == c);
        }
        if all.contains(c) {
            let i = choose|i: int| 0 <= i < all.len() && all[i] == c;
            if i < rest.len() {
                assert(rest[i] == c);
            }
        }
        if !is_player_actor(Some(tags.last())) {
            assert(all[rest.len() as int] == tags.last());
        }
        assert(tags[tags.len() - 1] == tags.last());
    }
}

/// A new identifier is the number 1 in four bytes and then a counter in four bytes of seven bits,
/// both highest byte first. Every byte is an ASCII character.
pub proof fn law_id_bytes(n: int)
    requires
        0 <= n < ID_LIMIT,
    ensures
        ({
            let b = id_bytes(n);
            &&& b.len() == 8
            &&& b[0] == 0 && b[1] == 0 && b[2] == 0 && b[3] == 1
            &&& b[4] < 128 && b[5] < 128 && b[6] < 128 && b[7] < 128
            &&& n == 2097152 * b[4] + 16384 * b[5] + 128 * b[6] + b[7]
            &&& encode_utf8(storage_text(n)) == b
            &&& -4294967296 <= unique_id(n) < -2147483648
        }),
{
    lemma_counter_digits(n);
    let b = id_bytes(n);
    let text = storage_text(n);
    assert(is_ascii_chars(text)) by {
        assert forall|i: int| 0 <= i < text.len() implies '\0' <= #[trigger] text[i] <= '\u{7f}' by {
            assert(b[i] < 128);
        }
    }
    is_ascii_chars_encode_utf8(text);
    assert(encode_utf8(text) =~= b);
}

/// A copy of an entity bears its new identifier in three places that agree: the number under
/// `UniqueID`, the text under `StorageKey` in its components, and the key that it is stored under.
/// Nothing else in it changes.
pub proof fn law_new_identity(c: CompoundView, n: int, name: Seq<char>)
    requires
        0 <= n < ID_LIMIT,
    ensures
        ({
            let copy = with_id(c, n);
            let components = inner(copy, "internalComponents"@);
            let component = inner(components, "EntityStorageKeyComponent"@);
            &&& lookup(copy, "UniqueID"@) == Some(TagView::Long(unique_id(n) as i64))
            &&& lookup(component, "StorageKey"@) matches Some(TagView::Text(s)) && actor_key(n)
                == encode_utf8("actorprefix"@) + encode_utf8(s)
            &&& name != "UniqueID"@ && name != "internalComponents"@ ==> lookup(copy, name) == lookup(
                c,
                name,
            )
            &&& name != "EntityStorageKeyComponent"@ ==> lookup(components, name) == lookup(
                inner(c, "internalComponents"@),
                name,
            )
            &&& name != "StorageKey"@ ==> lookup(component, name) == lookup(
                inner(inner(c, "internalComponents"@), "EntityStorageKeyComponent"@),
                name,
            )
        }),
{
    law_id_bytes(n);
    assert("UniqueID"@ != "internalComponents"@) by {
        reveal_strlit("UniqueID");
        reveal_strlit("internalComponents");
        assert("UniqueID"@.len() != "internalComponents"@.len());
    }
    let id = TagView::Long(unique_id(n) as i64);
    let named = set_entry(c, "UniqueID"@, id);
    let components = inner(named, "internalComponents"@);
    let component = inner(components, "EntityStorageKeyComponent"@);
    let key = TagView::Text(storage_text(n));
    let new_component = set_entry(component, "StorageKey"@, key);
    let new_components = set_entry(
        components,
        "EntityStorageKeyComponent"@,
        TagView::Compound(new_component),
    );
    let whole = TagView::Compound(new_components);
    law_set_then_lookup(c, "UniqueID"@, id);
    law_set_keeps_others(c, "UniqueID"@, id, "internalComponents"@);
    law_set_then_lookup(named, "internalComponents"@, whole);
    law_set_keeps_others(named, "internalComponents"@, whole, "UniqueID"@);
    law_set_then_lookup(
        components,
        "EntityStorageKeyComponent"@,
        TagView::Compound(new_component),
    );
    law_set_then_lookup(component, "StorageKey"@, key);
    if name != "UniqueID"@ && name != "internalComponents"@ {
        law_set_keeps_others(c, "UniqueID"@, id, name);
        law_set_keeps_others(named, "internalComponents"@, whole, name);
    }
    if name != "EntityStorageKeyComponent"@ {
        law_set_keeps_others(
            components,
            "EntityStorageKeyComponent"@,
            TagView::Compound(new_component),
            name,
        );
    }
    if name != "StorageKey"@ {
        law_set_keeps_others(component, "StorageKey"@, key, name);
    }
}

/// The entities that are copied are those whose identifier is not that of a player, all of them, in
/// their order.
pub proof fn law_copied(tags: Seq<CompoundView>) -> (places: Seq<int>)
    ensures
        selects(
            places,
            tags.len() as int,
            |i: int| lookup_text(tags[i], "identifier"@) != Some("minecraft:player"@),
        ),
        places.len() == copied(tags).len(),
        forall|k: int| 0 <= k < places.len() ==> #[trigger] copied(tags)[k] == tags[places[k]],
{
    assert(tags.take(tags.len() as int) =~= tags);
    lemma_copied_places(tags, tags.len())
}

proof fn lemma_copied_places(tags: Seq<CompoundView>, n: nat) -> (places: Seq<int>)
    requires
        n <= tags.len(),
    ensures
        selects(
            places,
            n as int,
            |i: int| lookup_text(tags[i], "identifier"@) != Some("minecraft:player"@),
        ),
        places.len() == copied(tags.take(n as int)).len(),
        forall|k: int|
            0 <= k < places.len() ==> #[trigger] copied(tags.take(n as int))[k] == tags[places[k]],
    decreases n,
{
    let wanted = |i: int| lookup_text(tags[i], "identifier"@) != Some("minecraft:player"@);
    if n == 0 {
        lemma_select_none(wanted);
        Seq::empty()
    } else {
        let m = n - 1;
        let before = lemma_copied_places(tags, m as nat);
        lemma_select_next(before, m, wanted);
        let some = copied(tags.take(m));
        let all = copied(tags.take(n as int));
        assert(tags.take(n as int).drop_last() =~= tags.take(m));
        assert(tags.take(n as int).last() == tags[m]);
        if wanted(m) {
            assert(all == some.push(tags[m]));
            let places = before.push(m);
            assert forall|k: int| 0 <= k < places.len() implies #[trigger] all[k]
                == tags[places[k]] by {
                if k < some.len() {
                    assert(all[k] == some[k]);
                    assert(places[k] == before[k]);
                }
            }
            places
        } else {
            assert(all == some);
            before
        }
    }
}

/// A copy of an entity stands where the function that moves a coordinate brings it: x by the distance
/// along x, z by that along z. It bears the new identifier, and keeps its height and all else.
pub proof fn law_copy<M: Fn(Real, i64) -> Real>(
    travel: M,
    c: CompoundView,
    dx: i64,
    dz: i64,
    n: int,
    copy: CompoundView,
    l: Seq<TagView>,
    x: Real,
    z: Real,
)
    requires
        is_copy(travel, c, dx, dz, n, copy),
        0 <= n < ID_LIMIT,
        lookup(c, "Pos"@) == Some(TagView::List(l)),
        l.len() >= 3,
        tag_real(l[0]) == Some(x),
        tag_real(l[2]) == Some(z),
    ensures
        lookup(copy, "UniqueID"@) == Some(TagView::Long(unique_id(n) as i64)),
        exists|nx: Real, nz: Real|
            #[trigger] call_ensures(travel, (x, dx), nx) && #[trigger] call_ensures(travel, (z, dz), nz)
                && position(copy) == Some((nx, nz)),
        lookup(copy, "Pos"@) matches Some(TagView::List(m)) && m.len() == l.len() && m[1] == l[1],
{
    law_position(c);
    let (nx, nz) = choose|nx: Real, nz: Real|
        #[trigger] call_ensures(travel, (x, dx), nx) && #[trigger] call_ensures(travel, (z, dz), nz)
            && copy == with_id(placed(c, nx, nz), n);
    law_placed(c, nx, nz, l, "Pos"@);
    law_new_identity(placed(c, nx, nz), n, "Pos"@);
    assert("Pos"@ != "UniqueID"@ && "Pos"@ != "internalComponents"@) by {
        reveal_strlit("Pos");
        reveal_strlit("UniqueID");
        reveal_strlit("internalComponents");
        assert("Pos"@.len() == 3 && "UniqueID"@.len() == 8 && "internalComponents"@.len() == 18);
    }
    assert(position(copy) == Some((nx, nz)));
}

} // verus!
