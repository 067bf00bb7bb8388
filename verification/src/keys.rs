//! Database keys: players, actors and chunks.
//!
//! A chunk key begins with the chunk coordinates. A tag byte follows in the overworld. In the
//! other dimensions the dimension stands before the tag, in four bytes or, in later saves, in
//! one.

use crate::bytes::{
    copy_bytes, has_prefix, law_le_i32_bytes_round_trip, law_le_i32_round_trip, law_prefix, le_i32,
    le_i32_bytes, push_i32_le, read_i32_le, starts_with,
};
use vstd::prelude::*;
use vstd::utf8::{encode_utf8, is_ascii_chars_encode_utf8};

verus! {

/// Whether a key begins with a text.
pub open spec fn key_starts(key: Seq<u8>, text: Seq<char>) -> bool {
    has_prefix(key, encode_utf8(text))
}

/// Whether a key begins with a text.
pub fn key_starts_with(key: &[u8], text: &str) -> (r: bool)
    ensures
        r == key_starts(key@, text@),
{
    starts_with(key, text.as_bytes())
}

/// Whether a key is that of a player's full data on a server.
pub open spec fn is_server_player_key(key: Seq<u8>) -> bool {
    key_starts(key, "player_server_"@)
}

/// Whether a key is that of a player's identity: `player_`, but not `player_server_`.
pub open spec fn is_identity_key(key: Seq<u8>) -> bool {
    key_starts(key, "player_"@) && !is_server_player_key(key)
}

/// Whether a key is that of a player, full data on a server aside.
pub open spec fn is_player_key(key: Seq<u8>) -> bool {
    key_starts(key, "~local_player"@) || key_starts(key, "~player_"@) || is_identity_key(key)
}

/// Whether a key is that of any player data. The keys of a chunk can begin with the same byte.
pub open spec fn is_player_data_key(key: Seq<u8>) -> bool {
    (key_starts(key, "player_"@) || key_starts(key, "~"@)) && !is_chunk_key_bytes(key)
}

/// Whether a key is that of a player's identity.
pub fn identity_key(key: &[u8]) -> (r: bool)
    ensures
        r == is_identity_key(key@),
{
    key_starts_with(key, "player_") && !key_starts_with(key, "player_server_")
}

/// Whether a key is that of a player, full data on a server aside.
pub fn player_key(key: &[u8]) -> (r: bool)
    ensures
        r == is_player_key(key@),
{
    key_starts_with(key, "~local_player") || key_starts_with(key, "~player_") || identity_key(key)
}

/// Whether a key is that of any player data.
pub fn player_data_key(key: &[u8]) -> (r: bool)
    ensures
        r == is_player_data_key(key@),
{
    (key_starts_with(key, "player_") || key_starts_with(key, "~")) && !is_chunk_key(key)
}

/// `a` divided by `b`, rounded so that the remainder is not negative.
pub fn floor_div(a: i32, b: i32) -> (r: i32)
    requires
        b != 0,
        !(a == i32::MIN && b == -1),
    ensures
        r == a as int / b as int,
{
    proof {
        assert(i32::MIN <= a as int / b as int <= i32::MAX) by (nonlinear_arith)
            requires
                b != 0,
                !(a == i32::MIN && b == -1),
                i32::MIN <= a <= i32::MAX,
                i32::MIN <= b <= i32::MAX,
        ;
    }
    a.checked_div_euclid(b).unwrap()
}

/// The chunk coordinate of a block coordinate.
pub open spec fn chunk_of(block: int) -> int {
    block / 16
}

/// The chunk coordinate of a block coordinate.
pub fn chunk_coordinate(block: i32) -> (r: i32)
    ensures
        r == chunk_of(block as int),
        -0x800_0000 <= r < 0x800_0000,
{
    floor_div(block, 16)
}

/// The coordinates of a chunk as the front of its keys.
pub open spec fn chunk_prefix(cx: i32, cz: i32) -> Seq<u8> {
    le_i32_bytes(cx) + le_i32_bytes(cz)
}

/// The coordinates of a chunk as the front of its keys.
pub fn chunk_key_prefix(cx: i32, cz: i32) -> (r: Vec<u8>)
    ensures
        r@ == chunk_prefix(cx, cz),
        r@.len() == 8,
{
    let mut key: Vec<u8> = Vec::new();
    push_i32_le(&mut key, cx);
    push_i32_le(&mut key, cz);
    assert(key@ =~= chunk_prefix(cx, cz));
    key
}

/// A number with a sign as the byte that represents it.
pub open spec fn signed_byte(v: i8) -> u8 {
    if v < 0 {
        (v + 256) as u8
    } else {
        v as u8
    }
}

fn byte_of(v: i8) -> (r: u8)
    ensures
        r == signed_byte(v),
{
    if v < 0 {
        (v as i16 + 256) as u8
    } else {
        v as u8
    }
}

/// The key of a sub-chunk in the overworld.
pub open spec fn subchunk_key_bytes(cx: i32, cz: i32, cy: i8) -> Seq<u8> {
    chunk_prefix(cx, cz) + seq![0x2f_u8, signed_byte(cy)]
}

/// The key of a sub-chunk in the overworld.
pub fn subchunk_key(cx: i32, cz: i32, cy: i8) -> (r: Vec<u8>)
    ensures
        r@ == subchunk_key_bytes(cx, cz, cy),
{
    let mut key = chunk_key_prefix(cx, cz);
    key.push(0x2f);
    key.push(byte_of(cy));
    assert(key@ =~= subchunk_key_bytes(cx, cz, cy));
    key
}

/// The key of a chunk's block entities in the overworld.
pub open spec fn block_entity_key_bytes(cx: i32, cz: i32) -> Seq<u8> {
    chunk_prefix(cx, cz) + seq![0x31_u8]
}

/// The key of a chunk's block entities in the overworld.
pub fn block_entity_key(cx: i32, cz: i32) -> (r: Vec<u8>)
    ensures
        r@ == block_entity_key_bytes(cx, cz),
{
    let mut key = chunk_key_prefix(cx, cz);
    key.push(0x31);
    assert(key@ =~= block_entity_key_bytes(cx, cz));
    key
}

/// How a chunk key holds its dimension.
#[derive(Clone, Copy, PartialEq, Eq, Structural, Debug)]
pub enum DimField {
    /// There is none: the overworld.
    Absent,
    /// One byte.
    Short,
    /// Four bytes.
    Long,
}

/// The bytes of a dimension field. The overworld has none.
pub open spec fn dim_bytes(dim: u8, field: DimField) -> Seq<u8> {
    if dim == 0 {
        Seq::empty()
    } else {
        match field {
            DimField::Absent => Seq::empty(),
            DimField::Short => seq![dim],
            DimField::Long => seq![dim, 0u8, 0u8, 0u8],
        }
    }
}

/// A key with the field of a dimension put in behind the chunk coordinates.
pub open spec fn with_dimension(key: Seq<u8>, dim: u8, field: DimField) -> Seq<u8> {
    key.take(8) + dim_bytes(dim, field) + key.skip(8)
}

/// An overworld key with the field of a dimension put in behind the chunk coordinates.
pub fn key_in_dimension(key: &[u8], dim: u8, field: DimField) -> (r: Vec<u8>)
    requires
        key@.len() >= 8,
    ensures
        r@ == with_dimension(key@, dim, field),
{
    let mut out: Vec<u8> = Vec::new();
    for i in 0..8usize
        invariant
            key@.len() >= 8,
            out@ == key@.take(i as int),
    {
        out.push(key[i]);
        assert(out@ =~= key@.take(i + 1));
    }
    if dim != 0 {
        match field {
            DimField::Absent => {},
            DimField::Short => {
                out.push(dim);
            },
            DimField::Long => {
                out.push(dim);
                out.push(0);
                out.push(0);
                out.push(0);
            },
        }
    }
    assert(out@ =~= key@.take(8) + dim_bytes(dim, field));
    let ghost front = out@;
    let mut i: usize = 8;
    assert(key@.subrange(8, 8) =~= Seq::<u8>::empty());
    assert(out@ =~= front + key@.subrange(8, 8));
    while i < key.len()
        invariant
            8 <= i <= key.len(),
            out@ == front + key@.subrange(8, i as int),
        decreases key.len() - i,
    {
        out.push(key[i]);
        i += 1;
        assert(out@ =~= front + key@.subrange(8, i as int));
    }
    assert(out@ =~= with_dimension(key@, dim, field));
    out
}

/// The forms that an overworld key can have in a dimension.
pub open spec fn forms_in_dimension(key: Seq<u8>, dim: u8) -> Seq<Seq<u8>> {
    if dim == 0 {
        seq![key]
    } else {
        seq![
            with_dimension(key, dim, DimField::Long),
            with_dimension(key, dim, DimField::Short),
        ]
    }
}

/// The forms that an overworld key can have in a dimension.
pub fn keys_in_dimension(key: &[u8], dim: u8) -> (r: Vec<Vec<u8>>)
    requires
        key@.len() >= 8,
    ensures
        r@.map_values(|k: Vec<u8>| k@) == forms_in_dimension(key@, dim),
{
    let mut out: Vec<Vec<u8>> = Vec::new();
    if dim == 0 {
        out.push(copy_bytes(key));
    } else {
        out.push(key_in_dimension(key, dim, DimField::Long));
        out.push(key_in_dimension(key, dim, DimField::Short));
    }
    assert(out@.map_values(|k: Vec<u8>| k@) =~= forms_in_dimension(key@, dim));
    out
}

/// The dimension in the four-byte field of a chunk key; the overworld where there is none.
pub open spec fn key_dim(key: Seq<u8>) -> u8 {
    if key.len() >= 13 && le_i32(key, 8) == 1 {
        1
    } else if key.len() >= 13 && le_i32(key, 8) == 2 {
        2
    } else {
        0
    }
}

/// The dimension in the four-byte field of a chunk key; the overworld where there is none.
pub fn extract_dim_from_key(key: &[u8]) -> (r: u8)
    ensures
        r == key_dim(key@),
{
    if key.len() >= 13 {
        let dim: i32 = read_i32_le(key, 8);
        if dim == 1 {
            return 1;
        }
        if dim == 2 {
            return 2;
        }
    }
    0
}

/// How a chunk key holds its dimension, in either form.
pub open spec fn dim_field(key: Seq<u8>) -> DimField {
    if key_dim(key) != 0 {
        DimField::Long
    } else if key.len() >= 10 && (key[8] == 1 || key[8] == 2) {
        DimField::Short
    } else {
        DimField::Absent
    }
}

/// The dimension of a chunk key, in either form.
pub open spec fn any_dim(key: Seq<u8>) -> u8 {
    match dim_field(key) {
        DimField::Long => key_dim(key),
        DimField::Short => key[8],
        DimField::Absent => 0,
    }
}

/// How a chunk key holds its dimension, in either form.
pub fn dimension_field(key: &[u8]) -> (r: DimField)
    ensures
        r == dim_field(key@),
{
    if extract_dim_from_key(key) != 0 {
        DimField::Long
    } else if key.len() >= 10 && (key[8] == 1 || key[8] == 2) {
        DimField::Short
    } else {
        DimField::Absent
    }
}

/// The dimension of a chunk key, in either form.
pub fn dimension_of_key(key: &[u8]) -> (r: u8)
    ensures
        r == any_dim(key@),
{
    match dimension_field(key) {
        DimField::Long => extract_dim_from_key(key),
        DimField::Short => key[8],
        DimField::Absent => 0,
    }
}

/// How many bytes a dimension takes in a chunk key.
pub open spec fn field_width(field: DimField) -> int {
    match field {
        DimField::Absent => 0,
        DimField::Short => 1,
        DimField::Long => 4,
    }
}

pub(crate) fn width(field: DimField) -> (r: usize)
    ensures
        r == field_width(field),
{
    match field {
        DimField::Absent => 0,
        DimField::Short => 1,
        DimField::Long => 4,
    }
}

/// What follows the coordinates and the dimension in a chunk key. It begins with the tag.
pub open spec fn key_rest(key: Seq<u8>) -> Seq<u8> {
    key.skip(8 + field_width(dim_field(key)))
}

/// Whether a byte is the tag of a kind of chunk data. The tags from `0x2b` to `0x41` are those of
/// height maps and biomes, the version, sub-chunks, block entities, entities, ticks, states,
/// border blocks, spawners, checksums, seeds, blending data and the version of the digest;
/// `0x76` is that of the version in older saves and `0x77` that of the bounds of structures.
pub open spec fn is_chunk_tag(tag: u8) -> bool {
    0x2b <= tag <= 0x41 || tag == 0x76 || tag == 0x77
}

/// Whether a key begins with a name: four printable ASCII characters. Read as a coordinate, they
/// lie beyond every chunk that holds a block.
pub open spec fn is_named(key: Seq<u8>) -> bool {
    key.len() >= 4 && forall|i: int| 0 <= i < 4 ==> 0x20 <= #[trigger] key[i] <= 0x7e
}

/// Whether a key begins with a name.
pub fn named(key: &[u8]) -> (r: bool)
    ensures
        r == is_named(key@),
{
    if key.len() < 4 {
        return false;
    }
    for k in 0..4usize
        invariant
            key@.len() >= 4,
            forall|i: int| 0 <= i < k ==> 0x20 <= #[trigger] key@[i] <= 0x7e,
    {
        if key[k] < 0x20 || key[k] > 0x7e {
            return false;
        }
    }
    true
}

/// Whether a key is that of a chunk: the tag of a kind of chunk data follows the coordinates and
/// the dimension, and no name stands in their place.
pub open spec fn is_chunk_key_bytes(key: Seq<u8>) -> bool {
    &&& key.len() >= 9
    &&& is_chunk_tag(key_rest(key)[0])
    &&& !is_named(key)
}

/// Whether a key is that of a chunk.
pub fn is_chunk_key(key: &[u8]) -> (r: bool)
    ensures
        r == is_chunk_key_bytes(key@),
{
    if key.len() < 9 || named(key) {
        return false;
    }
    let tag: u8 = key[8 + width(dimension_field(key))];
    0x2b <= tag && tag <= 0x41 || tag == 0x76 || tag == 0x77
}

/// The chunk coordinates at the front of a key.
pub open spec fn key_chunk(key: Seq<u8>) -> (int, int) {
    (le_i32(key, 0), le_i32(key, 4))
}

/// The keys of a chunk are those that begin with its coordinates.
pub proof fn law_chunk_prefix(key: Seq<u8>, cx: i32, cz: i32)
    ensures
        has_prefix(key, chunk_prefix(cx, cz)) <==> key.len() >= 8 && key_chunk(key) == (
            cx as int,
            cz as int,
        ),
{
    law_le_i32_round_trip(cx);
    law_le_i32_round_trip(cz);
    let p = chunk_prefix(cx, cz);
    if key.len() >= 8 {
        let a = key.subrange(0, 4);
        let b = key.subrange(4, 8);
        law_le_i32_bytes_round_trip(a);
        law_le_i32_bytes_round_trip(b);
        assert(le_i32(key, 0) == le_i32(a, 0));
        assert(le_i32(key, 4) == le_i32(b, 0));
        assert(key.subrange(0, 8) =~= a + b);
        if has_prefix(key, p) {
            assert(a =~= p.subrange(0, 4));
            assert(b =~= p.subrange(4, 8));
            assert(a =~= le_i32_bytes(cx));
            assert(b =~= le_i32_bytes(cz));
        }
        if key_chunk(key) == (cx as int, cz as int) {
            assert(a == le_i32_bytes(cx));
            assert(b == le_i32_bytes(cz));
            assert(key.subrange(0, 8) =~= p);
        }
    }
}

/// A key of the overworld, whose tag byte is never zero, that is put into another dimension shows
/// that dimension, and keeps its chunk.
pub proof fn law_key_in_dimension(key: Seq<u8>, dim: u8, field: DimField)
    requires
        key.len() >= 9,
        key[8] != 0,
        dim == 1 || dim == 2,
        field != DimField::Absent,
    ensures
        any_dim(with_dimension(key, dim, field)) == dim,
        dim_field(with_dimension(key, dim, field)) == field,
        key_chunk(with_dimension(key, dim, field)) == key_chunk(key),
{
    let k = with_dimension(key, dim, field);
    assert(forall|i: int| 0 <= i < 8 ==> k[i] == key[i]);
    match field {
        DimField::Absent => {},
        DimField::Short => {
            assert(k[8] == dim);
            assert(k[9] == key[8]);
        },
        DimField::Long => {
            assert(k[8] == dim && k[9] == 0 && k[10] == 0 && k[11] == 0);
        },
    }
}

/// The keys of every chunk that holds a block are chunk keys, whatever bytes its coordinates have:
/// all that is asked of such a key is a tag.
pub proof fn law_world_chunk_keys(key: Seq<u8>)
    requires
        key.len() >= 9,
        -0x800_0000 <= key_chunk(key).0 < 0x800_0000,
    ensures
        is_chunk_key_bytes(key) <==> is_chunk_tag(key_rest(key)[0]),
{
    let a = key.subrange(0, 4);
    law_le_i32_bytes_round_trip(a);
    assert(le_i32(key, 0) == le_i32(a, 0));
    assert(key[3] == a[3]);
    assert(key[3] < 8 || key[3] >= 0xf8);
}

/// A key that begins with a text is no chunk key: not that of a player, an actor, a digest, a map
/// or the scoreboard, whatever byte stands where a chunk key has its tag.
pub proof fn law_names_are_no_chunk_keys(key: Seq<u8>, text: Seq<char>)
    requires
        key_starts(key, text),
        text.len() >= 4,
        forall|i: int| 0 <= i < text.len() ==> ' ' <= #[trigger] text[i] <= '~',
    ensures
        !is_chunk_key_bytes(key),
{
    is_ascii_chars_encode_utf8(text);
    let bytes = encode_utf8(text);
    assert forall|i: int| 0 <= i < 4 implies 0x20 <= #[trigger] key[i] <= 0x7e by {
        assert(key[i] == key.subrange(0, bytes.len() as int)[i]);
        assert(key[i] == bytes[i]);
        assert(' ' <= text[i] <= '~');
    }
}

/// A key of full data on a server is also one that begins as that of a player.
pub proof fn lemma_server_prefix(key: Seq<u8>)
    requires
        is_server_player_key(key),
    ensures
        key_starts(key, "player_"@),
{
    reveal_strlit("player_server_");
    reveal_strlit("player_");
    is_ascii_chars_encode_utf8("player_server_"@);
    is_ascii_chars_encode_utf8("player_"@);
    let long = encode_utf8("player_server_"@);
    let short = encode_utf8("player_"@);
    assert forall|i: int| 0 <= i < short.len() implies key[i] == short[i] by {
        assert(key.subrange(0, long.len() as int)[i] == long[i]);
    }
    assert(key.subrange(0, short.len() as int) =~= short);
}

/// The key of a sub-chunk is its chunk coordinates, the tag `0x2f` and its number with a sign in one
/// byte. That of block entities is the chunk coordinates and the tag `0x31`.
pub proof fn law_keys_of_a_chunk(cx: i32, cz: i32, cy: i8)
    ensures
        ({
            let s = subchunk_key_bytes(cx, cz, cy);
            &&& s.len() == 10
            &&& key_chunk(s) == (cx as int, cz as int)
            &&& s[8] == 0x2f
            &&& cy >= 0 ==> s[9] == cy
            &&& cy < 0 ==> s[9] == cy + 256
        }),
        ({
            let b = block_entity_key_bytes(cx, cz);
            &&& b.len() == 9
            &&& key_chunk(b) == (cx as int, cz as int)
            &&& b[8] == 0x31
        }),
{
    let s = subchunk_key_bytes(cx, cz, cy);
    let b = block_entity_key_bytes(cx, cz);
    let p = chunk_prefix(cx, cz);
    assert(s.subrange(0, 8) =~= p);
    assert(b.subrange(0, 8) =~= p);
    law_chunk_prefix(s, cx, cz);
    law_chunk_prefix(b, cx, cz);
}

/// Outside the overworld the number of the dimension stands behind the coordinates: in four bytes,
/// lowest first, or in one byte. A key without it is one of the overworld.
pub proof fn law_dimension_of_key(place: Seq<u8>, dim: u8, tag: u8, rest: Seq<u8>)
    requires
        place.len() == 8,
        tag > 2,
        dim == 1 || dim == 2,
    ensures
        key_dim(place + seq![dim, 0u8, 0u8, 0u8, tag] + rest) == dim,
        any_dim(place + seq![dim, 0u8, 0u8, 0u8, tag] + rest) == dim,
        any_dim(place + seq![dim, tag] + rest) == dim,
        key_dim(place + seq![dim, tag] + rest) == 0,
        any_dim(place + seq![tag] + rest) == 0 && key_dim(place + seq![tag] + rest) == 0 || (
        rest.len() >= 4 && rest[0] == 0 && rest[1] == 0 && rest[2] == 0),
        key_rest(place + seq![dim, 0u8, 0u8, 0u8, tag] + rest) == seq![tag] + rest,
        key_rest(place + seq![dim, tag] + rest) == seq![tag] + rest,
{
    let long = place + seq![dim, 0u8, 0u8, 0u8, tag] + rest;
    let short = place + seq![dim, tag] + rest;
    let plain = place + seq![tag] + rest;
    assert(long[8] == dim && long[9] == 0 && long[10] == 0 && long[11] == 0);
    assert(short[8] == dim && short[9] == tag);
    assert(plain[8] == tag);
    assert(long.skip(12) =~= seq![tag] + rest);
    assert(short.skip(9) =~= seq![tag] + rest);
}

/// A key has one form in the overworld, itself, and two in another dimension: with the number of the
/// dimension behind the coordinates in four bytes, and in one.
pub proof fn law_forms(place: Seq<u8>, rest: Seq<u8>, dim: u8)
    requires
        place.len() == 8,
    ensures
        dim == 0 ==> forms_in_dimension(place + rest, dim) == seq![place + rest],
        dim != 0 ==> forms_in_dimension(place + rest, dim) == seq![
            place + seq![dim, 0u8, 0u8, 0u8] + rest,
            place + seq![dim] + rest,
        ],
{
    let key = place + rest;
    assert(key.take(8) =~= place);
    assert(key.skip(8) =~= rest);
}

/// The tags of chunk data are those from 43 to 65, and 118 and 119.
pub proof fn law_chunk_tags(place: Seq<u8>, tag: u8, rest: Seq<u8>)
    requires
        place.len() == 8,
        place[3] < 0x20,
        tag > 2,
        rest.len() < 4,
    ensures
        is_chunk_key_bytes(place + seq![tag] + rest) <==> 43 <= tag && tag <= 65 || tag == 118 || tag
            == 119,
{
    let key = place + seq![tag] + rest;
    assert(key[8] == tag);
    assert(key[3] == place[3]);
    assert(key.skip(8)[0] == tag);
}

/// Any key that begins with `player_` or `~` and is none of a chunk is one of player data, and no
/// other is.
pub proof fn law_player_data(key: Seq<u8>, rest: Seq<u8>)
    ensures
        is_player_data_key(encode_utf8("player_"@) + rest),
        key_starts(key, "~"@) && !is_chunk_key_bytes(key) ==> is_player_data_key(key),
        is_player_data_key(key) ==> key_starts(key, "player_"@) || key_starts(key, "~"@),
        is_player_data_key(key) ==> !is_chunk_key_bytes(key),
{
    let p = encode_utf8("player_"@) + rest;
    law_prefix(p, encode_utf8("player_"@), rest);
    reveal_strlit("player_");
    law_names_are_no_chunk_keys(p, "player_"@);
}

} // verus!
