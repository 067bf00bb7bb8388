//! Import of chunks at another place.

use crate::bytes::{
    law_le_i32_bytes_round_trip, law_le_i32_round_trip, le_i32, le_i32_bytes, read_i32_le,
};
use crate::keys::{
    any_dim, chunk_coordinate, chunk_key_prefix, chunk_of, chunk_prefix, dim_bytes, dim_field,
    dimension_field, dimension_of_key, field_width, key_chunk, key_rest, width, DimField,
};
use vstd::prelude::*;

verus! {

/// How far chunks are moved, and into which dimension where it is not their own.
#[derive(Clone, Copy, PartialEq, Eq, Structural, Debug)]
pub struct Shift {
    pub dcx: i32,
    pub dcz: i32,
    pub dimension: Option<u8>,
}

/// Whether a shift stays within the size of the world, and names a dimension if it names one.
pub open spec fn is_shift(s: Shift) -> bool {
    &&& -0x1000_0000 <= s.dcx <= 0x1000_0000
    &&& -0x1000_0000 <= s.dcz <= 0x1000_0000
    &&& s.dimension matches Some(d) ==> d <= 2
}

/// The shift that brings the chunk of one block to that of another.
pub open spec fn shift_between(
    from_x: int,
    from_z: int,
    to_x: int,
    to_z: int,
    dimension: Option<u8>,
) -> Shift {
    Shift {
        dcx: (chunk_of(to_x) - chunk_of(from_x)) as i32,
        dcz: (chunk_of(to_z) - chunk_of(from_z)) as i32,
        dimension,
    }
}

/// The shift that brings the chunk of one block to that of another.
pub fn shift_to(from: (i32, i32), to: (i32, i32), dimension: Option<u8>) -> (r: Shift)
    requires
        dimension matches Some(d) ==> d <= 2,
    ensures
        r == shift_between(
            from.0 as int,
            from.1 as int,
            to.0 as int,
            to.1 as int,
            dimension,
        ),
        is_shift(r),
{
    Shift {
        dcx: chunk_coordinate(to.0) - chunk_coordinate(from.0),
        dcz: chunk_coordinate(to.1) - chunk_coordinate(from.1),
        dimension,
    }
}

/// The dimension to which a key of a dimension is moved.
pub open spec fn target_dim(s: Shift, dim: u8) -> u8 {
    match s.dimension {
        Some(d) => d,
        None => dim,
    }
}

/// The form in which a moved key holds its dimension: its own, or the long one where it had
/// none.
pub open spec fn target_field(dim: u8, field: DimField) -> DimField {
    if dim == 0 {
        DimField::Absent
    } else if field == DimField::Short {
        DimField::Short
    } else {
        DimField::Long
    }
}

/// Whether a moved chunk coordinate can be written.
pub open spec fn fits(v: int) -> bool {
    i32::MIN <= v <= i32::MAX
}

/// The coordinates and the dimension of a moved chunk at the front of its keys.
pub open spec fn moved_front(cx: int, cz: int, dim: u8, field: DimField, s: Shift) -> Option<
    Seq<u8>,
> {
    if fits(cx + s.dcx) && fits(cz + s.dcz) {
        let d = target_dim(s, dim);
        Some(
            chunk_prefix((cx + s.dcx) as i32, (cz + s.dcz) as i32) + dim_bytes(
                d,
                target_field(d, field),
            ),
        )
    } else {
        None
    }
}

/// A chunk key at another place. There is none where the place cannot be written.
pub open spec fn moved_key(key: Seq<u8>, s: Shift) -> Option<Seq<u8>> {
    match moved_front(key_chunk(key).0, key_chunk(key).1, any_dim(key), dim_field(key), s) {
        Some(front) => Some(front + key_rest(key)),
        None => None,
    }
}

pub(crate) fn move_front(cx: i32, cz: i32, dim: u8, field: DimField, s: Shift) -> (r: Option<Vec<u8>>)
    ensures
        match r {
            Some(front) => moved_front(cx as int, cz as int, dim, field, s) == Some(front@),
            None => moved_front(cx as int, cz as int, dim, field, s) is None,
        },
{
    let x: i64 = cx as i64 + s.dcx as i64;
    let z: i64 = cz as i64 + s.dcz as i64;
    if x < i32::MIN as i64 || x > i32::MAX as i64 || z < i32::MIN as i64 || z > i32::MAX as i64 {
        return None;
    }
    let d: u8 = match s.dimension {
        Some(d) => d,
        None => dim,
    };
    let mut out = chunk_key_prefix(x as i32, z as i32);
    let ghost prefix = out@;
    if d != 0 {
        out.push(d);
        if field != DimField::Short {
            out.push(0);
            out.push(0);
            out.push(0);
        }
    }
    assert(out@ =~= prefix + dim_bytes(d, target_field(d, field)));
    Some(out)
}

/// A chunk key at another place.
pub fn move_key(key: &[u8], s: Shift) -> (r: Option<Vec<u8>>)
    requires
        key@.len() >= 9,
    ensures
        match r {
            Some(k) => moved_key(key@, s) == Some(k@),
            None => moved_key(key@, s) is None,
        },
{
    let field = dimension_field(key);
    let start: usize = 8 + width(field);
    match move_front(read_i32_le(key, 0), read_i32_le(key, 4), dimension_of_key(key), field, s) {
        Some(front) => {
            let ghost head = front@;
            let mut out = front;
            let mut i: usize = start;
            assert(out@ =~= head + key@.subrange(start as int, start as int));
            while i < key.len()
                invariant
                    start <= i <= key.len(),
                    out@ == head + key@.subrange(start as int, i as int),
                decreases key.len() - i,
            {
                out.push(key[i]);
                i += 1;
                assert(out@ =~= head + key@.subrange(start as int, i as int));
            }
            assert(key@.subrange(start as int, key@.len() as int) =~= key_rest(key@));
            Some(out)
        },
        None => None,
    }
}

/// Whether a key is that of a chunk with a tag byte, which is above the numbers of the
/// dimensions.
pub open spec fn is_tagged_key(key: Seq<u8>) -> bool {
    key.len() >= 9 && key_rest(key)[0] > 2
}

proof fn lemma_front(cx: i32, cz: i32, rest: Seq<u8>, dim: u8, field: DimField)
    requires
        rest.len() >= 1,
        rest[0] > 2,
        dim <= 2,
        field == target_field(dim, field),
    ensures
        ({
            let key = chunk_prefix(cx, cz) + dim_bytes(dim, field) + rest;
            &&& key_chunk(key) == (cx as int, cz as int)
            &&& any_dim(key) == dim
            &&& dim_field(key) == field
            &&& key_rest(key) == rest
        }),
{
    let key = chunk_prefix(cx, cz) + dim_bytes(dim, field) + rest;
    law_le_i32_round_trip(cx);
    law_le_i32_round_trip(cz);
    let a = le_i32_bytes(cx);
    let b = le_i32_bytes(cz);
    assert(key[0] == a[0] && key[1] == a[1] && key[2] == a[2] && key[3] == a[3]);
    assert(key[4] == b[0] && key[5] == b[1] && key[6] == b[2] && key[7] == b[3]);
    assert(le_i32(key, 0) == le_i32(a, 0));
    assert(le_i32(key, 4) == le_i32(b, 0));
    match field {
        DimField::Absent => {
            assert(key[8] == rest[0]);
            assert(key.skip(8) =~= rest);
        },
        DimField::Short => {
            assert(key[8] == dim);
            assert(key[9] == rest[0]);
            assert(key.skip(9) =~= rest);
        },
        DimField::Long => {
            assert(key[8] == dim && key[9] == 0 && key[10] == 0 && key[11] == 0);
            assert(key.skip(12) =~= rest);
        },
    }
}

proof fn lemma_key_dims(key: Seq<u8>)
    requires
        key.len() >= 9,
    ensures
        any_dim(key) <= 2,
        dim_field(key) == target_field(any_dim(key), dim_field(key)),
        key_rest(key).len() >= 1,
{
}

/// A moved key lies in the moved chunk, in the dimension that was asked for or else its own, and
/// keeps what follows.
pub proof fn law_moved_key(key: Seq<u8>, s: Shift)
    requires
        is_tagged_key(key),
        is_shift(s),
        moved_key(key, s) is Some,
    ensures
        ({
            let k = moved_key(key, s).unwrap();
            &&& key_chunk(k) == (key_chunk(key).0 + s.dcx, key_chunk(key).1 + s.dcz)
            &&& any_dim(k) == target_dim(s, any_dim(key))
            &&& key_rest(k) == key_rest(key)
            &&& is_tagged_key(k)
        }),
{
    lemma_key_dims(key);
    let d = target_dim(s, any_dim(key));
    let field = target_field(d, dim_field(key));
    assert(field == target_field(d, field));
    lemma_front(
        (key_chunk(key).0 + s.dcx) as i32,
        (key_chunk(key).1 + s.dcz) as i32,
        key_rest(key),
        d,
        field,
    );
}

/// A key that is moved within its dimension and back is the same.
pub proof fn law_move_back(key: Seq<u8>, s: Shift)
    requires
        is_tagged_key(key),
        is_shift(s),
        s.dimension is None,
        moved_key(key, s) is Some,
    ensures
        moved_key(
            moved_key(key, s).unwrap(),
            (Shift { dcx: (-s.dcx) as i32, dcz: (-s.dcz) as i32, dimension: None }),
        ) == Some(key),
{
    lemma_key_dims(key);
    let d = any_dim(key);
    let field = target_field(d, dim_field(key));
    lemma_front(
        (key_chunk(key).0 + s.dcx) as i32,
        (key_chunk(key).1 + s.dcz) as i32,
        key_rest(key),
        d,
        field,
    );
    let back = Shift { dcx: (-s.dcx) as i32, dcz: (-s.dcz) as i32, dimension: None };
    let k = moved_key(key, s).unwrap();
    let cx = key_chunk(key).0;
    let cz = key_chunk(key).1;
    let front = key.subrange(0, 8);
    assert(key_chunk(k).0 + back.dcx == cx);
    assert(key_chunk(k).1 + back.dcz == cz);
    lemma_own_front(key);
    assert(moved_key(k, back).unwrap() =~= key);
}

/// A shift over no distance, within the dimension, leaves every key as it is.
pub proof fn law_no_shift(key: Seq<u8>)
    requires
        key.len() >= 9,
    ensures
        moved_key(key, (Shift { dcx: 0, dcz: 0, dimension: None })) == Some(key),
{
    lemma_key_dims(key);
    lemma_own_front(key);
    law_le_i32_bytes_round_trip(key.subrange(0, 4));
    law_le_i32_bytes_round_trip(key.subrange(4, 8));
    assert(le_i32(key, 0) == le_i32(key.subrange(0, 4), 0));
    assert(le_i32(key, 4) == le_i32(key.subrange(4, 8), 0));
}

/// The shift that a document and a target make brings the lowest chunk of the document to the
/// chunk of the target.
pub proof fn law_shift_brings_origin(
    from_x: i32,
    from_z: i32,
    to_x: i32,
    to_z: i32,
    dimension: Option<u8>,
)
    ensures
        ({
            let s = shift_between(
                from_x as int,
                from_z as int,
                to_x as int,
                to_z as int,
                dimension,
            );
            &&& chunk_of(from_x as int) + s.dcx == chunk_of(to_x as int)
            &&& chunk_of(from_z as int) + s.dcz == chunk_of(to_z as int)
        }),
{
}

/// A key is its coordinates, its dimension and what follows.
proof fn lemma_own_front(key: Seq<u8>)
    requires
        key.len() >= 9,
    ensures
        chunk_prefix(key_chunk(key).0 as i32, key_chunk(key).1 as i32) + dim_bytes(
            any_dim(key),
            dim_field(key),
        ) + key_rest(key) == key,
{
    let a = key.subrange(0, 4);
    let b = key.subrange(4, 8);
    law_le_i32_bytes_round_trip(a);
    law_le_i32_bytes_round_trip(b);
    assert(le_i32(key, 0) == le_i32(a, 0));
    assert(le_i32(key, 4) == le_i32(b, 0));
    assert(chunk_prefix(key_chunk(key).0 as i32, key_chunk(key).1 as i32) =~= key.subrange(0, 8));
    let field = dim_field(key);
    let w = field_width(field);
    assert(dim_bytes(any_dim(key), field) =~= key.subrange(8, 8 + w)) by {
        if field == DimField::Long {
            assert(key[8] == any_dim(key) && key[9] == 0 && key[10] == 0 && key[11] == 0);
        }
    }
    assert(key.subrange(0, 8) + key.subrange(8, 8 + w) + key_rest(key) =~= key);
}

/// A chunk that is moved comes into the dimension that was asked for, or stays in its own. Its key
/// keeps the form in which it held a dimension.
pub proof fn law_moved_dimension(key: Seq<u8>, s: Shift)
    requires
        is_tagged_key(key),
        is_shift(s),
        moved_key(key, s) is Some,
    ensures
        ({
            let k = moved_key(key, s).unwrap();
            &&& s.dimension matches Some(d) ==> any_dim(k) == d
            &&& s.dimension is None ==> any_dim(k) == any_dim(key)
            &&& any_dim(k) != 0 && dim_field(key) != DimField::Absent ==> dim_field(k) == dim_field(
                key,
            )
            &&& any_dim(k) != 0 && dim_field(key) == DimField::Absent ==> dim_field(k)
                == DimField::Long
        }),
{
    lemma_key_dims(key);
    let d = target_dim(s, any_dim(key));
    let field = target_field(d, dim_field(key));
    assert(field == target_field(d, field));
    lemma_front(
        (key_chunk(key).0 + s.dcx) as i32,
        (key_chunk(key).1 + s.dcz) as i32,
        key_rest(key),
        d,
        field,
    );
}

/// A key can be moved exactly if its new coordinates can be written in 32 bits.
pub proof fn law_movable(key: Seq<u8>, s: Shift)
    ensures
        moved_key(key, s) is Some <==> -2147483648 <= key_chunk(key).0 + s.dcx <= 2147483647
            && -2147483648 <= key_chunk(key).1 + s.dcz <= 2147483647,
{
}

} // verus!
