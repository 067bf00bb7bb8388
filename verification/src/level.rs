//! The file that describes a world.

use crate::bytes::{law_le_i32_round_trip, le_i32, le_i32_bytes, read_i32_le};
use crate::codec::{decode_one, decodes, is_decoder, Decoded};
use crate::lines::{words, Line, LineView};
use crate::nbt::{lookup_text, CompoundTag, CompoundView};
use vstd::prelude::*;
use vstd::slice::slice_subrange;

verus! {

/// Why a world file cannot be read.
#[derive(Clone, Copy, PartialEq, Eq, Structural, Debug)]
pub enum LevelError {
    /// It is too short for its header.
    TooShort,
    /// It gives itself a length that ends before its data begins.
    Length(i32),
    /// Its data cannot be decoded.
    Undecodable,
}

/// The data of a world file: so many bytes behind the header as it says, or all where there are
/// fewer. A length below any that a header could mean stands for all as well.
pub open spec fn level_data(raw: Seq<u8>) -> Result<Seq<u8>, LevelError> {
    if raw.len() < 8 {
        Err(LevelError::TooShort)
    } else {
        let size = le_i32(raw, 4);
        if -8 <= size < 0 {
            Err(LevelError::Length(size as i32))
        } else if size < 0 || 8 + size > raw.len() {
            Ok(raw.skip(8))
        } else {
            Ok(raw.subrange(8, 8 + size))
        }
    }
}

/// The data of a world file.
pub fn level_payload(raw: &[u8]) -> (r: Result<&[u8], LevelError>)
    ensures
        match r {
            Ok(d) => level_data(raw@) == Ok::<Seq<u8>, LevelError>(d@),
            Err(e) => level_data(raw@) == Err::<Seq<u8>, LevelError>(e),
        },
{
    if raw.len() < 8 {
        return Err(LevelError::TooShort);
    }
    let size: i32 = read_i32_le(raw, 4);
    if -8 <= size && size < 0 {
        return Err(LevelError::Length(size));
    }
    if size < 0 || size as usize > raw.len() - 8 {
        let data = slice_subrange(raw, 8, raw.len());
        assert(data@ =~= raw@.skip(8));
        return Ok(data);
    }
    Ok(slice_subrange(raw, 8, 8 + size as usize))
}

/// Reads a world file.
pub fn read_level<F: Fn(&[u8]) -> Option<Decoded>>(raw: &[u8], decode: &F) -> (r: Result<
    CompoundTag,
    LevelError,
>)
    requires
        is_decoder(*decode),
    ensures
        match level_data(raw@) {
            Ok(d) => match r {
                Ok(t) => decodes(*decode, d, Some(t@)),
                Err(e) => e == LevelError::Undecodable && decodes(*decode, d, None),
            },
            Err(e) => r == Err::<CompoundTag, LevelError>(e),
        },
{
    let data = match level_payload(raw) {
        Ok(d) => d,
        Err(e) => {
            return Err(e);
        },
    };
    match decode_one(decode, data) {
        Some(t) => Ok(t),
        None => Err(LevelError::Undecodable),
    }
}

/// A text, or a word that says that it is not known.
pub open spec fn or_unknown(text: Option<Seq<char>>) -> Seq<char> {
    match text {
        Some(s) => s,
        None => "(unknown)"@,
    }
}

/// The line that names a world.
pub open spec fn world_line(level: CompoundView) -> LineView {
    seq![
        words("  World: "@),
        words(or_unknown(lookup_text(level, "LevelName"@))),
        words("  (v"@),
        words(or_unknown(lookup_text(level, "InventoryVersion"@))),
        words(")"@),
    ]
}

/// The line that names a world.
pub fn describe_world(level: &CompoundTag) -> (r: Line)
    ensures
        r@ == world_line(level@),
{
    let name: &str = match level.get_text("LevelName") {
        Some(s) => s,
        None => "(unknown)",
    };
    let version: &str = match level.get_text("InventoryVersion") {
        Some(s) => s,
        None => "(unknown)",
    };
    let line = Line::new().text("  World: ").text(name).text("  (v").text(version).text(")");
    assert(line@ =~= world_line(level@));
    line
}

/// The data of a world file stands behind a header of eight bytes, of which the last four are its
/// length. What follows the data is left out.
pub proof fn law_level_data(version: Seq<u8>, data: Seq<u8>, rest: Seq<u8>)
    requires
        version.len() == 4,
        data.len() <= i32::MAX,
    ensures
        level_data(version + le_i32_bytes(data.len() as i32) + data + rest) == Ok::<
            Seq<u8>,
            LevelError,
        >(data),
{
    let size = le_i32_bytes(data.len() as i32);
    let raw = version + size + data + rest;
    law_le_i32_round_trip(data.len() as i32);
    assert(raw[4] == size[0] && raw[5] == size[1] && raw[6] == size[2] && raw[7] == size[3]);
    assert(le_i32(raw, 4) == le_i32(size, 0));
    assert(raw.subrange(8, (8 + data.len()) as int) =~= data);
}

/// A world file that is cut short within its data gives what is left of the data.
pub proof fn law_short_level_data(version: Seq<u8>, length: i32, data: Seq<u8>)
    requires
        version.len() == 4,
        data.len() < length,
    ensures
        level_data(version + le_i32_bytes(length) + data) == Ok::<Seq<u8>, LevelError>(data),
{
    let size = le_i32_bytes(length);
    let raw = version + size + data;
    law_le_i32_round_trip(length);
    assert(raw[4] == size[0] && raw[5] == size[1] && raw[6] == size[2] && raw[7] == size[3]);
    assert(le_i32(raw, 4) == le_i32(size, 0));
    assert(raw.skip(8) =~= data);
}

/// The line of a world names it by its `LevelName`, and then its `InventoryVersion`.
pub proof fn law_world_line(level: CompoundView, name: Seq<char>, version: Seq<char>)
    requires
        lookup_text(level, "LevelName"@) == Some(name),
        lookup_text(level, "InventoryVersion"@) == Some(version),
    ensures
        world_line(level) == seq![
            words("  World: "@),
            words(name),
            words("  (v"@),
            words(version),
            words(")"@),
        ],
{
}

/// A world file of less than eight bytes is too short, and one whose length ends before its data
/// begins is refused with the length.
pub proof fn law_level_errors(raw: Seq<u8>, version: Seq<u8>, length: i32, data: Seq<u8>)
    requires
        version.len() == 4,
        -8 <= length < 0,
    ensures
        raw.len() < 8 ==> level_data(raw) == Err::<Seq<u8>, LevelError>(LevelError::TooShort),
        level_data(version + le_i32_bytes(length) + data) == Err::<Seq<u8>, LevelError>(
            LevelError::Length(length),
        ),
{
    let size = le_i32_bytes(length);
    let file = version + size + data;
    law_le_i32_round_trip(length);
    assert(file[4] == size[0] && file[5] == size[1] && file[6] == size[2] && file[7] == size[3]);
    assert(le_i32(file, 4) == le_i32(size, 0));
}

} // verus!
