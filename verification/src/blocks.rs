//! Blocks: where a block stands, what a sub-chunk holds there, and the block entities beside it.

use crate::bytes::{le_u32, read_u32_le};
use crate::codec::{
    compound_views, is_decoder, read_stream, reads_stream, Decoded,
};
use crate::keys::{chunk_coordinate, chunk_of};
use crate::nbt::{lookup_compound, lookup_int, lookup_text, CompoundTag, CompoundView};
use crate::text::{
    contains_text, decimal_text, law_occurs, occurs_at, occurs_in, push_decimal,
};
use vstd::arithmetic::power2::{lemma2_to64, lemma_pow2_pos, lemma_pow2_strictly_increases, pow2};
use vstd::bits::{
    lemma_u32_low_bits_mask_is_mod, lemma_u32_shl_is_mul, lemma_u32_shr_is_div, low_bits_mask,
};
use vstd::prelude::*;
use vstd::slice::slice_subrange;
use vstd::string::StringExecFns;

verus! {

/// The sub-chunk that holds a block, and the place of the block in it.
#[derive(Clone, Copy, PartialEq, Eq, Structural, Debug)]
pub struct BlockPlace {
    pub cx: i32,
    pub cz: i32,
    pub cy: i8,
    pub lx: usize,
    pub ly: i64,
    pub lz: usize,
}

/// The number with a sign that 8 bits of a number represent.
pub open spec fn wrapped_8(v: int) -> int {
    (v + 128) % 256 - 128
}

/// The place of the block at given coordinates.
pub open spec fn block_place(x: int, y: int, z: int) -> BlockPlace {
    let cy = wrapped_8(chunk_of(y));
    BlockPlace {
        cx: chunk_of(x) as i32,
        cz: chunk_of(z) as i32,
        cy: cy as i8,
        lx: (x % 16) as usize,
        ly: (y - 16 * cy) as i64,
        lz: (z % 16) as usize,
    }
}

/// The place of the block at given coordinates. Sub-chunks are numbered with 8 bits, which
/// covers every height of a world.
pub fn locate(x: i32, y: i32, z: i32) -> (r: BlockPlace)
    ensures
        r == block_place(x as int, y as int, z as int),
        r.lx < 16,
        r.lz < 16,
        16 * r.cx + r.lx == x,
        16 * r.cy + r.ly == y,
        16 * r.cz + r.lz == z,
        -2048 <= y < 2048 ==> 0 <= r.ly < 16,
{
    let cx: i32 = chunk_coordinate(x);
    let cz: i32 = chunk_coordinate(z);
    let row: i32 = chunk_coordinate(y);
    let low: i32 = (row + 0x800_0080) % 256;
    let cy: i8 = (low - 128) as i8;
    assert((row + 0x800_0080) % 256 == (row + 128) % 256);
    BlockPlace {
        cx,
        cz,
        cy,
        lx: (x - cx * 16) as usize,
        ly: y as i64 - cy as i64 * 16,
        lz: (z - cz * 16) as usize,
    }
}

/// The number of bits that a block takes in a storage: the upper seven bits of its first byte.
pub open spec fn bits_per_block(data: Seq<u8>) -> int {
    data[0] as int / 2
}

/// How many blocks share a word. No block is split between words.
pub open spec fn blocks_per_word(data: Seq<u8>) -> int {
    32int / bits_per_block(data)
}

/// The number of words of a storage: enough for the 4096 blocks of a sub-chunk.
pub open spec fn word_count(data: Seq<u8>) -> int {
    (4096 + blocks_per_word(data) - 1) / blocks_per_word(data)
}

/// Where the palette begins: behind the words and the number of its entries.
pub open spec fn palette_start(data: Seq<u8>) -> int {
    1 + 4 * word_count(data) + 4
}

/// The number of entries that the palette should have.
pub open spec fn palette_size(data: Seq<u8>) -> int {
    le_u32(data, 1 + 4 * word_count(data))
}

/// Whether a storage has a width that can be read and is long enough for its words.
pub open spec fn is_storage(data: Seq<u8>) -> bool {
    &&& data.len() > 0
    &&& 1 <= bits_per_block(data) <= 16
    &&& palette_start(data) <= data.len()
}

/// The number of a block in its sub-chunk.
pub open spec fn block_number(lx: int, ly: int, lz: int) -> int {
    ly + 16 * lz + 256 * lx
}

/// The palette entry of a block: the bits of the block in its word. It is 0 where there is no
/// palette or the block lies outside of the words.
pub open spec fn palette_index(data: Seq<u8>, entries: int, block: int) -> int {
    let word = block / blocks_per_word(data);
    let place = block % blocks_per_word(data);
    if entries == 0 || block < 0 || word >= word_count(data) {
        0
    } else {
        (le_u32(data, 1 + 4 * word) / pow2((place * bits_per_block(data)) as nat) as int) % pow2(
            bits_per_block(data) as nat,
        ) as int
    }
}

/// What a palette entry holds.
pub struct PaletteView {
    pub name: Seq<char>,
    pub states: CompoundView,
}

/// One kind of block in a palette.
pub struct PaletteEntry {
    pub name: String,
    pub states: CompoundTag,
}

impl View for PaletteEntry {
    type V = PaletteView;

    open spec fn view(&self) -> PaletteView {
        PaletteView { name: self.name@, states: self.states@ }
    }
}

/// What a block lookup found.
pub struct BlockView {
    pub name: Seq<char>,
    pub states: CompoundView,
    pub palette: Seq<PaletteView>,
}

/// A block with its states, and the palette of its sub-chunk.
pub struct BlockInfo {
    pub name: String,
    pub states: CompoundTag,
    pub palette: Vec<PaletteEntry>,
}

impl View for BlockInfo {
    type V = BlockView;

    open spec fn view(&self) -> BlockView {
        BlockView {
            name: self.name@,
            states: self.states@,
            palette: self.palette@.map_values(|p: PaletteEntry| p@),
        }
    }
}

/// The palette entry that a compound describes.
pub open spec fn palette_entry(tag: CompoundView) -> PaletteView {
    PaletteView {
        name: match lookup_text(tag, "name"@) {
            Some(s) => s,
            None => "unknown"@,
        },
        states: match lookup_compound(tag, "states"@) {
            Some(c) => c,
            None => CompoundView::empty(),
        },
    }
}

/// The palette that compounds describe.
pub open spec fn palette_of(tags: Seq<CompoundView>) -> Seq<PaletteView> {
    tags.map_values(|t: CompoundView| palette_entry(t))
}

/// The name given to a palette entry that is not there.
pub open spec fn missing_name(index: int) -> Seq<char> {
    "<<idx_"@ + decimal_text(index) + ">>"@
}

/// The block with a number in a storage whose palette holds the given compounds.
pub open spec fn stored_block(data: Seq<u8>, tags: Seq<CompoundView>, block: int) -> BlockView {
    let palette = palette_of(tags);
    let index = palette_index(data, palette.len() as int, block);
    BlockView {
        name: if index < palette.len() {
            palette[index].name
        } else {
            missing_name(index)
        },
        states: if index < palette.len() {
            palette[index].states
        } else {
            CompoundView::empty()
        },
        palette,
    }
}

proof fn lemma_word_bounds(data: Seq<u8>)
    requires
        data.len() > 0,
        1 <= bits_per_block(data) <= 16,
    ensures
        2 <= blocks_per_word(data) <= 32,
        blocks_per_word(data) * bits_per_block(data) <= 32,
        128 <= word_count(data) <= 2048,
{
    let b = bits_per_block(data);
    let n = blocks_per_word(data);
    assert(2 <= n <= 32 && n * b <= 32) by (nonlinear_arith)
        requires
            1 <= b <= 16,
            n == 32int / b,
    ;
    assert(128 <= (4096 + n - 1) / n <= 2048) by (nonlinear_arith)
        requires
            2 <= n <= 32,
    ;
}

fn read_palette_index(data: &[u8], entries: usize, lx: usize, ly: i64, lz: usize) -> (r: usize)
    requires
        is_storage(data@),
    ensures
        r == palette_index(data@, entries as int, block_number(lx as int, ly as int, lz as int)),
        r < 0x1_0000,
{
    proof {
        lemma_word_bounds(data@);
    }
    let bpb: u32 = (data[0] / 2) as u32;
    let per_word: u32 = 32 / bpb;
    let words: u32 = (4096 + per_word - 1) / per_word;
    let block: i128 = ly as i128 + 16 * (lz as i128) + 256 * (lx as i128);
    if entries == 0 || block < 0 {
        return 0;
    }
    let word: i128 = block / per_word as i128;
    let place: u32 = (block % per_word as i128) as u32;
    if word >= words as i128 {
        return 0;
    }
    let at: usize = word as usize;
    let bits: u32 = read_u32_le(data, 1 + 4 * at);
    assert(place * bpb < 32) by (nonlinear_arith)
        requires
            0 <= place <= per_word - 1,
            per_word * bpb <= 32,
            1 <= bpb,
    ;
    let off: u32 = place * bpb;
    proof {
        lemma2_to64();
        lemma_pow2_strictly_increases(bpb as nat, 17);
        lemma_pow2_pos(bpb as nat);
        lemma_u32_shl_is_mul(1, bpb);
    }
    let mask: u32 = (1u32 << bpb) - 1;
    let r: u32 = (bits >> off) & mask;
    proof {
        lemma_u32_shr_is_div(bits, off);
        lemma_u32_low_bits_mask_is_mod(bits >> off, bpb as nat);
        assert(mask == low_bits_mask(bpb as nat));
    }
    r as usize
}

/// The palette entry that a compound describes.
fn describe(tag: &CompoundTag) -> (r: PaletteEntry)
    ensures
        r@ == palette_entry(tag@),
{
    let name: &str = match tag.get_text("name") {
        Some(s) => s,
        None => "unknown",
    };
    let states = match tag.get_compound("states") {
        Some(c) => c.clone(),
        None => CompoundTag::new(),
    };
    PaletteEntry { name: name.to_owned(), states }
}

impl Clone for PaletteEntry {
    fn clone(&self) -> (r: PaletteEntry)
        ensures
            r@ == self@,
    {
        PaletteEntry { name: self.name.clone(), states: self.states.clone() }
    }
}

/// The block at a place in a storage whose palette holds the given compounds.
pub fn block_in_storage(
    data: &[u8],
    tags: &Vec<CompoundTag>,
    lx: usize,
    ly: i64,
    lz: usize,
) -> (r: BlockInfo)
    requires
        is_storage(data@),
    ensures
        r@ == stored_block(
            data@,
            compound_views(tags@),
            block_number(lx as int, ly as int, lz as int),
        ),
{
    let ghost views = compound_views(tags@);
    let mut palette: Vec<PaletteEntry> = Vec::new();
    for i in 0..tags.len()
        invariant
            palette@.len() == i,
            views == compound_views(tags@),
            forall|k: int| 0 <= k < i ==> (#[trigger] palette@[k])@ == palette_entry(views[k]),
    {
        palette.push(describe(&tags[i]));
    }
    assert(palette@.map_values(|p: PaletteEntry| p@) =~= palette_of(views));
    let index: usize = read_palette_index(data, palette.len(), lx, ly, lz);
    if index < palette.len() {
        let found = palette[index].clone();
        BlockInfo { name: found.name, states: found.states, palette }
    } else {
        let mut name: String = "<<idx_".to_owned();
        push_decimal(&mut name, index as i64);
        name.append(">>");
        BlockInfo { name, states: CompoundTag::new(), palette }
    }
}

/// Reads the block at a place from a block storage. There is none where the storage has a width
/// that cannot be read or is too short for its words. The palette holds what the decoder reads,
/// up to the number of its entries.
pub fn parse_block_storage<F: Fn(&[u8]) -> Option<Decoded>>(
    data: &[u8],
    lx: usize,
    ly: i64,
    lz: usize,
    decode: &F,
) -> (r: Option<BlockInfo>)
    requires
        is_decoder(*decode),
    ensures
        match r {
            Some(info) => is_storage(data@) && exists|tags: Seq<CompoundView>|
                #![trigger stored_block(data@, tags, block_number(lx as int, ly as int, lz as int))]
                {
                    &&& reads_stream(
                        *decode,
                        data@.skip(palette_start(data@)),
                        palette_size(data@) as nat,
                        tags,
                    )
                    &&& info@ == stored_block(
                        data@,
                        tags,
                        block_number(lx as int, ly as int, lz as int),
                    )
                },
            None => !is_storage(data@),
        },
{
    if data.len() == 0 {
        return None;
    }
    let bpb: usize = (data[0] / 2) as usize;
    if bpb == 0 || bpb > 16 {
        return None;
    }
    proof {
        lemma_word_bounds(data@);
    }
    let per_word: usize = 32 / bpb;
    let words: usize = (4096 + per_word - 1) / per_word;
    let start: usize = 1 + 4 * words + 4;
    if data.len() < start {
        return None;
    }
    let count: u32 = read_u32_le(data, 1 + 4 * words);
    let rest = slice_subrange(data, start, data.len());
    assert(rest@ =~= data@.skip(palette_start(data@)));
    let tags = read_stream(decode, rest, count as usize);
    Some(block_in_storage(data, &tags, lx, ly, lz))
}

/// Where the first storage of a sub-chunk begins: behind the version and the number of storages,
/// and since version 9 the height.
pub open spec fn storage_start(data: Seq<u8>) -> int {
    if data[0] >= 9 {
        3
    } else {
        2
    }
}

/// The first storage of a sub-chunk, where there is one.
pub open spec fn first_storage(data: Seq<u8>) -> Option<Seq<u8>> {
    if data.len() >= 2 && data[1] != 0 && storage_start(data) < data.len() {
        Some(data.skip(storage_start(data)))
    } else {
        None
    }
}

/// Reads the block at a place from a sub-chunk: from its first storage.
pub fn get_block_from_subchunk<F: Fn(&[u8]) -> Option<Decoded>>(
    data: &[u8],
    lx: usize,
    ly: i64,
    lz: usize,
    decode: &F,
) -> (r: Option<BlockInfo>)
    requires
        is_decoder(*decode),
    ensures
        match r {
            Some(info) => first_storage(data@) matches Some(s) && is_storage(s) && exists|
                tags: Seq<CompoundView>,
            |
                #![trigger stored_block(s, tags, block_number(lx as int, ly as int, lz as int))]
                {
                    &&& reads_stream(*decode, s.skip(palette_start(s)), palette_size(s) as nat, tags)
                    &&& info@ == stored_block(
                        s,
                        tags,
                        block_number(lx as int, ly as int, lz as int),
                    )
                },
            None => first_storage(data@) matches Some(s) ==> !is_storage(s),
        },
{
    if data.len() < 2 || data[1] == 0 {
        return None;
    }
    let start: usize = if data[0] >= 9 {
        3
    } else {
        2
    };
    if start >= data.len() {
        return None;
    }
    let storage = slice_subrange(data, start, data.len());
    assert(storage@ =~= data@.skip(storage_start(data@)));
    parse_block_storage(storage, lx, ly, lz, decode)
}

/// Whether a block entity stands at given coordinates.
pub open spec fn stands_at(tag: CompoundView, x: i32, y: i32, z: i32) -> bool {
    &&& lookup_int(tag, "x"@) == Some(x)
    &&& lookup_int(tag, "y"@) == Some(y)
    &&& lookup_int(tag, "z"@) == Some(z)
}

/// The first of the block entities that stands at given coordinates.
pub open spec fn first_at(tags: Seq<CompoundView>, x: i32, y: i32, z: i32) -> Option<CompoundView>
    decreases tags.len(),
{
    if tags.len() == 0 {
        None
    } else if stands_at(tags[0], x, y, z) {
        Some(tags[0])
    } else {
        first_at(tags.skip(1), x, y, z)
    }
}

/// The first of the block entities that stands at given coordinates.
pub fn block_entity_at(tags: &Vec<CompoundTag>, x: i32, y: i32, z: i32) -> (r: Option<CompoundTag>)
    ensures
        match r {
            Some(t) => first_at(compound_views(tags@), x, y, z) == Some(t@),
            None => first_at(compound_views(tags@), x, y, z) is None,
        },
{
    let ghost views = compound_views(tags@);
    assert(views.skip(0) =~= views);
    for i in 0..tags.len()
        invariant
            views == compound_views(tags@),
            first_at(views, x, y, z) == first_at(views.skip(i as int), x, y, z),
    {
        let tag = &tags[i];
        assert(views.skip(i as int)[0] == tag@);
        assert(views.skip(i as int).skip(1) =~= views.skip(i + 1));
        if tag.get_int("x") == Some(x) && tag.get_int("y") == Some(y) && tag.get_int("z")
            == Some(z) {
            return Some(tag.clone());
        }
    }
    None
}

/// The block entity at given coordinates, among those that stand one after the other in the
/// data of a chunk.
pub fn find_block_entity<F: Fn(&[u8]) -> Option<Decoded>>(
    data: &[u8],
    x: i32,
    y: i32,
    z: i32,
    decode: &F,
) -> (r: Option<CompoundTag>)
    requires
        is_decoder(*decode),
    ensures
        exists|tags: Seq<CompoundView>|
            {
                &&& #[trigger] reads_stream(*decode, data@, data@.len(), tags)
                &&& match r {
                    Some(t) => first_at(tags, x, y, z) == Some(t@),
                    None => first_at(tags, x, y, z) is None,
                }
            },
        r matches Some(t) ==> lookup_int(t@, "x"@) == Some(x) && lookup_int(t@, "y"@) == Some(y)
            && lookup_int(t@, "z"@) == Some(z),
{
    let tags = read_stream(decode, data, data.len());
    proof {
        law_block_entity_found(compound_views(tags@), x, y, z);
    }
    block_entity_at(&tags, x, y, z)
}

/// Whether a block of a name has a content of its own.
pub open spec fn is_container_name(name: Seq<char>) -> bool {
    ||| occurs_in(name, "chest"@)
    ||| occurs_in(name, "barrel"@)
    ||| occurs_in(name, "shulker"@)
    ||| occurs_in(name, "hopper"@)
    ||| occurs_in(name, "dispenser"@)
    ||| occurs_in(name, "Dropper"@)
}

/// Whether a block of a name has a content of its own.
pub fn is_container(name: &str) -> (r: bool)
    ensures
        r == is_container_name(name@),
{
    contains_text(name, "chest") || contains_text(name, "barrel") || contains_text(name, "shulker")
        || contains_text(name, "hopper") || contains_text(name, "dispenser") || contains_text(
        name,
        "Dropper",
    )
}

/// The block entity that is found stands at the coordinates that were asked for, in all three
/// axes, and is the first that does. There is one wherever a block entity stands there.
pub proof fn law_block_entity_found(tags: Seq<CompoundView>, x: i32, y: i32, z: i32)
    ensures
        match first_at(tags, x, y, z) {
            Some(t) => {
                &&& lookup_int(t, "x"@) == Some(x)
                &&& lookup_int(t, "y"@) == Some(y)
                &&& lookup_int(t, "z"@) == Some(z)
                &&& exists|i: int|
                    0 <= i < tags.len() && #[trigger] tags[i] == t && forall|j: int|
                        0 <= j < i ==> lookup_int(#[trigger] tags[j], "x"@) != Some(x)
                            || lookup_int(tags[j], "y"@) != Some(y) || lookup_int(tags[j], "z"@)
                            != Some(z)
            },
            None => forall|j: int|
                0 <= j < tags.len() ==> lookup_int(#[trigger] tags[j], "x"@) != Some(x)
                    || lookup_int(tags[j], "y"@) != Some(y) || lookup_int(tags[j], "z"@) != Some(z),
        },
    decreases tags.len(),
{
    if tags.len() > 0 {
        let rest = tags.skip(1);
        law_block_entity_found(rest, x, y, z);
        assert(forall|j: int| 0 < j < tags.len() ==> #[trigger] tags[j] == rest[j - 1]);
        let here = lookup_int(tags[0], "x"@) == Some(x) && lookup_int(tags[0], "y"@) == Some(y)
            && lookup_int(tags[0], "z"@) == Some(z);
        if here {
            assert(first_at(tags, x, y, z) == Some(tags[0]));
        } else {
            assert(first_at(tags, x, y, z) == first_at(rest, x, y, z));
            if let Some(t) = first_at(rest, x, y, z) {
                let i = choose|i: int|
                    0 <= i < rest.len() && #[trigger] rest[i] == t && forall|j: int|
                        0 <= j < i ==> lookup_int(#[trigger] rest[j], "x"@) != Some(x)
                            || lookup_int(rest[j], "y"@) != Some(y) || lookup_int(rest[j], "z"@)
                            != Some(z);
                assert(tags[i + 1] == t);
            }
        }
    }
}

/// In a storage the blocks of a column stand side by side. A step to the next column along z is 16
/// blocks wide, and one along x is 256.
pub proof fn law_block_steps(lx: int, ly: int, lz: int)
    ensures
        block_number(0, 0, 0) == 0,
        block_number(lx, ly + 1, lz) == block_number(lx, ly, lz) + 1,
        block_number(lx, ly, lz + 1) == block_number(lx, ly, lz) + 16,
        block_number(lx + 1, ly, lz) == block_number(lx, ly, lz) + 256,
{
}

/// Every place of a sub-chunk has a number of its own below 4096.
pub proof fn law_places_have_numbers(x: int, y: int, z: int, u: int, v: int, w: int)
    requires
        0 <= x < 16,
        0 <= y < 16,
        0 <= z < 16,
        0 <= u < 16,
        0 <= v < 16,
        0 <= w < 16,
    ensures
        0 <= block_number(x, y, z) < 4096,
        block_number(x, y, z) == block_number(u, v, w) ==> x == u && y == v && z == w,
{
}

/// The words of a storage are just enough for 4096 blocks of its width, and so many blocks share a
/// word as fit in 32 bits. Behind the words the number of palette entries takes four bytes, lowest
/// first, and the palette follows.
pub proof fn law_storage_layout(data: Seq<u8>)
    requires
        is_storage(data),
    ensures
        ({
            let bits = data[0] as int / 2;
            let p = palette_start(data);
            let words = (p - 5) / 4;
            let shared = blocks_per_word(data);
            &&& 1 <= bits <= 16
            &&& shared * bits <= 32 < (shared + 1) * bits
            &&& p == 5 + 4 * words
            &&& (words - 1) * shared < 4096 <= words * shared
            &&& p <= data.len()
            &&& palette_size(data) == data[p - 4] + 256 * data[p - 3] + 65536 * data[p - 2]
                + 16777216 * data[p - 1]
        }),
{
    lemma_word_bounds(data);
    let bits = bits_per_block(data);
    let shared = blocks_per_word(data);
    let words = word_count(data);
    assert(32 < (shared + 1) * bits) by (nonlinear_arith)
        requires
            1 <= bits,
            shared == 32int / bits,
    ;
    assert((words - 1) * shared < 4096 <= words * shared) by (nonlinear_arith)
        requires
            2 <= shared,
            words == (4096 + shared - 1) / shared,
    ;
}

/// The block that is found at a place is the one whose bits stand there: where the word of block
/// `ly + 16 * lz + 256 * lx` holds `v` behind the bits of the blocks that come before it, it is the
/// palette entry `v`, with its name and its states.
pub proof fn law_block_is_read(
    data: Seq<u8>,
    tags: Seq<CompoundView>,
    lx: int,
    ly: int,
    lz: int,
    low: int,
    v: int,
    high: int,
)
    requires
        is_storage(data),
        0 <= lx < 16,
        0 <= ly < 16,
        0 <= lz < 16,
        0 <= v < tags.len(),
        ({
            let bits = data[0] as int / 2;
            let shared = 32int / bits;
            let n = ly + 16 * lz + 256 * lx;
            let at = 1 + 4 * (n / shared);
            let behind = pow2((bits * (n % shared)) as nat) as int;
            &&& 0 <= low < behind
            &&& 0 <= v < pow2(bits as nat)
            &&& 0 <= high
            &&& data[at] + 256 * data[at + 1] + 65536 * data[at + 2] + 16777216 * data[at + 3]
                == low + behind * (v + pow2(bits as nat) * high)
        }),
    ensures
        ({
            let b = stored_block(data, tags, block_number(lx, ly, lz));
            &&& lookup_text(tags[v], "name"@) matches Some(s) ==> b.name == s
            &&& lookup_text(tags[v], "name"@) is None ==> b.name == "unknown"@
            &&& lookup_compound(tags[v], "states"@) matches Some(c) ==> b.states == c
            &&& lookup_compound(tags[v], "states"@) is None ==> b.states == CompoundView::empty()
            &&& b.palette.len() == tags.len()
        }),
{
    lemma_word_bounds(data);
    let bits = bits_per_block(data);
    let shared = blocks_per_word(data);
    let n = ly + 16 * lz + 256 * lx;
    let place = n % shared;
    assert(0 <= place < shared && n / shared < word_count(data)) by (nonlinear_arith)
        requires
            2 <= shared,
            0 <= n < 4096,
            place == n % shared,
            word_count(data) == (4096 + shared - 1) / shared,
    ;
    assert(place * bits == bits * place) by (nonlinear_arith);
    assert(0 <= place * bits) by (nonlinear_arith)
        requires
            0 <= place,
            1 <= bits,
    ;
    let behind = pow2((place * bits) as nat) as int;
    let span = pow2(bits as nat) as int;
    lemma_pow2_pos((place * bits) as nat);
    lemma_pow2_pos(bits as nat);
    let at = 1 + 4 * (n / shared);
    assert(le_u32(data, at) == low + behind * (v + span * high));
    assert(le_u32(data, at) / behind == v + span * high) by (nonlinear_arith)
        requires
            le_u32(data, at) == low + behind * (v + span * high),
            0 <= low < behind,
    ;
    assert((v + span * high) % span == v) by (nonlinear_arith)
        requires
            0 <= v < span,
            0 <= high,
    ;
    assert(palette_index(data, tags.len() as int, n) == v);
    assert(palette_of(tags)[v] == palette_entry(tags[v]));
}

/// The first storage of a sub-chunk follows the version and the number of storages, and since
/// version 9 the height.
pub proof fn law_storage_follows_header(version: u8, count: u8, height: u8, storage: Seq<u8>)
    requires
        storage.len() > 0,
        count > 0,
    ensures
        version < 9 ==> first_storage(seq![version, count] + storage) == Some(storage),
        version >= 9 ==> first_storage(seq![version, count, height] + storage) == Some(storage),
        first_storage(seq![version, 0u8, height] + storage) is None,
{
    assert((seq![version, count] + storage).skip(2) =~= storage);
    assert((seq![version, count, height] + storage).skip(3) =~= storage);
}

/// A container is a block in whose name one of six words stands anywhere, and no other.
pub proof fn law_containers(name: Seq<char>, front: Seq<char>, back: Seq<char>)
    ensures
        is_container_name(front + "chest"@ + back),
        is_container_name(front + "barrel"@ + back),
        is_container_name(front + "shulker"@ + back),
        is_container_name(front + "hopper"@ + back),
        is_container_name(front + "dispenser"@ + back),
        is_container_name(front + "Dropper"@ + back),
        is_container_name(name) ==> exists|word: Seq<char>, a: Seq<char>, b: Seq<char>|
            (word == "chest"@ || word == "barrel"@ || word == "shulker"@ || word == "hopper"@ || word
                == "dispenser"@ || word == "Dropper"@) && name == #[trigger] (a + word + b),
{
    law_occurs(name, "chest"@, front, back);
    law_occurs(name, "barrel"@, front, back);
    law_occurs(name, "shulker"@, front, back);
    law_occurs(name, "hopper"@, front, back);
    law_occurs(name, "dispenser"@, front, back);
    law_occurs(name, "Dropper"@, front, back);
    if is_container_name(name) {
        let (word, i) = choose|word: Seq<char>, i: int|
            (word == "chest"@ || word == "barrel"@ || word == "shulker"@ || word == "hopper"@ || word
                == "dispenser"@ || word == "Dropper"@) && #[trigger] occurs_at(name, word, i);
        let a = name.take(i);
        let b = name.skip(i + word.len());
        assert(name =~= a + name.subrange(i, i + word.len()) + b);
        assert(name == a + word + b);
    }
}

/// A storage can be read wherever its blocks take from 1 to 16 bits and its words and the number of
/// its palette entries are all there.
pub proof fn law_storage_is_read(data: Seq<u8>, bits: int, shared: int, words: int)
    requires
        data.len() > 0,
        1 <= bits <= 16,
        data[0] == 2 * bits || data[0] == 2 * bits + 1,
        shared * bits <= 32 < (shared + 1) * bits,
        (words - 1) * shared < 4096 <= words * shared,
    ensures
        is_storage(data) <==> data.len() >= 5 + 4 * words,
{
    assert(bits_per_block(data) == bits);
    assert(shared == 32int / bits) by (nonlinear_arith)
        requires
            1 <= bits <= 16,
            shared * bits <= 32 < (shared + 1) * bits,
    ;
    assert(2 <= shared) by (nonlinear_arith)
        requires
            1 <= bits <= 16,
            32 < (shared + 1) * bits,
    ;
    assert(words == (4096 + shared - 1) / shared) by (nonlinear_arith)
        requires
            2 <= shared,
            (words - 1) * shared < 4096 <= words * shared,
    ;
}

/// A block whose palette entry is not there is named by the number of the entry, and has no states.
pub proof fn law_missing_entry(data: Seq<u8>, tags: Seq<CompoundView>, block: int)
    requires
        palette_index(data, tags.len() as int, block) >= tags.len(),
    ensures
        ({
            let b = stored_block(data, tags, block);
            let index = palette_index(data, tags.len() as int, block);
            &&& b.name == "<<idx_"@ + decimal_text(index) + ">>"@
            &&& b.states == CompoundView::empty()
        }),
{
}

/// The palette that is shown with a block names every entry, in order.
pub proof fn law_palette_is_shown(data: Seq<u8>, tags: Seq<CompoundView>, block: int, i: int)
    requires
        0 <= i < tags.len(),
    ensures
        ({
            let p = stored_block(data, tags, block).palette;
            &&& p.len() == tags.len()
            &&& lookup_text(tags[i], "name"@) matches Some(s) ==> p[i].name == s
            &&& lookup_compound(tags[i], "states"@) matches Some(c) ==> p[i].states == c
        }),
{
}

/// A block stands in the sub-chunk of its chunk and its height, at the place that is left over.
pub proof fn law_block_place(x: i32, y: i32, z: i32)
    requires
        -2048 <= y < 2048,
    ensures
        ({
            let p = block_place(x as int, y as int, z as int);
            &&& 16 * p.cx + p.lx == x && p.lx < 16
            &&& 16 * p.cy + p.ly == y && 0 <= p.ly < 16
            &&& 16 * p.cz + p.lz == z && p.lz < 16
        }),
{
}

/// A block outside of the words of a storage, or in one without a palette, has the first entry.
pub proof fn law_block_outside(data: Seq<u8>, tags: Seq<CompoundView>, block: int)
    requires
        is_storage(data),
        block < 0 || tags.len() == 0 || block >= blocks_per_word(data) * word_count(data),
    ensures
        tags.len() == 0 ==> stored_block(data, tags, block).name == "<<idx_"@ + decimal_text(0) + ">>"@,
        tags.len() > 0 && lookup_text(tags[0], "name"@) is Some ==> Some(
            stored_block(data, tags, block).name,
        ) == lookup_text(tags[0], "name"@),
{
    lemma_word_bounds(data);
    let shared = blocks_per_word(data);
    let words = word_count(data);
    if block >= shared * words {
        assert(block / shared >= words) by (nonlinear_arith)
            requires
                shared >= 2,
                block >= shared * words,
        ;
    }
    assert(palette_index(data, tags.len() as int, block) == 0);
}

} // verus!
