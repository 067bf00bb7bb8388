//! The binary NBT codec as the library sees it: functions handed over by the caller.
//!
//! A decoder reads one compound from the front of a byte string. An encoder writes one compound.
//! What the library derives from their results is stated for whatever they return.

use crate::nbt::{CompoundTag, CompoundView};
use vstd::prelude::*;
use vstd::slice::slice_subrange;

verus! {

/// One compound read from the front of a byte string, and how many bytes it took.
pub struct Decoded {
    pub tag: CompoundTag,
    pub consumed: usize,
}

/// What a decoder returned.
pub open spec fn decoded_view(r: Option<Decoded>) -> Option<(CompoundView, int)> {
    match r {
        Some(d) => Some((d.tag@, d.consumed as int)),
        None => None,
    }
}

/// Whether a decoder can be called on every byte string, and never claims to have read more
/// bytes than it was given.
pub open spec fn is_decoder<F: Fn(&[u8]) -> Option<Decoded>>(decode: F) -> bool {
    &&& forall|s: &[u8]| call_requires(decode, (s,))
    &&& forall|s: &[u8], r: Option<Decoded>|
        #[trigger] call_ensures(decode, (s,), r) ==> (r matches Some(d) ==> d.consumed
            <= s@.len())
}

/// Whether a decoder can return a result on a byte string.
pub open spec fn decodes_to<F: Fn(&[u8]) -> Option<Decoded>>(
    decode: F,
    bytes: Seq<u8>,
    result: Option<(CompoundView, int)>,
) -> bool {
    exists|s: &[u8], r: Option<Decoded>|
        #![trigger call_ensures(decode, (s,), r)]
        s@ == bytes && call_ensures(decode, (s,), r) && decoded_view(r) == result
}

/// The compound that a decoder returned.
pub open spec fn tag_part(r: Option<(CompoundView, int)>) -> Option<CompoundView> {
    match r {
        Some((c, _)) => Some(c),
        None => None,
    }
}

/// Whether a decoder can read a byte string as a compound, or fail to where there is none.
pub open spec fn decodes<F: Fn(&[u8]) -> Option<Decoded>>(
    decode: F,
    bytes: Seq<u8>,
    tag: Option<CompoundView>,
) -> bool {
    exists|r: Option<(CompoundView, int)>|
        #[trigger] decodes_to(decode, bytes, r) && tag_part(r) == tag
}

/// Reads a byte string as a compound. What follows the compound is ignored.
pub fn decode_one<F: Fn(&[u8]) -> Option<Decoded>>(decode: &F, bytes: &[u8]) -> (r: Option<
    CompoundTag,
>)
    requires
        is_decoder(*decode),
    ensures
        match r {
            Some(t) => decodes(*decode, bytes@, Some(t@)),
            None => decodes(*decode, bytes@, None),
        },
{
    let out = decode(bytes);
    assert(decodes_to(*decode, bytes@, decoded_view(out)));
    match out {
        Some(d) => Some(d.tag),
        None => None,
    }
}

/// Whether a decoder, started at an offset of the data, read a compound up to another offset.
pub open spec fn read_between<F: Fn(&[u8]) -> Option<Decoded>>(
    decode: F,
    data: Seq<u8>,
    from: int,
    to: int,
    tag: CompoundView,
) -> bool {
    0 <= from < to <= data.len() && decodes_to(decode, data.skip(from), Some((tag, to - from)))
}

/// Whether nothing more is read at an offset: the data ends there, the decoder fails there, or
/// it takes nothing.
pub open spec fn nothing_at<F: Fn(&[u8]) -> Option<Decoded>>(
    decode: F,
    data: Seq<u8>,
    at: int,
) -> bool {
    ||| at == data.len()
    ||| decodes_to(decode, data.skip(at), None)
    ||| exists|tag: CompoundView| decodes_to(decode, data.skip(at), Some((tag, 0int)))
}

/// Whether a decoder, called again where it last stopped, read the compounds one after the other
/// between the offsets.
pub open spec fn reads_between<F: Fn(&[u8]) -> Option<Decoded>>(
    decode: F,
    data: Seq<u8>,
    offsets: Seq<int>,
    tags: Seq<CompoundView>,
) -> bool {
    &&& offsets.len() == tags.len() + 1
    &&& offsets[0] == 0
    &&& forall|i: int|
        0 <= i < tags.len() ==> read_between(
            decode,
            data,
            offsets[i],
            offsets[i + 1],
            #[trigger] tags[i],
        )
}

/// Whether the compounds are what a decoder reads from the data one after the other, up to a
/// limit on their number.
pub open spec fn reads_stream<F: Fn(&[u8]) -> Option<Decoded>>(
    decode: F,
    data: Seq<u8>,
    limit: nat,
    tags: Seq<CompoundView>,
) -> bool {
    exists|offsets: Seq<int>|
        #![trigger reads_between(decode, data, offsets, tags)]
        {
            &&& reads_between(decode, data, offsets, tags)
            &&& tags.len() <= limit
            &&& tags.len() == limit || nothing_at(decode, data, offsets.last())
        }
}

/// What the compounds of a list hold.
pub open spec fn compound_views(tags: Seq<CompoundTag>) -> Seq<CompoundView> {
    tags.map_values(|t: CompoundTag| t@)
}

/// Reads compounds that stand one after the other, up to a limit on their number. Reading stops
/// where the data ends or the decoder fails or takes nothing.
pub fn read_stream<F: Fn(&[u8]) -> Option<Decoded>>(decode: &F, data: &[u8], limit: usize) -> (r:
    Vec<CompoundTag>)
    requires
        is_decoder(*decode),
    ensures
        reads_stream(*decode, data@, limit as nat, compound_views(r@)),
{
    let mut out: Vec<CompoundTag> = Vec::new();
    let mut off: usize = 0;
    let ghost mut offsets: Seq<int> = seq![0int];
    assert(compound_views(out@) =~= Seq::empty());
    while out.len() < limit && off < data.len()
        invariant
            is_decoder(*decode),
            off <= data.len(),
            offsets.last() == off,
            out@.len() <= limit,
            reads_between(*decode, data@, offsets, compound_views(out@)),
        decreases data.len() - off,
    {
        let rest = slice_subrange(data, off, data.len());
        assert(rest@ =~= data@.skip(off as int));
        let result = decode(rest);
        assert(decodes_to(*decode, data@.skip(off as int), decoded_view(result)));
        match result {
            Some(d) => {
                if d.consumed == 0 {
                    assert(decodes_to(*decode, data@.skip(off as int), Some((d.tag@, 0int))));
                    return out;
                }
                let ghost before = compound_views(out@);
                let ghost after = offsets.push(off + d.consumed);
                let ghost tag = d.tag@;
                out.push(d.tag);
                assert(compound_views(out@) =~= before.push(tag));
                assert(reads_between(*decode, data@, after, before.push(tag))) by {
                    assert forall|i: int| 0 <= i < before.push(tag).len() implies read_between(
                        *decode,
                        data@,
                        after[i],
                        after[i + 1],
                        #[trigger] before.push(tag)[i],
                    ) by {
                        if i < before.len() {
                            assert(read_between(*decode, data@, offsets[i], offsets[i + 1], before[i]));
                        }
                    }
                }
                proof {
                    offsets = after;
                }
                off = off + d.consumed;
            },
            None => {
                return out;
            },
        }
    }
    out
}

/// Whether an encoder can be called on every compound.
pub open spec fn is_encoder<E: Fn(&CompoundTag) -> Vec<u8>>(encode: E) -> bool {
    forall|c: &CompoundTag| call_requires(encode, (c,))
}

/// Whether an encoder can write a compound as a byte string.
pub open spec fn encodes<E: Fn(&CompoundTag) -> Vec<u8>>(
    encode: E,
    tag: CompoundView,
    bytes: Seq<u8>,
) -> bool {
    exists|c: &CompoundTag, r: Vec<u8>|
        #![trigger call_ensures(encode, (c,), r)]
        c@ == tag && call_ensures(encode, (c,), r) && r@ == bytes
}

/// Writes a compound.
pub fn encode_one<E: Fn(&CompoundTag) -> Vec<u8>>(encode: &E, tag: &CompoundTag) -> (r: Vec<u8>)
    requires
        is_encoder(*encode),
    ensures
        encodes(*encode, tag@, r@),
{
    encode(tag)
}

/// Whether the compounds are all that a decoder reads from the data one after the other, and
/// reading ends at an offset.
pub open spec fn reads_up_to<F: Fn(&[u8]) -> Option<Decoded>>(
    decode: F,
    data: Seq<u8>,
    tags: Seq<CompoundView>,
    end: int,
) -> bool {
    exists|offsets: Seq<int>|
        #![trigger reads_between(decode, data, offsets, tags)]
        reads_between(decode, data, offsets, tags) && offsets.last() == end && nothing_at(
            decode,
            data,
            end,
        )
}

/// Reads all compounds that stand one after the other, and says where reading ended.
pub fn read_all<F: Fn(&[u8]) -> Option<Decoded>>(decode: &F, data: &[u8]) -> (r: (
    Vec<CompoundTag>,
    usize,
))
    requires
        is_decoder(*decode),
    ensures
        r.1 <= data@.len(),
        reads_up_to(*decode, data@, compound_views(r.0@), r.1 as int),
{
    let mut out: Vec<CompoundTag> = Vec::new();
    let mut off: usize = 0;
    let ghost mut offsets: Seq<int> = seq![0int];
    assert(compound_views(out@) =~= Seq::empty());
    while off < data.len()
        invariant
            is_decoder(*decode),
            off <= data.len(),
            offsets.last() == off,
            reads_between(*decode, data@, offsets, compound_views(out@)),
        decreases data.len() - off,
    {
        let rest = slice_subrange(data, off, data.len());
        assert(rest@ =~= data@.skip(off as int));
        let result = decode(rest);
        assert(decodes_to(*decode, data@.skip(off as int), decoded_view(result)));
        match result {
            Some(d) => {
                if d.consumed == 0 {
                    assert(decodes_to(*decode, data@.skip(off as int), Some((d.tag@, 0int))));
                    return (out, off);
                }
                let ghost before = compound_views(out@);
                let ghost after = offsets.push(off + d.consumed);
                let ghost tag = d.tag@;
                out.push(d.tag);
                assert(compound_views(out@) =~= before.push(tag));
                assert(reads_between(*decode, data@, after, before.push(tag))) by {
                    assert forall|i: int| 0 <= i < before.push(tag).len() implies read_between(
                        *decode,
                        data@,
                        after[i],
                        after[i + 1],
                        #[trigger] before.push(tag)[i],
                    ) by {
                        if i < before.len() {
                            assert(read_between(*decode, data@, offsets[i], offsets[i + 1], before[i]));
                        }
                    }
                }
                proof {
                    offsets = after;
                }
                off = off + d.consumed;
            },
            None => {
                return (out, off);
            },
        }
    }
    (out, off)
}

/// Byte strings one after the other.
pub open spec fn concatenated(parts: Seq<Seq<u8>>) -> Seq<u8>
    decreases parts.len(),
{
    if parts.len() == 0 {
        Seq::empty()
    } else {
        concatenated(parts.drop_last()) + parts.last()
    }
}

/// Whether an encoder can write compounds as byte strings, one for one.
pub open spec fn encodes_each<E: Fn(&CompoundTag) -> Vec<u8>>(
    encode: E,
    tags: Seq<CompoundView>,
    parts: Seq<Seq<u8>>,
) -> bool {
    &&& parts.len() == tags.len()
    &&& forall|i: int| 0 <= i < tags.len() ==> encodes(encode, #[trigger] tags[i], parts[i])
}

/// Whether an encoder can write compounds one after the other as a byte string.
pub open spec fn encodes_all<E: Fn(&CompoundTag) -> Vec<u8>>(
    encode: E,
    tags: Seq<CompoundView>,
    bytes: Seq<u8>,
) -> bool {
    exists|parts: Seq<Seq<u8>>|
        #[trigger] encodes_each(encode, tags, parts) && bytes == concatenated(parts)
}

/// Writes compounds one after the other.
pub fn encode_all<E: Fn(&CompoundTag) -> Vec<u8>>(encode: &E, tags: &Vec<CompoundTag>) -> (r: Vec<
    u8,
>)
    requires
        is_encoder(*encode),
    ensures
        encodes_all(*encode, compound_views(tags@), r@),
{
    let ghost views = compound_views(tags@);
    let ghost mut parts: Seq<Seq<u8>> = Seq::empty();
    let mut out: Vec<u8> = Vec::new();
    for i in 0..tags.len()
        invariant
            is_encoder(*encode),
            views == compound_views(tags@),
            encodes_each(*encode, views.take(i as int), parts),
            out@ == concatenated(parts),
    {
        let mut part = encode_one(encode, &tags[i]);
        proof {
            let before = parts;
            parts = parts.push(part@);
            assert(parts.drop_last() =~= before);
            assert forall|k: int| 0 <= k < i + 1 implies encodes(
                *encode,
                #[trigger] views.take(i + 1)[k],
                parts[k],
            ) by {
                if k < i {
                    assert(views.take(i as int)[k] == views.take(i + 1)[k]);
                }
            }
        }
        out.append(&mut part);
    }
    assert(views.take(tags@.len() as int) =~= views);
    out
}

} // verus!
