//! NBT trees as JSON.

use crate::bytes::lemma_before_irreflexive;
use crate::json::{
    as_i64, as_list, field, json_list_view, json_object_view, law_field, member, Json, JsonView,
};
use crate::name_order::{
    law_name_order, name_order, nth_by_name, places_by_name, stands_before,
};
use crate::nbt::{
    compound_view, law_lookup, list_view, lookup, CompoundTag, CompoundView, Tag, TagView,
};
use vstd::prelude::*;
use vstd::utf8::encode_utf8;

verus! {

/// An integer as a JSON number.
pub open spec fn int_json(v: i64) -> JsonView {
    if v >= 0 {
        JsonView::Unsigned(v as u64)
    } else {
        JsonView::Negative(v)
    }
}

/// Whether the bits of a 32-bit floating-point number are those of an infinity or of no number:
/// all bits of the exponent are set.
pub open spec fn single_not_finite(bits: u32) -> bool {
    (bits / 0x80_0000) % 0x100 == 0xff
}

/// Whether the bits of a 64-bit floating-point number are those of an infinity or of no number.
pub open spec fn double_not_finite(bits: u64) -> bool {
    (bits / 0x10_0000_0000_0000) % 0x800 == 0x7ff
}

/// A 32-bit floating-point number in JSON: a number where it is finite, else its name.
pub open spec fn single_json(bits: u32) -> JsonView {
    if !single_not_finite(bits) {
        JsonView::Single(bits)
    } else if bits % 0x80_0000 != 0 {
        JsonView::Text("NaN"@)
    } else if bits < 0x8000_0000 {
        JsonView::Text("inf"@)
    } else {
        JsonView::Text("-inf"@)
    }
}

/// A 64-bit floating-point number in JSON: a number where it is finite, else its name.
pub open spec fn double_json(bits: u64) -> JsonView {
    if !double_not_finite(bits) {
        JsonView::Double(bits)
    } else if bits % 0x10_0000_0000_0000 != 0 {
        JsonView::Text("NaN"@)
    } else if bits < 0x8000_0000_0000_0000 {
        JsonView::Text("inf"@)
    } else {
        JsonView::Text("-inf"@)
    }
}

/// An NBT tag in JSON. Arrays become lists of numbers.
pub open spec fn tag_json(t: TagView) -> JsonView
    decreases t,
{
    match t {
        TagView::End => JsonView::Null,
        TagView::Byte(v) => int_json(v as i64),
        TagView::Short(v) => int_json(v as i64),
        TagView::Int(v) => int_json(v as i64),
        TagView::Long(v) => int_json(v),
        TagView::Float(bits) => single_json(bits),
        TagView::Double(bits) => double_json(bits),
        TagView::ByteArray(a) => JsonView::List(a.map_values(|v: i8| int_json(v as i64))),
        TagView::Text(s) => JsonView::Text(s),
        TagView::List(l) => JsonView::List(tags_json(l)),
        TagView::Compound(c) => JsonView::Object(compound_json(c)),
        TagView::IntArray(a) => JsonView::List(a.map_values(|v: i32| int_json(v as i64))),
        TagView::LongArray(a) => JsonView::List(a.map_values(|v: i64| int_json(v))),
    }
}

/// The elements of an NBT list in JSON.
pub open spec fn tags_json(l: Seq<TagView>) -> Seq<JsonView>
    decreases l,
{
    Seq::new(
        l.len(),
        |i: int|
            if 0 <= i < l.len() {
                tag_json(l[i])
            } else {
                JsonView::Null
            },
    )
}

/// The entries of an NBT compound in JSON, in the order of their names.
pub open spec fn compound_json(c: CompoundView) -> Seq<(Seq<char>, JsonView)>
    decreases c,
{
    Seq::new(
        c.len(),
        |i: int|
            if 0 <= i < c.len() {
                (c[nth_by_name(c, i)].0, tag_json(c[nth_by_name(c, i)].1))
            } else {
                (Seq::empty(), JsonView::Null)
            },
    )
}

fn int_to_json(v: i64) -> (r: Json)
    ensures
        r@ == int_json(v),
{
    if v >= 0 {
        Json::Unsigned(v as u64)
    } else {
        Json::Negative(v)
    }
}

fn single_to_json(bits: u32) -> (r: Json)
    ensures
        r@ == single_json(bits),
{
    if (bits / 0x80_0000) % 0x100 != 0xff {
        Json::Single(bits)
    } else if bits % 0x80_0000 != 0 {
        Json::Text("NaN".to_owned())
    } else if bits < 0x8000_0000 {
        Json::Text("inf".to_owned())
    } else {
        Json::Text("-inf".to_owned())
    }
}

fn double_to_json(bits: u64) -> (r: Json)
    ensures
        r@ == double_json(bits),
{
    if (bits / 0x10_0000_0000_0000) % 0x800 != 0x7ff {
        Json::Double(bits)
    } else if bits % 0x10_0000_0000_0000 != 0 {
        Json::Text("NaN".to_owned())
    } else if bits < 0x8000_0000_0000_0000 {
        Json::Text("inf".to_owned())
    } else {
        Json::Text("-inf".to_owned())
    }
}

/// An NBT tag in JSON.
pub fn tag_to_json(tag: &Tag) -> (r: Json)
    ensures
        r@ == tag_json(tag@),
    decreases tag,
{
    match tag {
        Tag::End => Json::Null,
        Tag::Byte(v) => int_to_json(*v as i64),
        Tag::Short(v) => int_to_json(*v as i64),
        Tag::Int(v) => int_to_json(*v as i64),
        Tag::Long(v) => int_to_json(*v),
        Tag::Float(bits) => single_to_json(*bits),
        Tag::Double(bits) => double_to_json(*bits),
        Tag::ByteArray(a) => Json::List(bytes_to_json(a)),
        Tag::Text(s) => Json::Text(s.clone()),
        Tag::List(l) => Json::List(tags_to_json(l)),
        Tag::Compound(c) => Json::Object(compound_to_json(c)),
        Tag::IntArray(a) => Json::List(ints_to_json(a)),
        Tag::LongArray(a) => Json::List(longs_to_json(a)),
    }
}

fn bytes_to_json(a: &Vec<i8>) -> (r: Vec<Json>)
    ensures
        json_list_view(r@) == a@.map_values(|v: i8| int_json(v as i64)),
{
    let mut out: Vec<Json> = Vec::new();
    for i in 0..a.len()
        invariant
            out@.len() == i,
            forall|k: int| 0 <= k < i ==> (#[trigger] out@[k])@ == int_json(a@[k] as i64),
    {
        out.push(int_to_json(a[i] as i64));
    }
    assert(json_list_view(out@) =~= a@.map_values(|v: i8| int_json(v as i64)));
    out
}

fn ints_to_json(a: &Vec<i32>) -> (r: Vec<Json>)
    ensures
        json_list_view(r@) == a@.map_values(|v: i32| int_json(v as i64)),
{
    let mut out: Vec<Json> = Vec::new();
    for i in 0..a.len()
        invariant
            out@.len() == i,
            forall|k: int| 0 <= k < i ==> (#[trigger] out@[k])@ == int_json(a@[k] as i64),
    {
        out.push(int_to_json(a[i] as i64));
    }
    assert(json_list_view(out@) =~= a@.map_values(|v: i32| int_json(v as i64)));
    out
}

fn longs_to_json(a: &Vec<i64>) -> (r: Vec<Json>)
    ensures
        json_list_view(r@) == a@.map_values(|v: i64| int_json(v)),
{
    let mut out: Vec<Json> = Vec::new();
    for i in 0..a.len()
        invariant
            out@.len() == i,
            forall|k: int| 0 <= k < i ==> (#[trigger] out@[k])@ == int_json(a@[k]),
    {
        out.push(int_to_json(a[i]));
    }
    assert(json_list_view(out@) =~= a@.map_values(|v: i64| int_json(v)));
    out
}

fn tags_to_json(l: &Vec<Tag>) -> (r: Vec<Json>)
    ensures
        json_list_view(r@) == tags_json(list_view(l@)),
    decreases l,
{
    let mut out: Vec<Json> = Vec::new();
    for i in 0..l.len()
        invariant
            out@.len() == i,
            forall|k: int| 0 <= k < i ==> (#[trigger] out@[k])@ == tag_json(l@[k]@),
    {
        out.push(tag_to_json(&l[i]));
    }
    assert(json_list_view(out@) =~= tags_json(list_view(l@)));
    out
}

fn compound_to_json(c: &CompoundTag) -> (r: Vec<(String, Json)>)
    ensures
        json_object_view(r@) == compound_json(c@),
    decreases c,
{
    let ghost all = compound_view(*c);
    let mut out: Vec<(String, Json)> = Vec::new();
    let order = places_by_name(c);
    for i in 0..c.entries.len()
        invariant
            all == compound_view(*c),
            order@.len() == c.entries@.len(),
            forall|j: int|
                0 <= j < order@.len() ==> (#[trigger] order@[j]) < order@.len() && order@[j]
                    == nth_by_name(all, j),
            out@.len() == i,
            forall|j: int|
                0 <= j < i ==> (#[trigger] out@[j]).0@ == all[nth_by_name(all, j)].0 && out@[j].1@
                    == tag_json(all[nth_by_name(all, j)].1),
    {
        let k: usize = order[i];
        out.push((c.entries[k].0.clone(), tag_to_json(&c.entries[k].1)));
    }
    assert(json_object_view(out@) =~= compound_json(compound_view(*c)));
    out
}

/// An integer has its value in JSON whatever the width of its tag, a text is itself, and a list is
/// one, element by element.
pub proof fn law_json_values(a: i8, b: i16, c: i32, d: i64, s: Seq<char>, l: Seq<TagView>, i: int)
    ensures
        as_i64(Some(tag_json(TagView::Byte(a)))) == Some(a as i64),
        as_i64(Some(tag_json(TagView::Short(b)))) == Some(b as i64),
        as_i64(Some(tag_json(TagView::Int(c)))) == Some(c as i64),
        as_i64(Some(tag_json(TagView::Long(d)))) == Some(d),
        tag_json(TagView::Text(s)) == JsonView::Text(s),
        as_list(Some(tag_json(TagView::List(l)))) matches Some(m) && m.len() == l.len() && (0 <= i
            < l.len() ==> m[i] == tag_json(l[i])),
{
}

/// Arrays of numbers are lists of numbers in JSON.
pub proof fn law_json_arrays(a: Seq<i8>, b: Seq<i32>, c: Seq<i64>, i: int)
    ensures
        as_list(Some(tag_json(TagView::ByteArray(a)))) matches Some(m) && m.len() == a.len() && (0 <= i
            < a.len() ==> as_i64(Some(m[i])) == Some(a[i] as i64)),
        as_list(Some(tag_json(TagView::IntArray(b)))) matches Some(m) && m.len() == b.len() && (0 <= i
            < b.len() ==> as_i64(Some(m[i])) == Some(b[i] as i64)),
        as_list(Some(tag_json(TagView::LongArray(c)))) matches Some(m) && m.len() == c.len() && (0
            <= i < c.len() ==> as_i64(Some(m[i])) == Some(c[i])),
{
}

/// What a compound has under a name, its JSON form has under the same name, and nothing else.
pub proof fn law_json_members(c: CompoundView, name: Seq<char>)
    ensures
        member(tag_json(TagView::Compound(c)), name) == match lookup(c, name) {
            Some(t) => Some(tag_json(t)),
            None => None,
        },
        compound_json(c).len() == c.len(),
{
    let o = compound_json(c);
    law_field(o, name);
    law_lookup(c, name);
    law_name_order(c);
    let order = name_order(c);
    assert forall|i: int| 0 <= i < o.len() implies #[trigger] o[i] == (
        c[order[i]].0,
        tag_json(c[order[i]].1),
    ) by {
        assert(nth_by_name(c, i) == order[i]);
    }
    match (field(o, name), lookup(c, name)) {
        (Some(j), Some(t)) => {
            let i = choose|i: int|
                0 <= i < o.len() && #[trigger] o[i] == (name, j) && forall|k: int|
                    0 <= k < i ==> (#[trigger] o[k]).0 != name;
            let q = choose|q: int|
                0 <= q < c.len() && #[trigger] c[q] == (name, t) && forall|k: int|
                    0 <= k < q ==> (#[trigger] c[k]).0 != name;
            assert(order.contains(q));
            let p = order.index_of(q);
            assert(o[p].0 == name);
            assert(c[order[i]].0 == name);
            if i < p {
                assert(stands_before(c, order[i], order[p]));
                lemma_before_irreflexive(encode_utf8(name));
                assert(order[i] < q);
            }
            assert(i == p);
        },
        (Some(j), None) => {
            let i = choose|i: int|
                0 <= i < o.len() && #[trigger] o[i] == (name, j) && forall|k: int|
                    0 <= k < i ==> (#[trigger] o[k]).0 != name;
            assert(c[order[i]].0 == name);
        },
        (None, Some(t)) => {
            let q = choose|q: int|
                0 <= q < c.len() && #[trigger] c[q] == (name, t) && forall|k: int|
                    0 <= k < q ==> (#[trigger] c[k]).0 != name;
            assert(order.contains(q));
            assert(o[order.index_of(q)].0 == name);
        },
        (None, None) => {},
    }
}

} // verus!
