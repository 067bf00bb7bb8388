//! Changes to NBT trees.

use crate::bytes::{law_wrapping, wrap_32, wrapped_32};
use crate::nbt::{
    list_view, lookup, lookup_compound, tag_real, tag_to_real, CompoundTag, CompoundView, Real,
    Tag, TagView,
};
use vstd::prelude::*;

verus! {

/// A compound with a value under a name, in the place of the one that it had there or, where it
/// had none, at the end.
pub open spec fn set_entry(c: CompoundView, name: Seq<char>, t: TagView) -> CompoundView
    decreases c.len(),
{
    if c.len() == 0 {
        seq![(name, t)]
    } else if c[0].0 == name {
        seq![(name, t)] + c.skip(1)
    } else {
        seq![c[0]] + set_entry(c.skip(1), name, t)
    }
}

/// What was set under a name is found there.
pub proof fn law_set_then_lookup(c: CompoundView, name: Seq<char>, t: TagView)
    ensures
        lookup(set_entry(c, name, t), name) == Some(t),
    decreases c.len(),
{
    if c.len() > 0 && c[0].0 != name {
        law_set_then_lookup(c.skip(1), name, t);
        let s = set_entry(c, name, t);
        assert(s[0] == c[0]);
        assert(s.skip(1) =~= set_entry(c.skip(1), name, t));
    }
}

/// Setting a value under a name changes no value under another.
pub proof fn law_set_keeps_others(c: CompoundView, name: Seq<char>, t: TagView, other: Seq<char>)
    requires
        other != name,
    ensures
        lookup(set_entry(c, name, t), other) == lookup(c, other),
    decreases c.len(),
{
    reveal_with_fuel(lookup, 2);
    let s = set_entry(c, name, t);
    if c.len() == 0 {
        assert(s.skip(1) =~= Seq::empty());
    } else if c[0].0 == name {
        assert(s.skip(1) =~= c.skip(1));
    } else {
        law_set_keeps_others(c.skip(1), name, t, other);
        assert(s[0] == c[0]);
        assert(s.skip(1) =~= set_entry(c.skip(1), name, t));
    }
}

/// Sets the value under a name.
pub fn put(c: CompoundTag, name: &str, t: Tag) -> (r: CompoundTag)
    ensures
        r@ == set_entry(c@, name@, t@),
{
    let wanted: String = name.to_owned();
    let ghost all = c@;
    let mut entries = c.entries;
    let mut i: usize = 0;
    assert(all.skip(0) =~= all);
    assert(all.take(0) + set_entry(all.skip(0), name@, t@) =~= set_entry(all, name@, t@));
    while i < entries.len() && !(entries[i].0 == wanted)
        invariant
            wanted@ == name@,
            i <= entries@.len(),
            all == (CompoundTag { entries })@,
            set_entry(all, name@, t@) == all.take(i as int) + set_entry(
                all.skip(i as int),
                name@,
                t@,
            ),
        decreases entries@.len() - i,
    {
        let ghost rest = all.skip(i as int);
        assert(rest[0] == all[i as int]);
        assert(rest.skip(1) =~= all.skip(i + 1));
        assert(all.take(i + 1) =~= all.take(i as int).push(all[i as int]));
        assert(all.take(i as int) + (seq![rest[0]] + set_entry(rest.skip(1), name@, t@))
            =~= all.take(i + 1) + set_entry(all.skip(i + 1), name@, t@));
        i += 1;
    }
    if i < entries.len() {
        assert(all.skip(i as int)[0] == all[i as int]);
        assert(all.skip(i as int).skip(1) =~= all.skip(i + 1));
        let ghost view = t@;
        entries.set(i, (wanted, t));
        let r = CompoundTag { entries };
        assert(r@ =~= all.update(i as int, (name@, view)));
        assert(r@ =~= all.take(i as int) + (seq![(name@, view)] + all.skip(i + 1)));
        r
    } else {
        assert(all.skip(i as int) =~= Seq::empty());
        let ghost view = t@;
        entries.push((wanted, t));
        let r = CompoundTag { entries };
        assert(r@ =~= all.take(i as int) + seq![(name@, view)]);
        r
    }
}

/// A compound with the `Int` under a name moved by a distance.
pub open spec fn shifted(c: CompoundView, name: Seq<char>, d: int) -> CompoundView {
    match lookup(c, name) {
        Some(TagView::Int(v)) => set_entry(c, name, TagView::Int(wrapped_32(v + d) as i32)),
        _ => c,
    }
}

/// A compound with its coordinates `x` and `z` moved by distances.
pub open spec fn moved(c: CompoundView, dx: int, dz: int) -> CompoundView {
    shifted(shifted(c, "x"@, dx), "z"@, dz)
}

/// A tag that is moved where it is a compound.
pub open spec fn moved_tag(t: TagView, dx: int, dz: int) -> TagView {
    match t {
        TagView::Compound(c) => TagView::Compound(moved(c, dx, dz)),
        _ => t,
    }
}

/// Pending ticks moved by distances: each element of the tick list.
pub open spec fn moved_ticks(c: CompoundView, dx: int, dz: int) -> CompoundView {
    match lookup(c, "tickList"@) {
        Some(TagView::List(l)) => set_entry(
            c,
            "tickList"@,
            TagView::List(l.map_values(|t: TagView| moved_tag(t, dx, dz))),
        ),
        _ => c,
    }
}

fn shift(c: CompoundTag, name: &str, d: i64) -> (r: CompoundTag)
    requires
        -0x1_0000_0000 <= d <= 0x1_0000_0000,
    ensures
        r@ == shifted(c@, name@, d as int),
{
    match c.get_int(name) {
        Some(v) => put(c, name, Tag::Int(wrap_32(v as i64 + d))),
        None => c,
    }
}

/// Moves the coordinates `x` and `z` of a compound.
pub fn move_compound(c: CompoundTag, dx: i64, dz: i64) -> (r: CompoundTag)
    requires
        -0x1_0000_0000 <= dx <= 0x1_0000_0000,
        -0x1_0000_0000 <= dz <= 0x1_0000_0000,
    ensures
        r@ == moved(c@, dx as int, dz as int),
{
    shift(shift(c, "x", dx), "z", dz)
}

/// Moves pending ticks.
pub fn move_ticks(c: CompoundTag, dx: i64, dz: i64) -> (r: CompoundTag)
    requires
        -0x1_0000_0000 <= dx <= 0x1_0000_0000,
        -0x1_0000_0000 <= dz <= 0x1_0000_0000,
    ensures
        r@ == moved_ticks(c@, dx as int, dz as int),
{
    let list = match c.get_list("tickList") {
        Some(l) => l,
        None => {
            return c;
        },
    };
    let ghost all = list_view(list@);
    let mut out: Vec<Tag> = Vec::new();
    for i in 0..list.len()
        invariant
            -0x1_0000_0000 <= dx <= 0x1_0000_0000,
            -0x1_0000_0000 <= dz <= 0x1_0000_0000,
            all == list_view(list@),
            out@.len() == i,
            forall|k: int|
                0 <= k < i ==> (#[trigger] out@[k])@ == moved_tag(all[k], dx as int, dz as int),
    {
        assert(all[i as int] == list@[i as int]@);
        match &list[i] {
            Tag::Compound(k) => {
                out.push(Tag::Compound(move_compound(k.clone(), dx, dz)));
            },
            other => {
                out.push(other.clone());
            },
        }
    }
    assert(list_view(out@) =~= all.map_values(|t: TagView| moved_tag(t, dx as int, dz as int)));
    put(c, "tickList", Tag::List(out))
}

/// A floating-point number as a tag.
pub open spec fn real_tag(r: Real) -> TagView {
    match r {
        Real::Single(v) => TagView::Float(v),
        Real::Double(v) => TagView::Double(v),
    }
}

/// The coordinates of a position, where it has three numbers with floating-point ones first and
/// last.
pub open spec fn position(c: CompoundView) -> Option<(Real, Real)> {
    match lookup(c, "Pos"@) {
        Some(TagView::List(l)) => if l.len() >= 3 {
            match (tag_real(l[0]), tag_real(l[2])) {
                (Some(x), Some(z)) => Some((x, z)),
                _ => None,
            }
        } else {
            None
        },
        _ => None,
    }
}

/// A compound at another position.
pub open spec fn placed(c: CompoundView, x: Real, z: Real) -> CompoundView {
    match lookup(c, "Pos"@) {
        Some(TagView::List(l)) => set_entry(
            c,
            "Pos"@,
            TagView::List(l.update(0, real_tag(x)).update(2, real_tag(z))),
        ),
        _ => c,
    }
}

/// The coordinates of a position.
pub fn read_position(c: &CompoundTag) -> (r: Option<(Real, Real)>)
    ensures
        r == position(c@),
{
    if let Some(l) = c.get_list("Pos") {
        if l.len() >= 3 {
            assert(list_view(l@)[0] == l@[0]@ && list_view(l@)[2] == l@[2]@);
            if let Some(x) = tag_to_real(&l[0]) {
                if let Some(z) = tag_to_real(&l[2]) {
                    return Some((x, z));
                }
            }
        }
    }
    None
}

fn tag_of_real(r: Real) -> (t: Tag)
    ensures
        t@ == real_tag(r),
{
    match r {
        Real::Single(v) => Tag::Float(v),
        Real::Double(v) => Tag::Double(v),
    }
}

/// Puts a compound at another position.
pub fn place(c: CompoundTag, x: Real, z: Real) -> (r: CompoundTag)
    requires
        position(c@) is Some,
    ensures
        r@ == placed(c@, x, z),
{
    let mut list: Vec<Tag> = match c.get_list("Pos") {
        Some(l) => copy_tags(l),
        None => Vec::new(),
    };
    let ghost before = list_view(list@);
    list.set(0, tag_of_real(x));
    list.set(2, tag_of_real(z));
    assert(list_view(list@) =~= before.update(0, real_tag(x)).update(2, real_tag(z)));
    put(c, "Pos", Tag::List(list))
}

fn copy_tags(l: &Vec<Tag>) -> (r: Vec<Tag>)
    ensures
        list_view(r@) == list_view(l@),
        r@.len() == l@.len(),
{
    let mut out: Vec<Tag> = Vec::new();
    for i in 0..l.len()
        invariant
            out@.len() == i,
            forall|k: int| 0 <= k < i ==> (#[trigger] out@[k])@ == l@[k]@,
    {
        out.push(l[i].clone());
    }
    assert(list_view(out@) =~= list_view(l@));
    out
}

/// The compound under a name, empty where there is none.
pub open spec fn inner(c: CompoundView, name: Seq<char>) -> CompoundView {
    match lookup_compound(c, name) {
        Some(k) => k,
        None => CompoundView::empty(),
    }
}

/// The compound under a name, empty where there is none.
pub fn get_inner(c: &CompoundTag, name: &str) -> (r: CompoundTag)
    ensures
        r@ == inner(c@, name@),
{
    match c.get_compound(name) {
        Some(k) => k.clone(),
        None => CompoundTag::new(),
    }
}

/// Moving a compound changes its coordinates by the distances, as far as they are there, and
/// nothing else in it.
pub proof fn law_moved(c: CompoundView, dx: int, dz: int, name: Seq<char>)
    ensures
        lookup(moved(c, dx, dz), name) == match lookup(c, name) {
            Some(TagView::Int(v)) => if name == "x"@ {
                Some(TagView::Int(wrapped_32(v + dx) as i32))
            } else if name == "z"@ {
                Some(TagView::Int(wrapped_32(v + dz) as i32))
            } else {
                Some(TagView::Int(v))
            },
            other => other,
        },
{
    assert("x"@ != "z"@) by {
        reveal_strlit("x");
        reveal_strlit("z");
        assert("x"@[0] != "z"@[0]);
    }
    lemma_shifted(c, "x"@, dx, name);
    lemma_shifted(shifted(c, "x"@, dx), "z"@, dz, name);
}

proof fn lemma_shifted(c: CompoundView, moving: Seq<char>, d: int, name: Seq<char>)
    ensures
        lookup(shifted(c, moving, d), name) == match lookup(c, name) {
            Some(TagView::Int(v)) => if name == moving {
                Some(TagView::Int(wrapped_32(v + d) as i32))
            } else {
                Some(TagView::Int(v))
            },
            other => other,
        },
{
    if let Some(TagView::Int(v)) = lookup(c, moving) {
        let t = TagView::Int(wrapped_32(v + d) as i32);
        law_set_then_lookup(c, moving, t);
        if name != moving {
            law_set_keeps_others(c, moving, t, name);
        }
    }
}

/// A block entity that is moved stands the distances further along x and z, at the same height, and
/// keeps everything else.
pub proof fn law_moved_coordinates(c: CompoundView, dx: int, dz: int, x: i32, z: i32, name: Seq<char>)
    requires
        lookup(c, "x"@) == Some(TagView::Int(x)),
        lookup(c, "z"@) == Some(TagView::Int(z)),
        i32::MIN <= x + dx <= i32::MAX,
        i32::MIN <= z + dz <= i32::MAX,
    ensures
        lookup(moved(c, dx, dz), "x"@) == Some(TagView::Int((x + dx) as i32)),
        lookup(moved(c, dx, dz), "z"@) == Some(TagView::Int((z + dz) as i32)),
        name != "x"@ && name != "z"@ ==> lookup(moved(c, dx, dz), name) == lookup(c, name),
{
    law_moved(c, dx, dz, "x"@);
    law_moved(c, dx, dz, "z"@);
    law_moved(c, dx, dz, name);
    law_wrapping(x + dx);
    law_wrapping(z + dz);
    assert("x"@ != "z"@) by {
        reveal_strlit("x");
        reveal_strlit("z");
        assert("x"@[0] != "z"@[0]);
    }
}

/// Scheduled ticks that are moved are as many, each stands the distances further, and nothing else
/// in the compound changes.
pub proof fn law_moved_ticks(c: CompoundView, dx: int, dz: int, l: Seq<TagView>, name: Seq<char>)
    requires
        lookup(c, "tickList"@) == Some(TagView::List(l)),
    ensures
        lookup(moved_ticks(c, dx, dz), "tickList"@) matches Some(TagView::List(m)) && m.len()
            == l.len() && forall|i: int|
            0 <= i < l.len() ==> match l[i] {
                TagView::Compound(t) => #[trigger] m[i] == TagView::Compound(moved(t, dx, dz)),
                other => m[i] == other,
            },
        name != "tickList"@ ==> lookup(moved_ticks(c, dx, dz), name) == lookup(c, name),
{
    let m = l.map_values(|t: TagView| moved_tag(t, dx, dz));
    law_set_then_lookup(c, "tickList"@, TagView::List(m));
    if name != "tickList"@ {
        law_set_keeps_others(c, "tickList"@, TagView::List(m), name);
    }
}

/// An entity that is placed elsewhere has the new numbers first and third in its `Pos`. Its height
/// and everything else stays.
pub proof fn law_placed(c: CompoundView, x: Real, z: Real, l: Seq<TagView>, name: Seq<char>)
    requires
        lookup(c, "Pos"@) == Some(TagView::List(l)),
        position(c) is Some,
    ensures
        position(placed(c, x, z)) == Some((x, z)),
        lookup(placed(c, x, z), "Pos"@) matches Some(TagView::List(m)) && m.len() == l.len() && m[1]
            == l[1] && tag_real(m[0]) == Some(x) && tag_real(m[2]) == Some(z) && forall|i: int|
            3 <= i < l.len() ==> #[trigger] m[i] == l[i],
        name != "Pos"@ ==> lookup(placed(c, x, z), name) == lookup(c, name),
{
    let m = l.update(0, real_tag(x)).update(2, real_tag(z));
    law_set_then_lookup(c, "Pos"@, TagView::List(m));
    if name != "Pos"@ {
        law_set_keeps_others(c, "Pos"@, TagView::List(m), name);
    }
}

/// The position of an entity is made of the first and the third number of its `Pos`.
pub proof fn law_position(c: CompoundView)
    ensures
        match position(c) {
            Some((x, z)) => lookup(c, "Pos"@) matches Some(TagView::List(l)) && l.len() >= 3
                && tag_real(l[0]) == Some(x) && tag_real(l[2]) == Some(z),
            None => lookup(c, "Pos"@) matches Some(TagView::List(l)) ==> l.len() < 3 || tag_real(l[0])
                is None || tag_real(l[2]) is None,
        },
{
}

} // verus!
