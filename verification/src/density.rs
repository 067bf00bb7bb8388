//! Where entities stand densest: counts by groups of chunks.

use crate::bytes::{wrap_32, wrapped_32};
use crate::keys::floor_div;
use crate::lines::{line_views, push_line, push_lines, words, Line, LineView, PieceView};
use crate::nbt::{
    lookup, lookup_list, tag_i32, tag_real, tag_to_real, CompoundTag, CompoundView, Real, Tag, TagView,
};
use crate::player_report::{dim_label, dim_name};
use crate::ranking::{is_ranking, law_ranking_is_unique, rank_names, tally_views, TallyView};
use crate::selection::{lemma_select_next, lemma_select_none, selects};
use vstd::arithmetic::div_mod::{lemma_fundamental_div_mod, lemma_mod_bound};
use vstd::prelude::*;

verus! {

/// What is read of an actor: its type, its dimension and where it stands.
pub struct SpotView {
    pub identifier: Seq<char>,
    pub dim: u8,
    pub x: Real,
    pub z: Real,
}

/// What an entity counts for: a group of chunks in a dimension, and a type.
pub struct RecordView {
    pub dim: u8,
    pub group_x: int,
    pub group_z: int,
    pub identifier: Seq<char>,
}

/// What an entity counts for: a group of chunks in a dimension, and a type.
pub struct EntityRecord {
    pub dim: u8,
    pub group_x: i32,
    pub group_z: i32,
    pub identifier: String,
}

impl View for EntityRecord {
    type V = RecordView;

    open spec fn view(&self) -> RecordView {
        RecordView {
            dim: self.dim,
            group_x: self.group_x as int,
            group_z: self.group_z as int,
            identifier: self.identifier@,
        }
    }
}

/// The low 8 bits of an integer.
pub open spec fn low_byte(v: int) -> u8 {
    (v % 0x100) as u8
}

/// The type of an actor, under the first of two names that is there.
pub open spec fn spot_type(tag: CompoundView) -> Seq<char> {
    let found = match lookup(tag, "identifier"@) {
        Some(t) => Some(t),
        None => lookup(tag, "id"@),
    };
    match found {
        Some(TagView::Text(s)) => s,
        _ => "unknown"@,
    }
}

/// The dimension of an actor, under the first of two names that is there.
pub open spec fn spot_dim(tag: CompoundView) -> u8 {
    let found = match lookup(tag, "DimensionId"@) {
        Some(t) => Some(t),
        None => lookup(tag, "Dimension"@),
    };
    match found {
        Some(TagView::Byte(v)) => low_byte(v as int),
        Some(TagView::Short(v)) => low_byte(v as int),
        Some(TagView::Int(v)) => low_byte(v as int),
        _ => 0,
    }
}

/// What is read of an actor, where it has a position.
pub open spec fn spot(tag: CompoundView) -> Option<SpotView> {
    match lookup_list(tag, "Pos"@) {
        Some(l) => if l.len() >= 3 {
            match (tag_real(l[0]), tag_real(l[2])) {
                (Some(x), Some(z)) => Some(
                    SpotView { identifier: spot_type(tag), dim: spot_dim(tag), x, z },
                ),
                _ => None,
            }
        } else {
            None
        },
        None => None,
    }
}

/// The group of chunks in which a block coordinate lies.
pub open spec fn group_of(block: int, group_size: int) -> int {
    wrapped_32(block) / 16 / group_size
}

/// What an actor counts for, given its coordinates without their fractions.
pub open spec fn record_of(s: SpotView, x: i64, z: i64, group_size: u32) -> RecordView {
    RecordView {
        dim: s.dim,
        group_x: group_of(x as int, group_size as int),
        group_z: group_of(z as int, group_size as int),
        identifier: s.identifier,
    }
}

/// Whether block coordinates come from the position of an actor.
pub open spec fn is_whole<C: Fn(Real) -> i64>(whole: C, s: SpotView, x: i64, z: i64) -> bool {
    call_ensures(whole, (s.x,), x) && call_ensures(whole, (s.z,), z)
}

fn byte_of_int(v: i32) -> (r: u8)
    ensures
        r == low_byte(v as int),
{
    let low: i64 = (v as i64 + 0x1_0000_0000) % 0x100;
    assert((v + 0x1_0000_0000) % 0x100 == v as int % 0x100);
    low as u8
}

fn group_coordinate(block: i64, group_size: u32) -> (r: i32)
    requires
        1 <= group_size <= 0x7fff_ffff,
    ensures
        r == group_of(block as int, group_size as int),
{
    let chunk: i32 = floor_div(wrap_32(block), 16);
    floor_div(chunk, group_size as i32)
}

fn type_of_spot(tag: &CompoundTag) -> (r: String)
    ensures
        r@ == spot_type(tag@),
{
    let found = match tag.get("identifier") {
        Some(t) => Some(t),
        None => tag.get("id"),
    };
    match found {
        Some(Tag::Text(s)) => s.clone(),
        _ => "unknown".to_owned(),
    }
}

fn dim_of_spot(tag: &CompoundTag) -> (r: u8)
    ensures
        r == spot_dim(tag@),
{
    let found = match tag.get("DimensionId") {
        Some(t) => Some(t),
        None => tag.get("Dimension"),
    };
    match found {
        Some(Tag::Byte(v)) => byte_of_int(*v as i32),
        Some(Tag::Short(v)) => byte_of_int(*v as i32),
        Some(Tag::Int(v)) => byte_of_int(*v),
        _ => 0,
    }
}

/// What an actor counts for. One without a position counts for nothing. `whole` gives the block
/// of a coordinate.
pub fn actor_record<C: Fn(Real) -> i64>(tag: &CompoundTag, group_size: u32, whole: &C) -> (r:
    Option<EntityRecord>)
    requires
        1 <= group_size <= 0x7fff_ffff,
        forall|v: Real| call_requires(*whole, (v,)),
    ensures
        match spot(tag@) {
            Some(s) => r matches Some(record) && exists|x: i64, z: i64|
                #[trigger] is_whole(*whole, s, x, z) && record@ == record_of(s, x, z, group_size),
            None => r is None,
        },
{
    let list = match tag.get_list("Pos") {
        Some(l) => l,
        None => {
            return None;
        },
    };
    if list.len() < 3 {
        return None;
    }
    let x = match tag_to_real(&list[0]) {
        Some(v) => v,
        None => {
            return None;
        },
    };
    let z = match tag_to_real(&list[2]) {
        Some(v) => v,
        None => {
            return None;
        },
    };
    let whole_x: i64 = whole(x);
    let whole_z: i64 = whole(z);
    let ghost s = spot(tag@).unwrap();
    assert(is_whole(*whole, s, whole_x, whole_z));
    Some(
        EntityRecord {
            dim: dim_of_spot(tag),
            group_x: group_coordinate(whole_x, group_size),
            group_z: group_coordinate(whole_z, group_size),
            identifier: type_of_spot(tag),
        },
    )
}

/// The place of a group: its dimension and its coordinates.
pub type GroupKey = (u8, int, int);

/// The group that a record counts for.
pub open spec fn record_key(r: RecordView) -> GroupKey {
    (r.dim, r.group_x, r.group_z)
}

/// The types of the entities of a group, in the order of the records.
pub open spec fn members(records: Seq<RecordView>, key: GroupKey) -> Seq<Seq<char>>
    decreases records.len(),
{
    if records.len() == 0 {
        Seq::empty()
    } else if record_key(records.last()) == key {
        members(records.drop_last(), key).push(records.last().identifier)
    } else {
        members(records.drop_last(), key)
    }
}

/// What a group of chunks holds.
pub struct GroupView {
    pub key: GroupKey,
    pub members: Seq<Seq<char>>,
}

/// A group of chunks and the types of the entities in it.
pub struct Group {
    pub dim: u8,
    pub group_x: i32,
    pub group_z: i32,
    pub members: Vec<String>,
}

impl View for Group {
    type V = GroupView;

    open spec fn view(&self) -> GroupView {
        GroupView {
            key: (self.dim, self.group_x as int, self.group_z as int),
            members: self.members@.map_values(|s: String| s@),
        }
    }
}

/// What groups hold.
pub open spec fn group_views(groups: Seq<Group>) -> Seq<GroupView> {
    groups.map_values(|g: Group| g@)
}

/// What records hold.
pub open spec fn record_views(records: Seq<EntityRecord>) -> Seq<RecordView> {
    records.map_values(|r: EntityRecord| r@)
}

/// Whether a group comes before another by its place.
pub open spec fn place_before(a: GroupKey, b: GroupKey) -> bool {
    a.0 < b.0 || (a.0 == b.0 && (a.1 < b.1 || (a.1 == b.1 && a.2 < b.2)))
}

/// Whether groups hold the entities of the records, each group once, in the order of places.
pub open spec fn is_grouping(records: Seq<RecordView>, groups: Seq<GroupView>) -> bool {
    &&& forall|i: int|
        0 <= i < groups.len() ==> (#[trigger] groups[i]).members == members(records, groups[i].key)
            && groups[i].members.len() > 0
    &&& forall|k: int| 0 <= k < records.len() ==> has_group(groups, record_key(#[trigger] records[k]))
    &&& forall|i: int, j: int|
        0 <= i < j < groups.len() ==> place_before(
            (#[trigger] groups[i]).key,
            (#[trigger] groups[j]).key,
        )
}

/// Whether a group is among others.
pub open spec fn has_group(groups: Seq<GroupView>, key: GroupKey) -> bool {
    exists|i: int| 0 <= i < groups.len() && (#[trigger] groups[i]).key == key
}

proof fn lemma_no_members(records: Seq<RecordView>, key: GroupKey)
    requires
        forall|k: int| 0 <= k < records.len() ==> record_key(#[trigger] records[k]) != key,
    ensures
        members(records, key) == Seq::<Seq<char>>::empty(),
    decreases records.len(),
{
    if records.len() > 0 {
        lemma_no_members(records.drop_last(), key);
    }
}

/// The first group that does not come before a place.
fn seek_group(groups: &Vec<Group>, dim: u8, gx: i32, gz: i32) -> (r: usize)
    requires
        forall|i: int, j: int|
            0 <= i < j < groups@.len() ==> place_before(
                (#[trigger] group_views(groups@)[i]).key,
                (#[trigger] group_views(groups@)[j]).key,
            ),
    ensures
        r <= groups@.len(),
        forall|i: int|
            0 <= i < r ==> place_before(
                (#[trigger] group_views(groups@)[i]).key,
                (dim, gx as int, gz as int),
            ),
        forall|i: int|
            r <= i < groups@.len() ==> !place_before(
                (#[trigger] group_views(groups@)[i]).key,
                (dim, gx as int, gz as int),
            ),
{
    let ghost key: GroupKey = (dim, gx as int, gz as int);
    let ghost views = group_views(groups@);
    let mut lo: usize = 0;
    let mut hi: usize = groups.len();
    while lo < hi
        invariant
            lo <= hi <= groups.len(),
            views == group_views(groups@),
            key == (dim, gx as int, gz as int),
            forall|i: int, j: int|
                0 <= i < j < groups@.len() ==> place_before(
                    (#[trigger] views[i]).key,
                    (#[trigger] views[j]).key,
                ),
            forall|i: int| 0 <= i < lo ==> place_before((#[trigger] views[i]).key, key),
            forall|i: int|
                hi <= i < groups@.len() ==> !place_before((#[trigger] views[i]).key, key),
        decreases hi - lo,
    {
        let mid: usize = lo + (hi - lo) / 2;
        let g = &groups[mid];
        assert(views[mid as int] == g@);
        if g.dim < dim || (g.dim == dim && (g.group_x < gx || (g.group_x == gx && g.group_z
            < gz))) {
            assert forall|i: int| 0 <= i < mid + 1 implies place_before(
                (#[trigger] views[i]).key,
                key,
            ) by {
                if i < mid {
                    assert(place_before(views[i].key, views[mid as int].key));
                }
            }
            lo = mid + 1;
        } else {
            assert forall|i: int| mid <= i < groups@.len() implies !place_before(
                (#[trigger] views[i]).key,
                key,
            ) by {
                if mid < i {
                    assert(place_before(views[mid as int].key, views[i].key));
                }
            }
            hi = mid;
        }
    }
    lo
}

fn count_record(groups: &mut Vec<Group>, r: &EntityRecord, Ghost(records): Ghost<Seq<RecordView>>)
    requires
        is_grouping(records, group_views(old(groups)@)),
    ensures
        is_grouping(records.push(r@), group_views(final(groups)@)),
{
    let ghost before = group_views(groups@);
    let ghost more = records.push(r@);
    let ghost key = record_key(r@);
    assert(more.drop_last() =~= records);
    assert(forall|k: GroupKey|
        #[trigger] members(more, k) == if k == key {
            members(records, k).push(r@.identifier)
        } else {
            members(records, k)
        });
    let p: usize = seek_group(groups, r.dim, r.group_x, r.group_z);
    if p < groups.len() && groups[p].dim == r.dim && groups[p].group_x == r.group_x
        && groups[p].group_z == r.group_z {
        assert(before[p as int] == groups@[p as int]@);
        let name = r.identifier.clone();
        let group: &mut Group = &mut groups[p];
        group.members.push(name);
        let ghost grown = groups@[p as int]@;
        assert(grown.members =~= before[p as int].members.push(r@.identifier));
        let ghost after = group_views(groups@);
        assert(after =~= before.update(p as int, grown));
        assert forall|i: int| 0 <= i < after.len() implies (#[trigger] after[i]).members == members(
            more,
            after[i].key,
        ) && after[i].members.len() > 0 by {
            if i != p {
                assert(after[i] == before[i]);
                if i < p {
                    assert(place_before(before[i].key, before[p as int].key));
                } else {
                    assert(place_before(before[p as int].key, before[i].key));
                }
            }
        }
        assert forall|k: int| 0 <= k < more.len() implies has_group(
            after,
            record_key(#[trigger] more[k]),
        ) by {
            if k < records.len() {
                assert(has_group(before, record_key(records[k])));
                let w = choose|w: int|
                    0 <= w < before.len() && (#[trigger] before[w]).key == record_key(records[k]);
                assert(after[w].key == before[w].key);
            } else {
                assert(after[p as int].key == key);
            }
        }
        assert forall|i: int, j: int| 0 <= i < j < after.len() implies place_before(
            (#[trigger] after[i]).key,
            (#[trigger] after[j]).key,
        ) by {
            assert(after[i].key == before[i].key && after[j].key == before[j].key);
        }
    } else {
        assert forall|i: int| 0 <= i < before.len() implies (#[trigger] before[i]).key != key by {
            if i == p {
                assert(before[i] == groups@[p as int]@);
            } else if i > p {
                assert(place_before(before[p as int].key, before[i].key));
                assert(!place_before(before[p as int].key, key));
            }
        }
        proof {
            assert forall|k: int| 0 <= k < records.len() implies record_key(
                #[trigger] records[k],
            ) != key by {
                assert(has_group(before, record_key(records[k])));
            }
            lemma_no_members(records, key);
        }
        let mut names: Vec<String> = Vec::new();
        names.push(r.identifier.clone());
        let fresh = Group { dim: r.dim, group_x: r.group_x, group_z: r.group_z, members: names };
        let ghost view = fresh@;
        assert(view.members =~= seq![r@.identifier]);
        assert(members(more, key) =~= view.members);
        groups.insert(p, fresh);
        let ghost after = group_views(groups@);
        assert(after =~= before.insert(p as int, view));
        assert forall|i: int| 0 <= i < after.len() implies (#[trigger] after[i]).members == members(
            more,
            after[i].key,
        ) && after[i].members.len() > 0 by {
            if i < p {
                assert(after[i] == before[i]);
            } else if i > p {
                assert(after[i] == before[i - 1]);
            }
        }
        assert forall|k: int| 0 <= k < more.len() implies has_group(
            after,
            record_key(#[trigger] more[k]),
        ) by {
            if k < records.len() {
                assert(has_group(before, record_key(records[k])));
                let w = choose|w: int|
                    0 <= w < before.len() && (#[trigger] before[w]).key == record_key(records[k]);
                if w < p {
                    assert(after[w] == before[w]);
                } else {
                    assert(after[w + 1] == before[w]);
                }
            } else {
                assert(after[p as int].key == key);
            }
        }
        assert forall|i: int, j: int| 0 <= i < j < after.len() implies place_before(
            (#[trigger] after[i]).key,
            (#[trigger] after[j]).key,
        ) by {
            let a = if i < p {
                i
            } else {
                i - 1
            };
            let b = if j < p {
                j
            } else {
                j - 1
            };
            if i != p && j != p {
                assert(after[i] == before[a] && after[j] == before[b]);
            } else if j == p {
                assert(after[i] == before[i]);
            } else {
                assert(after[j] == before[j - 1]);
                assert(!place_before(before[j - 1].key, key));
                assert(before[j - 1].key != key);
            }
        }
    }
}

/// Groups entities by chunks.
pub fn group_records(records: &Vec<EntityRecord>) -> (r: Vec<Group>)
    ensures
        is_grouping(record_views(records@), group_views(r@)),
{
    let ghost all = record_views(records@);
    let mut out: Vec<Group> = Vec::new();
    for i in 0..records.len()
        invariant
            all == record_views(records@),
            is_grouping(all.take(i as int), group_views(out@)),
    {
        count_record(&mut out, &records[i], Ghost(all.take(i as int)));
        assert(all.take(i as int).push(records@[i as int]@) =~= all.take(i + 1));
    }
    assert(all.take(records@.len() as int) =~= all);
    out
}

/// Whether a group is denser than another: it holds more entities, or as many and comes first by
/// its place.
pub open spec fn denser(a: GroupView, b: GroupView) -> bool {
    a.members.len() > b.members.len() || (a.members.len() == b.members.len() && place_before(
        a.key,
        b.key,
    ))
}

/// Whether a group is one of some.
pub open spec fn is_one_of(g: GroupView, groups: Seq<GroupView>) -> bool {
    exists|k: int| 0 <= k < groups.len() && #[trigger] groups[k] == g
}

/// Whether groups are the densest of all, so many at most, the densest first.
pub open spec fn is_top(groups: Seq<GroupView>, top: Seq<GroupView>, most: int) -> bool {
    &&& top.len() <= most
    &&& forall|i: int, j: int|
        0 <= i < j < top.len() ==> denser(#[trigger] top[i], #[trigger] top[j])
    &&& forall|i: int| 0 <= i < top.len() ==> is_one_of(#[trigger] top[i], groups)
    &&& forall|k: int|
        0 <= k < groups.len() ==> is_one_of(#[trigger] groups[k], top) || (top.len() == most
            && all_denser(top, groups[k]))
}

/// Whether all of some groups are denser than another.
pub open spec fn all_denser(top: Seq<GroupView>, g: GroupView) -> bool {
    forall|i: int| 0 <= i < top.len() ==> denser(#[trigger] top[i], g)
}

/// The groups at given places of a list.
pub open spec fn picked(groups: Seq<GroupView>, places: Seq<usize>) -> Seq<GroupView> {
    places.map_values(|p: usize| groups[p as int])
}

fn is_denser(a: &Group, b: &Group) -> (r: bool)
    ensures
        r == denser(a@, b@),
{
    a.members.len() > b.members.len() || (a.members.len() == b.members.len() && (a.dim < b.dim || (
    a.dim == b.dim && (a.group_x < b.group_x || (a.group_x == b.group_x && a.group_z
        < b.group_z)))))
}

fn offer_group(groups: &Vec<Group>, top: &mut Vec<usize>, n: usize, most: usize)
    requires
        n < groups@.len(),
        most > 0,
        forall|i: int, j: int|
            0 <= i < j < groups@.len() ==> place_before(
                (#[trigger] group_views(groups@)[i]).key,
                (#[trigger] group_views(groups@)[j]).key,
            ),
        forall|k: int| 0 <= k < old(top)@.len() ==> (#[trigger] old(top)@[k]) < n,
        is_top(
            group_views(groups@).take(n as int),
            picked(group_views(groups@), old(top)@),
            most as int,
        ),
    ensures
        forall|k: int| 0 <= k < final(top)@.len() ==> (#[trigger] final(top)@[k]) < n + 1,
        is_top(
            group_views(groups@).take(n + 1),
            picked(group_views(groups@), final(top)@),
            most as int,
        ),
{
    let ghost all = group_views(groups@);
    let ghost g = all[n as int];
    let ghost places = top@;
    let ghost before = picked(all, top@);
    let ghost seen = all.take(n as int);
    let ghost more = all.take(n + 1);
    assert(more =~= seen.push(g));
    assert(groups@[n as int]@ == g);
    assert forall|k: int| 0 <= k < before.len() implies (#[trigger] before[k]).key != g.key by {
        assert(place_before(all[places[k] as int].key, all[n as int].key));
    }
    let mut p: usize = 0;
    while p < top.len() && !is_denser(&groups[n], &groups[top[p]])
        invariant
            top@ == places,
            all == group_views(groups@),
            before == picked(all, places),
            n < groups@.len(),
            g == all[n as int],
            groups@[n as int]@ == g,
            p <= top@.len(),
            forall|k: int| 0 <= k < places.len() ==> (#[trigger] places[k]) < n,
            forall|k: int| 0 <= k < p ==> !denser(g, #[trigger] before[k]),
        decreases top@.len() - p,
    {
        assert(before[p as int] == groups@[places[p as int] as int]@);
        p += 1;
    }
    if p < top.len() {
        assert(before[p as int] == groups@[places[p as int] as int]@);
        assert(denser(g, before[p as int]));
    }
    assert forall|k: int| 0 <= k < p implies denser(#[trigger] before[k], g) by {
        assert(!denser(g, before[k]));
    }
    if p < top.len() || top.len() < most {
        top.insert(p, n);
        let ghost mid = picked(all, top@);
        assert(mid =~= before.insert(p as int, g));
        assert forall|i: int, j: int| 0 <= i < j < mid.len() implies denser(
            #[trigger] mid[i],
            #[trigger] mid[j],
        ) by {
            let a = if i < p {
                i
            } else {
                i - 1
            };
            let b = if j < p {
                j
            } else {
                j - 1
            };
            if i != p && j != p {
                assert(mid[i] == before[a] && mid[j] == before[b]);
            } else if j == p {
                assert(mid[i] == before[i]);
            } else {
                assert(mid[j] == before[j - 1]);
                if j - 1 > p {
                    assert(denser(before[p as int], before[j - 1]));
                }
            }
        }
        assert forall|i: int| 0 <= i < mid.len() implies is_one_of(#[trigger] mid[i], more) by {
            if i == p {
                assert(more[n as int] == mid[i]);
            } else {
                let a = if i < p {
                    i
                } else {
                    i - 1
                };
                assert(mid[i] == before[a]);
                assert(more[places[a] as int] == mid[i]);
            }
        }
        if top.len() > most {
            let ghost last = mid.last();
            top.pop();
            let ghost after = picked(all, top@);
            assert(after =~= mid.drop_last());
            assert forall|k: int| 0 <= k < more.len() implies is_one_of(#[trigger] more[k], after)
                || (after.len() == most && all_denser(after, more[k])) by {
                if k == n {
                    assert(mid[p as int] == more[k]);
                    assert(after[p as int] == more[k]);
                } else {
                    assert(more[k] == seen[k]);
                    if is_one_of(seen[k], before) {
                        let w = choose|w: int| 0 <= w < before.len() && #[trigger] before[w] == seen[k];
                        let v = if w < p {
                            w
                        } else {
                            w + 1
                        };
                        assert(mid[v] == seen[k]);
                        if v < after.len() {
                            assert(after[v] == seen[k]);
                        } else {
                            assert forall|i: int| 0 <= i < after.len() implies denser(
                                #[trigger] after[i],
                                more[k],
                            ) by {
                                assert(denser(mid[i], mid[v]));
                            }
                        }
                    } else {
                        assert(all_denser(before, seen[k]));
                        assert forall|i: int| 0 <= i < after.len() implies denser(
                            #[trigger] after[i],
                            more[k],
                        ) by {
                            assert(denser(before[p as int], seen[k]));
                            if i < p {
                                assert(after[i] == before[i]);
                            } else if i > p {
                                assert(after[i] == before[i - 1]);
                            }
                        }
                    }
                }
            }
            assert forall|i: int| 0 <= i < after.len() implies is_one_of(#[trigger] after[i], more) by {
                assert(after[i] == mid[i]);
            }
            assert forall|i: int, j: int| 0 <= i < j < after.len() implies denser(
                #[trigger] after[i],
                #[trigger] after[j],
            ) by {
                assert(denser(mid[i], mid[j]));
            }
        } else {
            assert forall|k: int| 0 <= k < more.len() implies is_one_of(#[trigger] more[k], mid) by {
                if k == n {
                    assert(mid[p as int] == more[k]);
                } else {
                    assert(more[k] == seen[k]);
                    assert(is_one_of(seen[k], before));
                    let w = choose|w: int| 0 <= w < before.len() && #[trigger] before[w] == seen[k];
                    if w < p {
                        assert(mid[w] == more[k]);
                    } else {
                        assert(mid[w + 1] == more[k]);
                    }
                }
            }
        }
    } else {
        assert(all_denser(before, g));
        assert forall|k: int| 0 <= k < more.len() implies is_one_of(#[trigger] more[k], before) || (
        before.len() == most && all_denser(before, more[k])) by {
            if k < n {
                assert(more[k] == seen[k]);
            }
        }
        assert forall|i: int| 0 <= i < before.len() implies is_one_of(#[trigger] before[i], more) by {
            assert(more[places[i] as int] == before[i]);
        }
    }
}

/// The places of the densest groups, so many at most, the densest first.
pub fn densest(groups: &Vec<Group>, most: usize) -> (r: Vec<usize>)
    requires
        most > 0,
        forall|i: int, j: int|
            0 <= i < j < groups@.len() ==> place_before(
                (#[trigger] group_views(groups@)[i]).key,
                (#[trigger] group_views(groups@)[j]).key,
            ),
    ensures
        forall|k: int| 0 <= k < r@.len() ==> (#[trigger] r@[k]) < groups@.len(),
        is_top(group_views(groups@), picked(group_views(groups@), r@), most as int),
{
    let ghost all = group_views(groups@);
    let mut top: Vec<usize> = Vec::new();
    for n in 0..groups.len()
        invariant
            all == group_views(groups@),
            most > 0,
            forall|i: int, j: int|
                0 <= i < j < groups@.len() ==> place_before(
                    (#[trigger] all[i]).key,
                    (#[trigger] all[j]).key,
                ),
            forall|k: int| 0 <= k < top@.len() ==> (#[trigger] top@[k]) < n,
            is_top(all.take(n as int), picked(all, top@), most as int),
    {
        offer_group(groups, &mut top, n, most);
    }
    assert(all.take(groups@.len() as int) =~= all);
    top
}

/// The ranking of names.
pub open spec fn ranking_of(names: Seq<Seq<char>>) -> Seq<TallyView> {
    choose|r: Seq<TallyView>| is_ranking(names, r)
}

/// How many records are in a dimension.
pub open spec fn dim_count(records: Seq<RecordView>, dim: int) -> nat
    decreases records.len(),
{
    if records.len() == 0 {
        0
    } else if records.last().dim == dim {
        dim_count(records.drop_last(), dim) + 1
    } else {
        dim_count(records.drop_last(), dim)
    }
}

/// The pieces of the first `n` dimensions: those in which there are entities.
pub open spec fn dim_pieces(records: Seq<RecordView>, n: nat) -> Seq<PieceView>
    decreases n,
{
    if n == 0 {
        Seq::empty()
    } else {
        let d = n - 1;
        dim_pieces(records, d as nat) + if dim_count(records, d) > 0 {
            seq![
                words("  "@),
                words(dim_name(d)),
                words(": "@),
                PieceView::Int(dim_count(records, d) as int),
            ]
        } else {
            Seq::empty()
        }
    }
}

/// Half of an integer, rounded toward zero.
pub open spec fn half(v: int) -> int {
    if v >= 0 {
        v / 2
    } else {
        -((-v) / 2)
    }
}

/// The first chunk of a group along one axis.
pub open spec fn group_min(g: int, size: int) -> int {
    g * size
}

/// The last chunk of a group along one axis.
pub open spec fn group_max(g: int, size: int) -> int {
    g * size + size - 1
}

/// The middle block of the middle chunk of a group along one axis.
pub open spec fn group_middle(g: int, size: int) -> int {
    half(group_min(g, size) + group_max(g, size)) * 16 + 8
}

/// The line of one type in a group.
pub open spec fn member_line(t: TallyView) -> LineView {
    seq![words("        "@), words(t.name), words(": "@), PieceView::Int(t.count as int)]
}

/// The lines of the first five types in a group.
pub open spec fn member_lines(ranking: Seq<TallyView>) -> Seq<LineView> {
    Seq::new(
        if ranking.len() < 5 {
            ranking.len()
        } else {
            5
        },
        |i: int| member_line(ranking[i]),
    )
}

/// The line of a group: its rank, where it lies and where its middle is.
pub open spec fn group_line(g: GroupView, rank: int, size: int) -> LineView {
    seq![
        words("\n  #"@),
        PieceView::Int(rank),
        words("  ["@),
        words(dim_name(g.key.0 as int)),
        words("] 区块组 ("@),
        PieceView::Int(group_min(g.key.1, size)),
        words(", "@),
        PieceView::Int(group_min(g.key.2, size)),
        words(") ~ ("@),
        PieceView::Int(group_max(g.key.1, size)),
        words(", "@),
        PieceView::Int(group_max(g.key.2, size)),
        words(")  中点方块 ("@),
        PieceView::Int(group_middle(g.key.1, size)),
        words(", "@),
        PieceView::Int(group_middle(g.key.2, size)),
        words(")"@),
    ]
}

/// The lines of a group: its place, how many entities it holds, and its most frequent types.
pub open spec fn group_lines(g: GroupView, rank: int, size: int) -> Seq<LineView> {
    seq![
        group_line(g, rank, size),
        seq![words("      实体总数: "@), PieceView::Int(g.members.len() as int)],
        seq![words("      Top 实体:"@)],
    ] + member_lines(ranking_of(g.members))
}

/// The lines of groups, ranked from one.
pub open spec fn top_lines(top: Seq<GroupView>, size: int) -> Seq<LineView>
    decreases top.len(),
{
    if top.len() == 0 {
        Seq::empty()
    } else {
        top_lines(top.drop_last(), size) + group_lines(top.last(), top.len() as int, size)
    }
}

/// The lines of an analysis: how many actors there are, how many entities in each dimension, how
/// many groups, and the densest of them.
pub open spec fn density_lines(
    total: int,
    size: int,
    records: Seq<RecordView>,
    groups: Seq<GroupView>,
    top: Seq<GroupView>,
) -> Seq<LineView> {
    if total == 0 {
        seq![seq![words("\n═══ 区块实体密度分析 ═══\n  存档中无实体数据"@)]]
    } else {
        seq![
            seq![
                words("\n═══ 区块实体密度 Top 5 ("@),
                PieceView::Int(size),
                words("×"@),
                PieceView::Int(size),
                words(" 区块组) ═══"@),
            ],
            seq![words("  实体总数: "@), PieceView::Int(total)] + dim_pieces(records, 256) + seq![
                words("  区块组: "@),
                PieceView::Int(groups.len() as int),
            ],
        ] + top_lines(top, size)
    }
}

fn count_dim(records: &Vec<EntityRecord>, dim: u8) -> (r: usize)
    ensures
        r == dim_count(record_views(records@), dim as int),
{
    let ghost all = record_views(records@);
    let mut count: usize = 0;
    for i in 0..records.len()
        invariant
            all == record_views(records@),
            count <= i,
            count == dim_count(all.take(i as int), dim as int),
    {
        assert(all.take(i + 1).drop_last() =~= all.take(i as int));
        assert(all.take(i + 1).last() == records@[i as int]@);
        if records[i].dim == dim {
            count += 1;
        }
    }
    assert(all.take(records@.len() as int) =~= all);
    count
}

fn put_dims(line: Line, records: &Vec<EntityRecord>) -> (r: Line)
    ensures
        r@ == line@ + dim_pieces(record_views(records@), 256),
{
    let ghost start = line@;
    let ghost all = record_views(records@);
    let mut out = line;
    assert(out@ =~= start + dim_pieces(all, 0));
    for d in 0..256usize
        invariant
            all == record_views(records@),
            out@ == start + dim_pieces(all, d as nat),
    {
        let dim: u8 = d as u8;
        let n: usize = count_dim(records, dim);
        let ghost before = out@;
        if n > 0 {
            out = out.text("  ").text(dim_label(dim)).text(": ").count(n);
        }
        assert(out@ =~= start + dim_pieces(all, (d + 1) as nat));
    }
    out
}

fn middle(min: i64, max: i64) -> (r: i64)
    requires
        -0x1_0000_0000_0000 < min <= max < 0x1_0000_0000_0000,
    ensures
        r == half(min + max) * 16 + 8,
{
    let sum: i64 = min + max;
    let h: i64 = if sum >= 0 {
        sum / 2
    } else {
        -((-sum) / 2)
    };
    h * 16 + 8
}

fn lines_of_group(g: &Group, rank: usize, size: u32) -> (r: Vec<Line>)
    requires
        1 <= size <= 256,
    ensures
        line_views(r@) == group_lines(g@, rank as int, size as int),
{
    let gs: i64 = size as i64;
    let gx: i64 = g.group_x as i64;
    let gz: i64 = g.group_z as i64;
    assert(-0x100_0000_0000 <= gx * gs <= 0x100_0000_0000) by (nonlinear_arith)
        requires
            -0x8000_0000 <= gx <= 0x7fff_ffff,
            1 <= gs <= 256,
    ;
    assert(-0x100_0000_0000 <= gz * gs <= 0x100_0000_0000) by (nonlinear_arith)
        requires
            -0x8000_0000 <= gz <= 0x7fff_ffff,
            1 <= gs <= 256,
    ;
    let cx_min: i64 = gx * gs;
    let cz_min: i64 = gz * gs;
    let cx_max: i64 = cx_min + gs - 1;
    let cz_max: i64 = cz_min + gs - 1;
    let mut out: Vec<Line> = Vec::new();
    let head = Line::new().text("\n  #").count(rank).text("  [").text(dim_label(g.dim)).text(
        "] 区块组 (",
    ).number(cx_min).text(", ").number(cz_min).text(") ~ (").number(cx_max).text(", ").number(
        cz_max,
    ).text(")  中点方块 (").number(middle(cx_min, cx_max)).text(", ").number(
        middle(cz_min, cz_max),
    ).text(")");
    assert(head@ =~= group_line(g@, rank as int, size as int));
    push_line(&mut out, head);
    let count = Line::new().text("      实体总数: ").count(g.members.len());
    assert(count@ =~= seq![
        words("      实体总数: "@),
        PieceView::Int(g@.members.len() as int),
    ]);
    push_line(&mut out, count);
    let title = Line::new().text("      Top 实体:");
    assert(title@ =~= seq![words("      Top 实体:"@)]);
    push_line(&mut out, title);
    let ghost start = line_views(out@);
    assert(start =~= seq![head@, count@, title@]);
    let ranking = rank_names(&g.members);
    let ghost tallies = tally_views(ranking@);
    proof {
        law_ranking_is_unique(g@.members, tallies, ranking_of(g@.members));
    }
    let shown: usize = if ranking.len() < 5 {
        ranking.len()
    } else {
        5
    };
    for i in 0..shown
        invariant
            tallies == tally_views(ranking@),
            shown <= ranking@.len(),
            line_views(out@).len() == start.len() + i,
            forall|k: int| 0 <= k < start.len() ==> line_views(out@)[k] == #[trigger] start[k],
            forall|k: int|
                0 <= k < i ==> line_views(out@)[start.len() + k] == member_line(
                    #[trigger] tallies[k],
                ),
    {
        let t = &ranking[i];
        assert(tallies[i as int] == t@);
        let line = Line::new().text("        ").text(t.name.as_str()).text(": ").count(t.count);
        assert(line@ =~= member_line(tallies[i as int]));
        push_line(&mut out, line);
    }
    assert(line_views(out@) =~= start + member_lines(tallies));
    out
}

/// Where entities stand densest, as lines: the five densest groups of chunks among the records
/// of `total` actors.
pub fn density_report(total: usize, records: &Vec<EntityRecord>, group_size: u32) -> (r: Vec<Line>)
    requires
        1 <= group_size <= 256,
    ensures
        exists|groups: Seq<GroupView>, top: Seq<GroupView>|
            {
                &&& #[trigger] is_grouping(record_views(records@), groups)
                &&& #[trigger] is_top(groups, top, 5)
                &&& line_views(r@) == density_lines(
                    total as int,
                    group_size as int,
                    record_views(records@),
                    groups,
                    top,
                )
            },
{
    let groups = group_records(records);
    let top = densest(&groups, 5);
    let ghost all = group_views(groups@);
    let ghost best = picked(all, top@);
    let mut out: Vec<Line> = Vec::new();
    if total == 0 {
        let line = Line::new().text("\n═══ 区块实体密度分析 ═══\n  存档中无实体数据");
        assert(line@ =~= seq![
            words("\n═══ 区块实体密度分析 ═══\n  存档中无实体数据"@),
        ]);
        push_line(&mut out, line);
        assert(line_views(out@) =~= density_lines(
            total as int,
            group_size as int,
            record_views(records@),
            all,
            best,
        ));
        return out;
    }
    let title = Line::new().text("\n═══ 区块实体密度 Top 5 (").number(group_size as i64).text(
        "×",
    ).number(group_size as i64).text(" 区块组) ═══");
    push_line(&mut out, title);
    let start = Line::new().text("  实体总数: ").count(total);
    let counts = put_dims(start, records).text("  区块组: ").count(groups.len());
    push_line(&mut out, counts);
    let ghost front = line_views(out@);
    let ghost expected = density_lines(
        total as int,
        group_size as int,
        record_views(records@),
        all,
        best,
    );
    assert(title@ =~= expected[0]);
    assert(start@ =~= seq![words("  实体总数: "@), PieceView::Int(total as int)]);
    assert(counts@ =~= expected[1]);
    assert(front =~= seq![title@, counts@]);
    assert(line_views(out@) =~= front + top_lines(best.take(0), group_size as int));
    for i in 0..top.len()
        invariant
            1 <= group_size <= 256,
            all == group_views(groups@),
            best == picked(all, top@),
            forall|k: int| 0 <= k < top@.len() ==> (#[trigger] top@[k]) < groups@.len(),
            line_views(out@) == front + top_lines(best.take(i as int), group_size as int),
    {
        assert(best.take(i + 1).drop_last() =~= best.take(i as int));
        assert(best.take(i + 1).last() == groups@[top@[i as int] as int]@);
        push_lines(&mut out, lines_of_group(&groups[top[i]], i + 1, group_size));
        assert(line_views(out@) =~= front + top_lines(best.take(i + 1), group_size as int));
    }
    assert(best.take(top@.len() as int) =~= best);
    assert(line_views(out@) =~= expected);
    out
}

/// A block lies in the chunks of its group.
pub proof fn law_block_in_group(block: i32, group_size: u32)
    requires
        group_size > 0,
    ensures
        ({
            let g = group_of(block as int, group_size as int);
            group_min(g, group_size as int) <= block as int / 16 <= group_max(
                g,
                group_size as int,
            )
        }),
{
    let size = group_size as int;
    let c = block as int / 16;
    assert(wrapped_32(block as int) == block);
    lemma_fundamental_div_mod(c, size);
    lemma_mod_bound(c, size);
    assert(size * (c / size) == (c / size) * size) by (nonlinear_arith);
}

/// The middle block of a group lies in the group.
pub proof fn law_middle_in_group(g: int, size: int)
    requires
        size >= 1,
    ensures
        16 * group_min(g, size) <= group_middle(g, size) < 16 * (group_max(g, size) + 1),
{
}

/// The sum over the first `n` dimensions of how many records are in them.
pub open spec fn dims_total(records: Seq<RecordView>, n: nat) -> nat
    decreases n,
{
    if n == 0 {
        0
    } else {
        dims_total(records, (n - 1) as nat) + dim_count(records, n - 1)
    }
}

proof fn lemma_dims_step(records: Seq<RecordView>, n: nat)
    requires
        records.len() > 0,
    ensures
        dims_total(records, n) == dims_total(records.drop_last(), n) + if records.last().dim < n {
            1nat
        } else {
            0nat
        },
    decreases n,
{
    if n > 0 {
        lemma_dims_step(records, (n - 1) as nat);
    }
}

proof fn lemma_dims_of_nothing(n: nat)
    ensures
        dims_total(Seq::empty(), n) == 0,
    decreases n,
{
    if n > 0 {
        lemma_dims_of_nothing((n - 1) as nat);
    }
}

/// Every entity is counted in exactly one dimension.
pub proof fn law_dims_add_up(records: Seq<RecordView>)
    ensures
        dims_total(records, 256) == records.len(),
    decreases records.len(),
{
    if records.len() == 0 {
        assert(records =~= Seq::empty());
        lemma_dims_of_nothing(256);
    } else {
        lemma_dims_step(records, 256);
        law_dims_add_up(records.drop_last());
    }
}

/// An actor counts for the dimension whose number it holds under `DimensionId`, or else under
/// `Dimension`, in 8, 16 or 32 bits: for that very dimension where the number is one of a byte.
pub proof fn law_actor_dimension(tag: CompoundView, t: TagView, x: i64, z: i64, size: u32)
    requires
        lookup(tag, "DimensionId"@) == Some(t) || (lookup(tag, "DimensionId"@) is None && lookup(
            tag,
            "Dimension"@,
        ) == Some(t)),
        t is Byte || t is Short || t is Int,
    ensures
        spot(tag) matches Some(s) ==> {
            let d = record_of(s, x, z, size).dim as int;
            let v = tag_i32(t)->Some_0 as int;
            &&& (v - d) % 256 == 0
            &&& 0 <= v < 256 ==> d == v
        },
{
}

/// An actor that holds no number of a dimension counts for the overworld.
pub proof fn law_actor_without_dimension(tag: CompoundView, x: i64, z: i64, size: u32)
    requires
        lookup(tag, "DimensionId"@) is None,
        lookup(tag, "Dimension"@) is None,
    ensures
        spot(tag) matches Some(s) ==> record_of(s, x, z, size).dim == 0,
{
}

/// An actor counts under its `identifier`, or else under its `id`.
pub proof fn law_actor_type(tag: CompoundView, name: Seq<char>, x: i64, z: i64, size: u32)
    requires
        lookup(tag, "identifier"@) == Some(TagView::Text(name)) || (lookup(tag, "identifier"@) is None
            && lookup(tag, "id"@) == Some(TagView::Text(name))),
    ensures
        spot(tag) matches Some(s) ==> record_of(s, x, z, size).identifier == name,
{
}

/// An actor stands where the first and the third number of its `Pos` say, and counts exactly if
/// these two are floating-point numbers.
pub proof fn law_actor_position(tag: CompoundView)
    ensures
        match spot(tag) {
            Some(s) => lookup_list(tag, "Pos"@) matches Some(l) && l.len() >= 3 && tag_real(l[0])
                == Some(s.x) && tag_real(l[2]) == Some(s.z),
            None => lookup_list(tag, "Pos"@) matches Some(l) ==> l.len() < 3 || tag_real(l[0]) is None
                || tag_real(l[2]) is None,
        },
{
}

/// An actor counts for the group of chunks in which it stands: its block lies within the blocks of
/// the group, along x and along z.
pub proof fn law_actor_group(s: SpotView, x: i64, z: i64, size: u32)
    requires
        size > 0,
        i32::MIN <= x <= i32::MAX,
        i32::MIN <= z <= i32::MAX,
    ensures
        ({
            let r = record_of(s, x, z, size);
            &&& 16 * (r.group_x * size) <= x < 16 * (r.group_x * size + size)
            &&& 16 * (r.group_z * size) <= z < 16 * (r.group_z * size + size)
        }),
{
    law_block_in_group(x as i32, size);
    law_block_in_group(z as i32, size);
}

/// The members of a group are the types of the records with its dimension and its place along x
/// and z, all of them, in their order.
pub proof fn law_members(records: Seq<RecordView>, dim: u8, gx: int, gz: int) -> (places: Seq<int>)
    ensures
        selects(
            places,
            records.len() as int,
            |i: int| records[i].dim == dim && records[i].group_x == gx && records[i].group_z == gz,
        ),
        places.len() == members(records, (dim, gx, gz)).len(),
        forall|k: int|
            0 <= k < places.len() ==> #[trigger] members(records, (dim, gx, gz))[k]
                == records[places[k]].identifier,
{
    assert(records.take(records.len() as int) =~= records);
    lemma_member_places(records, dim, gx, gz, records.len())
}

proof fn lemma_member_places(records: Seq<RecordView>, dim: u8, gx: int, gz: int, n: nat) -> (places:
    Seq<int>)
    requires
        n <= records.len(),
    ensures
        selects(
            places,
            n as int,
            |i: int| records[i].dim == dim && records[i].group_x == gx && records[i].group_z == gz,
        ),
        places.len() == members(records.take(n as int), (dim, gx, gz)).len(),
        forall|k: int|
            0 <= k < places.len() ==> #[trigger] members(records.take(n as int), (dim, gx, gz))[k]
                == records[places[k]].identifier,
    decreases n,
{
    let wanted = |i: int|
        records[i].dim == dim && records[i].group_x == gx && records[i].group_z == gz;
    if n == 0 {
        lemma_select_none(wanted);
        Seq::empty()
    } else {
        let m = n - 1;
        let before = lemma_member_places(records, dim, gx, gz, m as nat);
        lemma_select_next(before, m, wanted);
        let some = members(records.take(m), (dim, gx, gz));
        let all = members(records.take(n as int), (dim, gx, gz));
        assert(records.take(n as int).drop_last() =~= records.take(m));
        assert(records.take(n as int).last() == records[m]);
        if wanted(m) {
            let places = before.push(m);
            assert(all == some.push(records[m].identifier));
            assert forall|k: int| 0 <= k < places.len() implies #[trigger] all[k]
                == records[places[k]].identifier by {
                if k < some.len() {
                    assert(all[k] == some[k]);
                    assert(places[k] == before[k]);
                }
            }
            places
        } else {
            assert(all == some);
            before
        }
    }
}

/// How many members groups have together.
pub open spec fn members_total(groups: Seq<GroupView>) -> nat
    decreases groups.len(),
{
    if groups.len() == 0 {
        0
    } else {
        members_total(groups.drop_last()) + groups.last().members.len()
    }
}

/// How many of records belong to one of the first `n` groups.
spec fn records_within(records: Seq<RecordView>, groups: Seq<GroupView>, n: nat) -> nat
    decreases n,
{
    if n == 0 {
        0
    } else {
        records_within(records, groups, (n - 1) as nat) + members(
            records,
            groups[n - 1].key,
        ).len()
    }
}

proof fn lemma_within_step(records: Seq<RecordView>, groups: Seq<GroupView>, n: nat)
    requires
        records.len() > 0,
        n <= groups.len(),
        forall|i: int, j: int|
            0 <= i < j < groups.len() ==> (#[trigger] groups[i]).key != (#[trigger] groups[j]).key,
    ensures
        records_within(records, groups, n) == records_within(records.drop_last(), groups, n) + if (
        exists|i: int| 0 <= i < n && (#[trigger] groups[i]).key == record_key(records.last())) {
            1nat
        } else {
            0nat
        },
    decreases n,
{
    if n > 0 {
        let key = record_key(records.last());
        lemma_within_step(records, groups, (n - 1) as nat);
        if groups[n - 1].key == key {
            assert forall|i: int| 0 <= i < n - 1 implies (#[trigger] groups[i]).key != key by {
                assert(groups[i].key != groups[n - 1].key);
            }
        } else if exists|i: int| 0 <= i < n && (#[trigger] groups[i]).key == key {
            let i = choose|i: int| 0 <= i < n && (#[trigger] groups[i]).key == key;
            assert(i < n - 1);
        }
    }
}

proof fn lemma_all_within(records: Seq<RecordView>, groups: Seq<GroupView>)
    requires
        forall|k: int| 0 <= k < records.len() ==> has_group(groups, record_key(#[trigger] records[k])),
        forall|i: int, j: int|
            0 <= i < j < groups.len() ==> (#[trigger] groups[i]).key != (#[trigger] groups[j]).key,
    ensures
        records_within(records, groups, groups.len()) == records.len(),
    decreases records.len(),
{
    if records.len() == 0 {
        lemma_none_within(records, groups, groups.len());
    } else {
        let fewer = records.drop_last();
        assert forall|k: int| 0 <= k < fewer.len() implies has_group(
            groups,
            record_key(#[trigger] fewer[k]),
        ) by {
            assert(fewer[k] == records[k]);
        }
        lemma_all_within(fewer, groups);
        lemma_within_step(records, groups, groups.len());
        assert(has_group(groups, record_key(records[records.len() - 1])));
    }
}

proof fn lemma_none_within(records: Seq<RecordView>, groups: Seq<GroupView>, n: nat)
    requires
        records.len() == 0,
    ensures
        records_within(records, groups, n) == 0,
    decreases n,
{
    if n > 0 {
        lemma_none_within(records, groups, (n - 1) as nat);
    }
}

/// Every entity counts once: the groups have as many members together as there are records.
pub proof fn law_groups_add_up(records: Seq<RecordView>, groups: Seq<GroupView>)
    requires
        is_grouping(records, groups),
    ensures
        members_total(groups) == records.len(),
{
    assert forall|i: int, j: int| 0 <= i < j < groups.len() implies (#[trigger] groups[i]).key != (
    #[trigger] groups[j]).key by {
        assert(place_before(groups[i].key, groups[j].key));
    }
    lemma_all_within(records, groups);
    lemma_total(records, groups, groups.len());
    assert(groups.take(groups.len() as int) =~= groups);
}

proof fn lemma_total(records: Seq<RecordView>, groups: Seq<GroupView>, n: nat)
    requires
        is_grouping(records, groups),
        n <= groups.len(),
    ensures
        members_total(groups.take(n as int)) == records_within(records, groups, n),
    decreases n,
{
    if n > 0 {
        lemma_total(records, groups, (n - 1) as nat);
        assert(groups.take(n as int).drop_last() =~= groups.take(n - 1));
        assert(groups.take(n as int).last() == groups[n - 1]);
        assert(groups[n - 1].members == members(records, groups[n - 1].key));
    }
}

/// The groups that are shown come with the most members first. No group that is left out has more
/// members than one that is shown, and none is left out while there is room. Of groups with as many
/// members the lower dimension, and then the lower place along x and along z, comes first.
pub proof fn law_densest_first(groups: Seq<GroupView>, top: Seq<GroupView>, most: int)
    requires
        is_top(groups, top, most),
    ensures
        top.len() <= most,
        forall|i: int, j: int|
            0 <= i < j < top.len() ==> {
                let a = #[trigger] top[i];
                let b = #[trigger] top[j];
                &&& a.members.len() >= b.members.len()
                &&& a.members.len() == b.members.len() ==> {
                    ||| a.key.0 < b.key.0
                    ||| a.key.0 == b.key.0 && a.key.1 < b.key.1
                    ||| a.key.0 == b.key.0 && a.key.1 == b.key.1 && a.key.2 < b.key.2
                }
            },
        forall|i: int| 0 <= i < top.len() ==> groups.contains(#[trigger] top[i]),
        forall|k: int|
            0 <= k < groups.len() && !top.contains(#[trigger] groups[k]) ==> top.len() == most
                && forall|i: int|
                0 <= i < top.len() ==> (#[trigger] top[i]).members.len() >= groups[k].members.len(),
{
    assert forall|i: int| 0 <= i < top.len() implies groups.contains(#[trigger] top[i]) by {
        assert(is_one_of(top[i], groups));
    }
    assert forall|k: int| 0 <= k < groups.len() && !top.contains(#[trigger] groups[k]) implies
        top.len() == most && forall|i: int|
        0 <= i < top.len() ==> (#[trigger] top[i]).members.len() >= groups[k].members.len() by {
        if is_one_of(groups[k], top) {
            let i = choose|i: int| 0 <= i < top.len() && #[trigger] top[i] == groups[k];
            assert(top.contains(groups[k]));
        }
        assert(all_denser(top, groups[k]));
    }
}

/// A block stands in a group exactly if its chunk lies between the first and the last of the group.
pub proof fn law_group_bounds(block: i32, size: u32, g: int)
    requires
        size > 0,
    ensures
        group_of(block as int, size as int) == g <==> 16 * group_min(g, size as int) <= block < 16 * (
        group_max(g, size as int) + 1),
        group_max(g, size as int) - group_min(g, size as int) + 1 == size,
{
    let n = size as int;
    let own = group_of(block as int, n);
    law_block_in_group(block, size);
    assert(own != g ==> own * n + n <= g * n || g * n + n <= own * n) by (nonlinear_arith)
        requires
            n > 0,
    ;
}

/// The middle of a group is the middle of its blocks, but for groups of an even size, which have
/// their middle at the edge of a chunk: there it is the middle of the chunk on the side of zero.
pub proof fn law_middle(g: int, size: int)
    requires
        size >= 1,
    ensures
        ({
            let low = 16 * (g * size);
            let high = 16 * (g * size + size);
            let twice = 2 * group_middle(g, size);
            &&& size % 2 == 1 ==> twice == low + high
            &&& size % 2 == 0 && g >= 0 ==> twice == low + high - 16
            &&& size % 2 == 0 && g < 0 ==> twice == low + high + 16
        }),
{
    assert(g >= 0 ==> g * size >= 0) by (nonlinear_arith)
        requires
            size >= 1,
    ;
    assert(g < 0 ==> g * size <= -size) by (nonlinear_arith)
        requires
            size >= 1,
    ;
}

/// The line of a group names its rank, its dimension, its first and its last chunk and its middle
/// block, x before z.
pub proof fn law_group_line(g: GroupView, rank: int, size: int)
    ensures
        ({
            let l = group_line(g, rank, size);
            &&& l.len() == 17
            &&& l[1] == PieceView::Int(rank)
            &&& l[3] == words(dim_name(g.key.0 as int))
            &&& l[5] == PieceView::Int(g.key.1 * size)
            &&& l[7] == PieceView::Int(g.key.2 * size)
            &&& l[9] == PieceView::Int(g.key.1 * size + size - 1)
            &&& l[11] == PieceView::Int(g.key.2 * size + size - 1)
            &&& l[13] == PieceView::Int(group_middle(g.key.1, size))
            &&& l[15] == PieceView::Int(group_middle(g.key.2, size))
        }),
        group_lines(g, rank, size)[1].last() == PieceView::Int(g.members.len() as int),
{
}

/// How many entities a dimension has is the number of records with it.
pub proof fn law_dim_count(records: Seq<RecordView>, dim: u8) -> (places: Seq<int>)
    ensures
        selects(places, records.len() as int, |i: int| records[i].dim == dim),
        places.len() == dim_count(records, dim as int),
    decreases records.len(),
{
    assert(records.take(records.len() as int) =~= records);
    lemma_dim_places(records, dim, records.len())
}

proof fn lemma_dim_places(records: Seq<RecordView>, dim: u8, n: nat) -> (places: Seq<int>)
    requires
        n <= records.len(),
    ensures
        selects(places, n as int, |i: int| records[i].dim == dim),
        places.len() == dim_count(records.take(n as int), dim as int),
    decreases n,
{
    let wanted = |i: int| records[i].dim == dim;
    if n == 0 {
        lemma_select_none(wanted);
        Seq::empty()
    } else {
        let m = n - 1;
        let before = lemma_dim_places(records, dim, m as nat);
        lemma_select_next(before, m, wanted);
        assert(records.take(n as int).drop_last() =~= records.take(m));
        assert(records.take(n as int).last() == records[m]);
        if wanted(m) {
            before.push(m)
        } else {
            before
        }
    }
}

/// A group is shown with up to five of the types of its members, in the order of their ranking.
pub proof fn law_member_lines(ranking: Seq<TallyView>, i: int)
    ensures
        member_lines(ranking).len() == if ranking.len() < 5 { ranking.len() } else { 5 },
        0 <= i < member_lines(ranking).len() ==> member_lines(ranking)[i][1] == words(
            ranking[i].name,
        ) && member_lines(ranking)[i][3] == PieceView::Int(ranking[i].count as int),
{
}

/// The groups that are shown are numbered from 1, and each is followed by its members.
pub proof fn law_top_lines(top: Seq<GroupView>, size: int, g: GroupView)
    ensures
        top_lines(Seq::empty(), size).len() == 0,
        top_lines(top.push(g), size) == top_lines(top, size) + group_lines(
            g,
            (top.len() + 1) as int,
            size,
        ),
{
    assert(top.push(g).drop_last() =~= top);
}

/// A dimension with entities is named in the report with their number, and one without is not.
pub proof fn law_dimensions_are_named(records: Seq<RecordView>, n: nat, d: int) -> (at: int)
    requires
        0 <= d < n,
    ensures
        dim_count(records, d) > 0 ==> {
            let p = dim_pieces(records, n);
            &&& 0 <= at && at + 3 < p.len()
            &&& p[at + 1] == words(dim_name(d))
            &&& p[at + 3] == PieceView::Int(dim_count(records, d) as int)
        },
        dim_count(records, n - 1) == 0 ==> dim_pieces(records, n) == dim_pieces(
            records,
            (n - 1) as nat,
        ),
    decreases n,
{
    let rest = dim_pieces(records, (n - 1) as nat);
    assert(dim_count(records, n - 1) == 0 ==> dim_pieces(records, n) =~= rest);
    if d < n - 1 {
        let at = law_dimensions_are_named(records, (n - 1) as nat, d);
        if dim_count(records, d) > 0 {
            assert(dim_pieces(records, n)[at + 1] == rest[at + 1]);
            assert(dim_pieces(records, n)[at + 3] == rest[at + 3]);
        }
        at
    } else {
        rest.len() as int
    }
}

/// A report begins with the size of the groups and the number of entities and of groups.
pub proof fn law_report_head(
    total: int,
    size: int,
    records: Seq<RecordView>,
    groups: Seq<GroupView>,
    top: Seq<GroupView>,
)
    requires
        total > 0,
    ensures
        ({
            let l = density_lines(total, size, records, groups, top);
            &&& l.len() == 2 + top_lines(top, size).len()
            &&& l[0][1] == PieceView::Int(size) && l[0][3] == PieceView::Int(size)
            &&& l[1][1] == PieceView::Int(total)
            &&& l[1].last() == PieceView::Int(groups.len() as int)
            &&& forall|i: int|
                0 <= i < top_lines(top, size).len() ==> #[trigger] l[i + 2] == top_lines(
                    top,
                    size,
                )[i]
        }),
{
}

/// The block of an actor along x comes from the first number of its `Pos`, and that along z from the
/// third. The actor counts for the group in which this block lies.
pub proof fn law_actor_counts_where_it_stands<C: Fn(Real) -> i64>(
    whole: C,
    tag: CompoundView,
    l: Seq<TagView>,
    a: Real,
    b: Real,
    x: i64,
    z: i64,
    size: u32,
)
    requires
        lookup_list(tag, "Pos"@) == Some(l),
        l.len() >= 3,
        tag_real(l[0]) == Some(a),
        tag_real(l[2]) == Some(b),
        spot(tag) matches Some(s) ==> is_whole(whole, s, x, z),
        i32::MIN <= x <= i32::MAX,
        i32::MIN <= z <= i32::MAX,
        size > 0,
    ensures
        call_ensures(whole, (a,), x),
        call_ensures(whole, (b,), z),
        spot(tag) matches Some(s) && 16 * (record_of(s, x, z, size).group_x * size) <= x < 16 * (
        record_of(s, x, z, size).group_x * size + size) && 16 * (record_of(s, x, z, size).group_z
            * size) <= z < 16 * (record_of(s, x, z, size).group_z * size + size),
{
    law_actor_group(spot(tag)->Some_0, x, z, size);
}

} // verus!
