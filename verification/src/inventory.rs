//! A player's items: main inventory, armor and offhand.

use crate::codec::{decodes, encode_one, encodes, is_encoder, Decoded};
use crate::json::{Json, JsonView};
use crate::nbt::{
    list_view, lookup, lookup_i32, lookup_list, lookup_text, CompoundTag, CompoundView, Tag,
    TagView,
};
use crate::nbt_json::{tag_json, tag_to_json};
use crate::selection::{lemma_select_next, lemma_select_none, selects};
use crate::store::lemma_filter_step;
use crate::text::text_is;
use vstd::prelude::*;

verus! {

/// What an NBT item holds.
pub struct RawItem {
    pub slot: i32,
    pub name: Seq<char>,
    pub count: i32,
    pub damage: i32,
    pub tag: Option<TagView>,
}

/// The value of an optional number, 0 where there is none.
pub open spec fn or_zero(v: Option<i32>) -> i32 {
    match v {
        Some(n) => n,
        None => 0,
    }
}

/// The name of an item. One without a name, or with an empty one, is air.
pub open spec fn item_name(c: CompoundView) -> Seq<char> {
    match lookup_text(c, "Name"@) {
        Some(s) => if s.len() == 0 {
            "minecraft:air"@
        } else {
            s
        },
        None => "minecraft:air"@,
    }
}

/// What an element of an item list holds. What is not a compound is air.
pub open spec fn raw_item(elem: TagView) -> RawItem {
    match elem {
        TagView::Compound(c) => RawItem {
            slot: or_zero(lookup_i32(c, "Slot"@)),
            name: item_name(c),
            count: or_zero(lookup_i32(c, "Count"@)),
            damage: or_zero(lookup_i32(c, "Damage"@)),
            tag: lookup(c, "tag"@),
        },
        _ => RawItem { slot: 0, name: "minecraft:air"@, count: 0, damage: 0, tag: None },
    }
}

/// Whether an item is there: it is not air, and there is at least one of it.
pub open spec fn is_there(item: RawItem) -> bool {
    item.count > 0 && item.name != "minecraft:air"@
}

/// An item with another slot.
pub open spec fn in_slot(item: RawItem, slot: i32) -> RawItem {
    RawItem { slot, ..item }
}

/// The elements of the list under a name; none where there is no list.
pub open spec fn elements(tag: CompoundView, name: Seq<char>) -> Seq<TagView> {
    match lookup_list(tag, name) {
        Some(l) => l,
        None => Seq::empty(),
    }
}

/// The items of the main inventory: those in the slots 0 to 35.
pub open spec fn main_items(tag: CompoundView) -> Seq<RawItem> {
    elements(tag, "Inventory"@).map_values(|e: TagView| raw_item(e)).filter(
        |i: RawItem| is_there(i) && 0 <= i.slot <= 35,
    )
}

/// The armor among elements: the first four, in the slots from 100.
pub open spec fn worn(elems: Seq<TagView>) -> Seq<RawItem>
    decreases elems.len(),
{
    if elems.len() == 0 {
        Seq::empty()
    } else {
        let n = elems.len() - 1;
        let rest = worn(elems.drop_last());
        if n < 4 && is_there(raw_item(elems[n])) {
            rest.push(in_slot(raw_item(elems[n]), (100 + n) as i32))
        } else {
            rest
        }
    }
}

/// The items of the armor.
pub open spec fn armor_items(tag: CompoundView) -> Seq<RawItem> {
    worn(elements(tag, "Armor"@))
}

/// The item in the offhand: the first, in slot 104.
pub open spec fn offhand_item(tag: CompoundView) -> Option<RawItem> {
    let elems = elements(tag, "Offhand"@);
    if elems.len() > 0 && is_there(raw_item(elems[0])) {
        Some(in_slot(raw_item(elems[0]), 104))
    } else {
        None
    }
}

/// All items, one part after the other.
pub open spec fn all_items(tag: CompoundView) -> Seq<RawItem> {
    main_items(tag) + armor_items(tag) + match offhand_item(tag) {
        Some(i) => seq![i],
        None => Seq::empty(),
    }
}

/// What an item with its tag in JSON holds.
pub struct ItemView {
    pub slot: i32,
    pub name: Seq<char>,
    pub count: i32,
    pub damage: i32,
    pub tag: Option<JsonView>,
}

/// A single item in an inventory.
pub struct Item {
    pub slot: i32,
    pub name: String,
    pub count: i32,
    pub damage: i32,
    pub tag: Option<Json>,
}

impl View for Item {
    type V = ItemView;

    open spec fn view(&self) -> ItemView {
        ItemView {
            slot: self.slot,
            name: self.name@,
            count: self.count,
            damage: self.damage,
            tag: match self.tag {
                Some(j) => Some(j@),
                None => None,
            },
        }
    }
}

/// What a player's full inventory holds.
pub struct InventoryView {
    pub player_key: Seq<char>,
    pub inventory: Seq<ItemView>,
    pub armor: Seq<ItemView>,
    pub offhand: Option<ItemView>,
}

/// A player's full inventory (main + armor + offhand).
pub struct PlayerInventory {
    pub player_key: String,
    pub inventory: Vec<Item>,
    pub armor: Vec<Item>,
    pub offhand: Option<Item>,
}

/// What items hold.
pub open spec fn item_views(items: Seq<Item>) -> Seq<ItemView> {
    items.map_values(|i: Item| i@)
}

impl View for PlayerInventory {
    type V = InventoryView;

    open spec fn view(&self) -> InventoryView {
        InventoryView {
            player_key: self.player_key@,
            inventory: item_views(self.inventory@),
            armor: item_views(self.armor@),
            offhand: match self.offhand {
                Some(i) => Some(i@),
                None => None,
            },
        }
    }
}

/// An item with its tag in JSON.
pub open spec fn json_item(i: RawItem) -> ItemView {
    ItemView {
        slot: i.slot,
        name: i.name,
        count: i.count,
        damage: i.damage,
        tag: match i.tag {
            Some(t) => Some(tag_json(t)),
            None => None,
        },
    }
}

/// Items with their tags in JSON.
pub open spec fn json_items(items: Seq<RawItem>) -> Seq<ItemView> {
    items.map_values(|i: RawItem| json_item(i))
}

/// The inventory in a player's data.
pub open spec fn inventory_of(player_key: Seq<char>, tag: CompoundView) -> InventoryView {
    InventoryView {
        player_key,
        inventory: json_items(main_items(tag)),
        armor: json_items(armor_items(tag)),
        offhand: match offhand_item(tag) {
            Some(i) => Some(json_item(i)),
            None => None,
        },
    }
}

/// A single item with binary NBT (pre-encoded for inventoryui).
pub struct EncodedItem {
    pub slot: i32,
    pub name: String,
    pub count: i32,
    pub damage: i32,
    pub nbt_bytes: Vec<u8>,
}

/// Whether an item is a given one, with its tag as the encoder writes it. A tag that is not a
/// compound is left out.
pub open spec fn is_encoded<E: Fn(&CompoundTag) -> Vec<u8>>(
    encode: E,
    item: EncodedItem,
    i: RawItem,
) -> bool {
    &&& item.slot == i.slot
    &&& item.name@ == i.name
    &&& item.count == i.count
    &&& item.damage == i.damage
    &&& match i.tag {
        Some(TagView::Compound(c)) => encodes(encode, c, item.nbt_bytes@),
        _ => item.nbt_bytes@.len() == 0,
    }
}

/// Whether items are the given ones, one for one, with their tags as the encoder writes them.
pub open spec fn are_encoded<E: Fn(&CompoundTag) -> Vec<u8>>(
    encode: E,
    items: Seq<EncodedItem>,
    raw: Seq<RawItem>,
) -> bool {
    &&& items.len() == raw.len()
    &&& forall|k: int| 0 <= k < raw.len() ==> is_encoded(encode, #[trigger] items[k], raw[k])
}

/// Whether a decoder reads a compound back from whatever an encoder writes of it.
pub open spec fn reads_back<F: Fn(&[u8]) -> Option<Decoded>, E: Fn(&CompoundTag) -> Vec<u8>>(
    decode: F,
    encode: E,
    c: CompoundView,
) -> bool {
    forall|bytes: Seq<u8>, t: Option<CompoundView>|
        #[trigger] encodes(encode, c, bytes) && #[trigger] decodes(decode, bytes, t) ==> t == Some(
            c,
        )
}

/// Whether an item is a given one and nothing of it is lost: a decoder reads its tag back from
/// its bytes. There are no bytes where there is no tag.
pub open spec fn holds_item<F: Fn(&[u8]) -> Option<Decoded>>(
    decode: F,
    item: EncodedItem,
    i: RawItem,
) -> bool {
    &&& item.slot == json_item(i).slot
    &&& item.name@ == json_item(i).name
    &&& item.count == json_item(i).count
    &&& item.damage == json_item(i).damage
    &&& match i.tag {
        Some(TagView::Compound(c)) => forall|t: Option<CompoundView>| #[trigger]
            decodes(decode, item.nbt_bytes@, t) ==> t == Some(c),
        _ => item.nbt_bytes@.len() == 0,
    }
}

/// The binary form of an item loses nothing: where the decoder reads its tag back from what the
/// encoder writes, the bytes of the item decode to its tag, and the other values are those of
/// its JSON form.
pub proof fn law_encoded_item_is_whole<
    F: Fn(&[u8]) -> Option<Decoded>,
    E: Fn(&CompoundTag) -> Vec<u8>,
>(decode: F, encode: E, item: EncodedItem, i: RawItem)
    requires
        is_encoded(encode, item, i),
        i.tag matches Some(TagView::Compound(c)) ==> reads_back(decode, encode, c),
    ensures
        holds_item(decode, item, i),
{
}

/// The binary form of an inventory holds the items of its JSON form, part after part, and loses
/// nothing of any.
pub proof fn law_encoded_inventory_is_whole<
    F: Fn(&[u8]) -> Option<Decoded>,
    E: Fn(&CompoundTag) -> Vec<u8>,
>(decode: F, encode: E, items: Seq<EncodedItem>, player_key: Seq<char>, tag: CompoundView)
    requires
        are_encoded(encode, items, all_items(tag)),
        forall|k: int|
            0 <= k < items.len() ==> ((#[trigger] all_items(tag)[k]).tag matches Some(
                TagView::Compound(c),
            ) ==> reads_back(decode, encode, c)),
    ensures
        ({
            let v = inventory_of(player_key, tag);
            let shown = v.inventory + v.armor + match v.offhand {
                Some(i) => seq![i],
                None => Seq::empty(),
            };
            &&& items.len() == shown.len()
            &&& shown == json_items(all_items(tag))
            &&& forall|k: int|
                0 <= k < items.len() ==> holds_item(decode, #[trigger] items[k], all_items(tag)[k])
        }),
{
    let v = inventory_of(player_key, tag);
    let shown = v.inventory + v.armor + match v.offhand {
        Some(i) => seq![i],
        None => Seq::empty(),
    };
    assert(shown =~= json_items(all_items(tag)));
    assert forall|k: int| 0 <= k < items.len() implies holds_item(
        decode,
        #[trigger] items[k],
        all_items(tag)[k],
    ) by {
        law_encoded_item_is_whole(decode, encode, items[k], all_items(tag)[k]);
    }
}

fn number_under(ct: &CompoundTag, name: &str) -> (r: i32)
    ensures
        r == or_zero(lookup_i32(ct@, name@)),
{
    match ct.get_i32(name) {
        Some(v) => v,
        None => 0,
    }
}

fn name_of(ct: &CompoundTag) -> (r: String)
    ensures
        r@ == item_name(ct@),
{
    match ct.get_text("Name") {
        Some(s) => if s.is_empty() {
            "minecraft:air".to_owned()
        } else {
            s.to_owned()
        },
        None => "minecraft:air".to_owned(),
    }
}

/// An element of an item list, with its tag in JSON.
pub fn inventory_item_to_json(elem: &Tag) -> (r: Item)
    ensures
        r@ == json_item(raw_item(elem@)),
{
    match elem {
        Tag::Compound(ct) => {
            let tag = match ct.get("tag") {
                Some(t) => Some(tag_to_json(t)),
                None => None,
            };
            Item {
                slot: number_under(ct, "Slot"),
                name: name_of(ct),
                count: number_under(ct, "Count"),
                damage: number_under(ct, "Damage"),
                tag,
            }
        },
        _ => Item { slot: 0, name: "minecraft:air".to_owned(), count: 0, damage: 0, tag: None },
    }
}

/// An element of an item list, with its tag as the encoder writes it.
pub fn inventory_item_to_encoded<E: Fn(&CompoundTag) -> Vec<u8>>(elem: &Tag, encode: &E) -> (r:
    EncodedItem)
    requires
        is_encoder(*encode),
    ensures
        is_encoded(*encode, r, raw_item(elem@)),
{
    match elem {
        Tag::Compound(ct) => {
            let nbt_bytes = match ct.get_compound("tag") {
                Some(c) => encode_one(encode, c),
                None => Vec::new(),
            };
            EncodedItem {
                slot: number_under(ct, "Slot"),
                name: name_of(ct),
                count: number_under(ct, "Count"),
                damage: number_under(ct, "Damage"),
                nbt_bytes,
            }
        },
        _ => EncodedItem {
            slot: 0,
            name: "minecraft:air".to_owned(),
            count: 0,
            damage: 0,
            nbt_bytes: Vec::new(),
        },
    }
}

fn there(name: &String, count: i32) -> (r: bool)
    ensures
        r == (count > 0 && name@ != "minecraft:air"@),
{
    count > 0 && !text_is(name.as_str(), "minecraft:air")
}

fn json_main(elems: &Vec<Tag>) -> (r: Vec<Item>)
    ensures
        item_views(r@) == json_items(
            list_view(elems@).map_values(|e: TagView| raw_item(e)).filter(
                |i: RawItem| is_there(i) && 0 <= i.slot <= 35,
            ),
        ),
{
    let ghost raw = list_view(elems@).map_values(|e: TagView| raw_item(e));
    let ghost keep = |i: RawItem| is_there(i) && 0 <= i.slot <= 35;
    let mut out: Vec<Item> = Vec::new();
    assert(raw.take(0).filter(keep) =~= Seq::empty()) by {
        reveal(Seq::filter);
    }
    assert(item_views(out@) =~= json_items(raw.take(0).filter(keep)));
    for k in 0..elems.len()
        invariant
            raw == list_view(elems@).map_values(|e: TagView| raw_item(e)),
            keep == (|i: RawItem| is_there(i) && 0 <= i.slot <= 35),
            item_views(out@) == json_items(raw.take(k as int).filter(keep)),
    {
        let ghost before = raw.take(k as int).filter(keep);
        let ghost views = item_views(out@);
        proof {
            lemma_filter_step(raw, keep, k as int);
        }
        let item = inventory_item_to_json(&elems[k]);
        let ghost view = item@;
        assert(view == json_item(raw[k as int]));
        if there(&item.name, item.count) && item.slot >= 0 && item.slot <= 35 {
            out.push(item);
            assert(item_views(out@) =~= views.push(view));
            assert(json_items(before.push(raw[k as int])) =~= json_items(before).push(view));
        }
    }
    assert(raw.take(elems@.len() as int) =~= raw);
    out
}

fn json_armor(elems: &Vec<Tag>) -> (r: Vec<Item>)
    ensures
        item_views(r@) == json_items(worn(list_view(elems@))),
{
    let ghost all = list_view(elems@);
    let mut out: Vec<Item> = Vec::new();
    assert(item_views(out@) =~= json_items(worn(all.take(0))));
    for k in 0..elems.len()
        invariant
            all == list_view(elems@),
            item_views(out@) == json_items(worn(all.take(k as int))),
    {
        let ghost before = worn(all.take(k as int));
        let ghost views = item_views(out@);
        assert(all.take(k + 1).drop_last() =~= all.take(k as int));
        assert(all.take(k + 1).last() == elems@[k as int]@);
        if k < 4 {
            let mut item = inventory_item_to_json(&elems[k]);
            if there(&item.name, item.count) {
                item.slot = 100 + k as i32;
                let ghost view = item@;
                out.push(item);
                let ghost worn_item = in_slot(raw_item(elems@[k as int]@), (100 + k) as i32);
                assert(view == json_item(worn_item));
                assert(item_views(out@) =~= views.push(view));
                assert(json_items(before.push(worn_item)) =~= json_items(before).push(view));
            }
        }
    }
    assert(all.take(elems@.len() as int) =~= all);
    out
}

/// The inventory in a player's data.
pub fn build_player_inventory(player_key: &str, tag: &CompoundTag) -> (r: PlayerInventory)
    ensures
        r@ == inventory_of(player_key@, tag@),
{
    proof {
        reveal(Seq::filter);
    }
    let inventory = match tag.get_list("Inventory") {
        Some(l) => json_main(l),
        None => Vec::new(),
    };
    assert(item_views(inventory@) =~= json_items(main_items(tag@)));
    let armor = match tag.get_list("Armor") {
        Some(l) => json_armor(l),
        None => Vec::new(),
    };
    assert(item_views(armor@) =~= json_items(armor_items(tag@)));
    let mut offhand: Option<Item> = None;
    if let Some(l) = tag.get_list("Offhand") {
        if l.len() > 0 {
            assert(list_view(l@)[0] == l@[0]@);
            let mut item = inventory_item_to_json(&l[0]);
            if there(&item.name, item.count) {
                item.slot = 104;
                offhand = Some(item);
            }
        }
    }
    PlayerInventory { player_key: player_key.to_owned(), inventory, armor, offhand }
}

fn encoded_main<E: Fn(&CompoundTag) -> Vec<u8>>(elems: &Vec<Tag>, encode: &E) -> (r: Vec<
    EncodedItem,
>)
    requires
        is_encoder(*encode),
    ensures
        are_encoded(
            *encode,
            r@,
            list_view(elems@).map_values(|e: TagView| raw_item(e)).filter(
                |i: RawItem| is_there(i) && 0 <= i.slot <= 35,
            ),
        ),
{
    let ghost raw = list_view(elems@).map_values(|e: TagView| raw_item(e));
    let ghost keep = |i: RawItem| is_there(i) && 0 <= i.slot <= 35;
    let mut out: Vec<EncodedItem> = Vec::new();
    assert(raw.take(0).filter(keep) =~= Seq::empty()) by {
        reveal(Seq::filter);
    }
    for k in 0..elems.len()
        invariant
            is_encoder(*encode),
            raw == list_view(elems@).map_values(|e: TagView| raw_item(e)),
            keep == (|i: RawItem| is_there(i) && 0 <= i.slot <= 35),
            are_encoded(*encode, out@, raw.take(k as int).filter(keep)),
    {
        proof {
            lemma_filter_step(raw, keep, k as int);
        }
        let item = inventory_item_to_encoded(&elems[k], encode);
        assert(is_encoded(*encode, item, raw[k as int]));
        if there(&item.name, item.count) && item.slot >= 0 && item.slot <= 35 {
            out.push(item);
        }
    }
    assert(raw.take(elems@.len() as int) =~= raw);
    out
}

fn push_encoded_armor<E: Fn(&CompoundTag) -> Vec<u8>>(
    elems: &Vec<Tag>,
    encode: &E,
    out: &mut Vec<EncodedItem>,
    Ghost(before): Ghost<Seq<RawItem>>,
)
    requires
        is_encoder(*encode),
        are_encoded(*encode, old(out)@, before),
    ensures
        are_encoded(*encode, final(out)@, before + worn(list_view(elems@))),
{
    let ghost all = list_view(elems@);
    assert(before + worn(all.take(0)) =~= before);
    for k in 0..elems.len()
        invariant
            is_encoder(*encode),
            all == list_view(elems@),
            are_encoded(*encode, out@, before + worn(all.take(k as int))),
    {
        let ghost so_far = worn(all.take(k as int));
        assert(all.take(k + 1).drop_last() =~= all.take(k as int));
        assert(all.take(k + 1).last() == elems@[k as int]@);
        if k < 4 {
            let mut item = inventory_item_to_encoded(&elems[k], encode);
            if there(&item.name, item.count) {
                item.slot = 100 + k as i32;
                let ghost worn_item = in_slot(raw_item(elems@[k as int]@), (100 + k) as i32);
                assert(is_encoded(*encode, item, worn_item));
                assert(before + so_far.push(worn_item) =~= (before + so_far).push(worn_item));
                out.push(item);
            }
        }
    }
    assert(all.take(elems@.len() as int) =~= all);
}

/// Collects all player items (inventory + armor + offhand) as a flat list, each with its tag as
/// the encoder writes it.
pub fn collect_player_encoded_items<E: Fn(&CompoundTag) -> Vec<u8>>(tag: &CompoundTag, encode: &E)
    -> (r: Vec<EncodedItem>)
    requires
        is_encoder(*encode),
    ensures
        are_encoded(*encode, r@, all_items(tag@)),
{
    proof {
        reveal(Seq::filter);
    }
    let mut items = match tag.get_list("Inventory") {
        Some(l) => encoded_main(l, encode),
        None => Vec::new(),
    };
    assert(are_encoded(*encode, items@, main_items(tag@)));
    let ghost main = main_items(tag@);
    match tag.get_list("Armor") {
        Some(l) => {
            push_encoded_armor(l, encode, &mut items, Ghost(main));
        },
        None => {
            assert(main + armor_items(tag@) =~= main);
        },
    }
    let ghost dressed = main + armor_items(tag@);
    assert(are_encoded(*encode, items@, dressed));
    if let Some(l) = tag.get_list("Offhand") {
        if l.len() > 0 {
            assert(list_view(l@)[0] == l@[0]@);
            let mut item = inventory_item_to_encoded(&l[0], encode);
            if there(&item.name, item.count) {
                item.slot = 104;
                assert(is_encoded(*encode, item, in_slot(raw_item(l@[0]@), 104)));
                items.push(item);
                assert(all_items(tag@) =~= dressed.push(in_slot(raw_item(l@[0]@), 104)));
                return items;
            }
        }
    }
    assert(all_items(tag@) =~= dressed);
    items
}

/// Slots, names, counts and damages of items.
pub open spec fn outline(items: Seq<ItemView>) -> Seq<(i32, Seq<char>, i32, i32)> {
    items.map_values(|i: ItemView| (i.slot, i.name, i.count, i.damage))
}

/// Slots, names, counts and damages of encoded items.
pub open spec fn encoded_outline(items: Seq<EncodedItem>) -> Seq<(i32, Seq<char>, i32, i32)> {
    items.map_values(|i: EncodedItem| (i.slot, i.name@, i.count, i.damage))
}

/// The items of an inventory, one part after the other.
pub open spec fn flattened(inv: InventoryView) -> Seq<ItemView> {
    inv.inventory + inv.armor + match inv.offhand {
        Some(i) => seq![i],
        None => Seq::empty(),
    }
}

/// Both forms of a player's inventory hold the same items in the same order.
pub proof fn law_forms_agree<E: Fn(&CompoundTag) -> Vec<u8>>(
    encode: E,
    items: Seq<EncodedItem>,
    player_key: Seq<char>,
    tag: CompoundView,
)
    requires
        are_encoded(encode, items, all_items(tag)),
    ensures
        encoded_outline(items) == outline(flattened(inventory_of(player_key, tag))),
{
    let raw = all_items(tag);
    let flat = flattened(inventory_of(player_key, tag));
    assert(flat =~= json_items(raw));
    assert forall|k: int| 0 <= k < raw.len() implies encoded_outline(items)[k] == outline(flat)[k] by {
        assert(is_encoded(encode, items[k], raw[k]));
    }
    assert(encoded_outline(items) =~= outline(flat));
}

/// What a filter keeps, it keeps for a reason.
proof fn lemma_filter_holds<A>(s: Seq<A>, f: spec_fn(A) -> bool)
    ensures
        forall|i: int| 0 <= i < s.filter(f).len() ==> f(#[trigger] s.filter(f)[i]),
{
    assert forall|i: int| 0 <= i < s.filter(f).len() implies f(#[trigger] s.filter(f)[i]) by {
        s.lemma_filter_pred(f, i);
    }
}

proof fn lemma_worn_slots(elems: Seq<TagView>)
    ensures
        worn(elems).len() <= 4,
        worn(elems).len() <= elems.len(),
        forall|i: int|
            0 <= i < worn(elems).len() ==> is_there(#[trigger] worn(elems)[i]) && 100 <= worn(
                elems,
            )[i].slot < 104 && worn(elems)[i].slot < 100 + elems.len(),
        forall|i: int, j: int|
            0 <= i < j < worn(elems).len() ==> (#[trigger] worn(elems)[i]).slot < (#[trigger] worn(
                elems,
            )[j]).slot,
    decreases elems.len(),
{
    if elems.len() > 0 {
        lemma_worn_slots(elems.drop_last());
    }
}

/// Every item of an inventory is there, and its slot shows its part: 0 to 35 is the main
/// inventory, 100 to 103 the armor with no slot twice, 104 the offhand.
pub proof fn law_slots(player_key: Seq<char>, tag: CompoundView)
    ensures
        ({
            let inv = inventory_of(player_key, tag);
            &&& forall|i: int|
                0 <= i < inv.inventory.len() ==> 0 <= (#[trigger] inv.inventory[i]).slot <= 35
                    && inv.inventory[i].count > 0 && inv.inventory[i].name != "minecraft:air"@
            &&& inv.armor.len() <= 4
            &&& forall|i: int|
                0 <= i < inv.armor.len() ==> 100 <= (#[trigger] inv.armor[i]).slot <= 103
                    && inv.armor[i].count > 0 && inv.armor[i].name != "minecraft:air"@
            &&& forall|i: int, j: int|
                0 <= i < j < inv.armor.len() ==> (#[trigger] inv.armor[i]).slot < (
                #[trigger] inv.armor[j]).slot
            &&& inv.offhand matches Some(o) ==> o.slot == 104 && o.count > 0 && o.name
                != "minecraft:air"@
        }),
{
    let inv = inventory_of(player_key, tag);
    let keep = |i: RawItem| is_there(i) && 0 <= i.slot <= 35;
    let main = main_items(tag);
    lemma_filter_holds(elements(tag, "Inventory"@).map_values(|e: TagView| raw_item(e)), keep);
    assert forall|i: int| 0 <= i < inv.inventory.len() implies 0 <= (
    #[trigger] inv.inventory[i]).slot <= 35 && inv.inventory[i].count > 0
        && inv.inventory[i].name != "minecraft:air"@ by {
        assert(keep(main[i]));
    }
    let worn_items = armor_items(tag);
    lemma_worn_slots(elements(tag, "Armor"@));
    assert forall|i: int| 0 <= i < inv.armor.len() implies 100 <= (#[trigger] inv.armor[i]).slot
        <= 103 && inv.armor[i].count > 0 && inv.armor[i].name != "minecraft:air"@ by {
        assert(is_there(worn_items[i]));
    }
    assert forall|i: int, j: int| 0 <= i < j < inv.armor.len() implies (
    #[trigger] inv.armor[i]).slot < (#[trigger] inv.armor[j]).slot by {
        assert(worn_items[i].slot < worn_items[j].slot);
    }
}

/// Whether an element of an item list is an item: it has a name, which is neither empty nor that
/// of air, and a count above zero.
pub open spec fn is_item(e: TagView) -> bool {
    &&& e is Compound
    &&& lookup_text(e->Compound_0, "Name"@) matches Some(s) && s.len() > 0 && s
        != "minecraft:air"@
    &&& lookup_i32(e->Compound_0, "Count"@) matches Some(n) && n > 0
}

/// The slot that an element of an item list names, or zero.
pub open spec fn named_slot(e: TagView) -> int {
    match lookup_i32(e->Compound_0, "Slot"@) {
        Some(s) => s as int,
        None => 0,
    }
}

/// Whether an item is the one that an element of an item list describes, in a slot.
pub open spec fn shows(item: ItemView, e: TagView, slot: int) -> bool {
    &&& item.slot == slot
    &&& e is Compound
    &&& lookup_text(e->Compound_0, "Name"@) == Some(item.name)
    &&& lookup_i32(e->Compound_0, "Count"@) == Some(item.count)
    &&& lookup_i32(e->Compound_0, "Damage"@) == Some(item.damage) || (item.damage == 0
        && lookup_i32(e->Compound_0, "Damage"@) is None)
    &&& match lookup(e->Compound_0, "tag"@) {
        Some(t) => item.tag == Some(tag_json(t)),
        None => item.tag is None,
    }
}

/// The main inventory holds the items of the list `Inventory` whose slot is from 0 to 35, all of
/// them, in their order and in their slots, and nothing else.
pub proof fn law_main_inventory(player_key: Seq<char>, tag: CompoundView, l: Seq<TagView>) -> (
places: Seq<int>)
    requires
        lookup_list(tag, "Inventory"@) == Some(l),
    ensures
        selects(places, l.len() as int, |i: int| is_item(l[i]) && 0 <= named_slot(l[i]) <= 35),
        places.len() == inventory_of(player_key, tag).inventory.len(),
        forall|k: int|
            0 <= k < places.len() ==> shows(
                #[trigger] inventory_of(player_key, tag).inventory[k],
                l[places[k]],
                named_slot(l[places[k]]),
            ),
{
    let raw = l.map_values(|e: TagView| raw_item(e));
    let keep = |i: RawItem| is_there(i) && 0 <= i.slot <= 35;
    let places = lemma_main_places(l, l.len());
    assert(raw.take(l.len() as int) =~= raw);
    assert(main_items(tag) == raw.filter(keep));
    places
}

proof fn lemma_main_places(l: Seq<TagView>, n: nat) -> (places: Seq<int>)
    requires
        n <= l.len(),
    ensures
        selects(places, n as int, |i: int| is_item(l[i]) && 0 <= named_slot(l[i]) <= 35),
        ({
            let raw = l.map_values(|e: TagView| raw_item(e));
            let kept = raw.take(n as int).filter(
                |i: RawItem| is_there(i) && 0 <= i.slot <= 35,
            );
            &&& places.len() == kept.len()
            &&& forall|k: int|
                0 <= k < kept.len() ==> shows(
                    json_item(#[trigger] kept[k]),
                    l[places[k]],
                    named_slot(l[places[k]]),
                )
        }),
    decreases n,
{
    let raw = l.map_values(|e: TagView| raw_item(e));
    let keep = |i: RawItem| is_there(i) && 0 <= i.slot <= 35;
    let wanted = |i: int| is_item(l[i]) && 0 <= named_slot(l[i]) <= 35;
    if n == 0 {
        assert(raw.take(0) =~= Seq::empty());
        reveal(Seq::filter);
        lemma_select_none(wanted);
        Seq::empty()
    } else {
        let m = n - 1;
        let before = lemma_main_places(l, m as nat);
        let some = raw.take(m).filter(keep);
        let kept = raw.take(n as int).filter(keep);
        lemma_filter_step(raw, keep, m);
        lemma_select_next(before, m, wanted);
        assert(raw[m] == raw_item(l[m]));
        if wanted(m) {
            assert(keep(raw[m]));
            let places = before.push(m);
            assert forall|k: int| 0 <= k < kept.len() implies shows(
                json_item(#[trigger] kept[k]),
                l[places[k]],
                named_slot(l[places[k]]),
            ) by {
                if k < m && k < some.len() {
                    assert(kept[k] == some[k]);
                    assert(places[k] == before[k]);
                }
            }
            places
        } else {
            assert(!keep(raw[m]));
            before
        }
    }
}

/// The armor holds the items among the first four elements of the list `Armor`, all of them, each
/// in the slot 100 and its place in the list, and nothing else.
pub proof fn law_armor(player_key: Seq<char>, tag: CompoundView, l: Seq<TagView>) -> (places: Seq<
    int,
>)
    requires
        lookup_list(tag, "Armor"@) == Some(l),
    ensures
        selects(places, l.len() as int, |i: int| i < 4 && is_item(l[i])),
        places.len() == inventory_of(player_key, tag).armor.len(),
        forall|k: int|
            0 <= k < places.len() ==> shows(
                #[trigger] inventory_of(player_key, tag).armor[k],
                l[places[k]],
                100 + places[k],
            ),
{
    let places = lemma_armor_places(l, l.len());
    assert(l.take(l.len() as int) =~= l);
    assert(armor_items(tag) == worn(l));
    places
}

proof fn lemma_armor_places(l: Seq<TagView>, n: nat) -> (places: Seq<int>)
    requires
        n <= l.len(),
    ensures
        selects(places, n as int, |i: int| i < 4 && is_item(l[i])),
        places.len() == worn(l.take(n as int)).len(),
        forall|k: int|
            0 <= k < places.len() ==> shows(
                json_item(#[trigger] worn(l.take(n as int))[k]),
                l[places[k]],
                100 + places[k],
            ),
    decreases n,
{
    let wanted = |i: int| i < 4 && is_item(l[i]);
    if n == 0 {
        lemma_select_none(wanted);
        Seq::empty()
    } else {
        let m = n - 1;
        let before = lemma_armor_places(l, m as nat);
        let some = worn(l.take(m));
        let all = worn(l.take(n as int));
        lemma_select_next(before, m, wanted);
        assert(l.take(n as int).drop_last() =~= l.take(m));
        assert(l.take(n as int)[m] == l[m]);
        if wanted(m) {
            let places = before.push(m);
            assert(all == some.push(in_slot(raw_item(l[m]), (100 + m) as i32)));
            assert forall|k: int| 0 <= k < places.len() implies shows(
                json_item(#[trigger] all[k]),
                l[places[k]],
                100 + places[k],
            ) by {
                if k < some.len() {
                    assert(all[k] == some[k]);
                    assert(places[k] == before[k]);
                }
            }
            places
        } else {
            assert(all == some);
            before
        }
    }
}

/// The offhand holds the first element of the list `Offhand` in slot 104, exactly if it is an item.
pub proof fn law_offhand(player_key: Seq<char>, tag: CompoundView)
    ensures
        match (lookup_list(tag, "Offhand"@), inventory_of(player_key, tag).offhand) {
            (Some(l), Some(o)) => l.len() > 0 && is_item(l[0]) && shows(o, l[0], 104),
            (Some(l), None) => l.len() == 0 || !is_item(l[0]),
            (None, o) => o is None,
        },
{
}

/// Without its lists an inventory is empty. It bears the key of the player.
pub proof fn law_no_items(player_key: Seq<char>, tag: CompoundView)
    ensures
        inventory_of(player_key, tag).player_key == player_key,
        lookup_list(tag, "Inventory"@) is None ==> inventory_of(player_key, tag).inventory.len() == 0,
        lookup_list(tag, "Armor"@) is None ==> inventory_of(player_key, tag).armor.len() == 0,
{
    reveal(Seq::filter);
    assert(Seq::<TagView>::empty().map_values(|e: TagView| raw_item(e)) =~= Seq::empty());
}

} // verus!
