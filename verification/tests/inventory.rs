use world_inspector::codec::Decoded;
use world_inspector::inventory::{
    build_player_inventory, collect_player_encoded_items, inventory_item_to_encoded,
    inventory_item_to_json,
};
use world_inspector::json::Json;
use world_inspector::nbt::{tag_to_i32, tag_to_i64, CompoundTag, Tag};
use world_inspector::store::DbEntry;
use world_inspector::world::{
    choose_player, linked_player, player_labels, scan_all_player_keys, scan_player_keys, Database,
    PlayerChoice,
};
use world_inspector::WorldHandle;

fn compound(entries: Vec<(&str, Tag)>) -> CompoundTag {
    CompoundTag { entries: entries.into_iter().map(|(k, v)| (k.to_string(), v)).collect() }
}

fn text(s: &str) -> Tag {
    Tag::Text(s.to_string())
}

fn item(slot: i8, name: &str, count: i8, damage: i16) -> Tag {
    Tag::Compound(compound(vec![
        ("Count", Tag::Byte(count)),
        ("Damage", Tag::Short(damage)),
        ("Name", text(name)),
        ("Slot", Tag::Byte(slot)),
    ]))
}

fn tagged(slot: i8, name: &str) -> Tag {
    Tag::Compound(compound(vec![
        ("Count", Tag::Byte(1)),
        ("Name", text(name)),
        ("Slot", Tag::Byte(slot)),
        ("tag", Tag::Compound(compound(vec![("ench", Tag::Int(5))]))),
    ]))
}

fn encode(c: &CompoundTag) -> Vec<u8> {
    vec![0xcc, c.entries.len() as u8]
}

fn player() -> CompoundTag {
    compound(vec![
        (
            "Armor",
            Tag::List(vec![
                item(0, "minecraft:air", 0, 0),
                item(0, "minecraft:iron_chestplate", 1, 3),
                Tag::Int(4),
                tagged(0, "minecraft:iron_boots"),
                item(0, "minecraft:fifth", 1, 0),
            ]),
        ),
        (
            "Inventory",
            Tag::List(vec![
                item(0, "minecraft:stone", 64, 0),
                item(1, "minecraft:air", 5, 0),
                item(2, "", 5, 0),
                item(3, "minecraft:dirt", 0, 0),
                item(36, "minecraft:too_far", 1, 0),
                item(-1, "minecraft:too_near", 1, 0),
                tagged(35, "minecraft:diamond_sword"),
                Tag::Byte(3),
            ]),
        ),
        ("Offhand", Tag::List(vec![item(7, "minecraft:shield", 1, 9), item(0, "no", 1, 0)])),
    ])
}

#[test]
fn integer_tags_are_read() {
    assert_eq!(tag_to_i32(&Tag::Byte(-1)), Some(-1));
    assert_eq!(tag_to_i32(&Tag::Short(300)), Some(300));
    assert_eq!(tag_to_i32(&Tag::Int(i32::MIN)), Some(i32::MIN));
    assert_eq!(tag_to_i32(&Tag::Long(0x1_0000_0002)), Some(2));
    assert_eq!(tag_to_i32(&Tag::Long(i64::MAX)), Some(-1));
    assert_eq!(tag_to_i32(&Tag::Float(1)), None);
    assert_eq!(tag_to_i64(&Tag::Long(i64::MIN)), Some(i64::MIN));
    assert_eq!(tag_to_i64(&Tag::Byte(-5)), Some(-5));
    assert_eq!(tag_to_i64(&text("1")), None);
}

#[test]
fn items_without_data_are_air() {
    let i = inventory_item_to_json(&Tag::Int(1));
    assert_eq!((i.slot, i.name.as_str(), i.count, i.damage), (0, "minecraft:air", 0, 0));
    assert!(i.tag.is_none());
    let i = inventory_item_to_json(&Tag::Compound(CompoundTag::new()));
    assert_eq!(i.name, "minecraft:air");
    let i = inventory_item_to_encoded(&Tag::Int(1), &encode);
    assert_eq!((i.slot, i.name.as_str(), i.count, i.damage), (0, "minecraft:air", 0, 0));
    assert!(i.nbt_bytes.is_empty());
}

#[test]
fn item_tags_are_kept() {
    let i = inventory_item_to_json(&tagged(3, "a"));
    assert_eq!(i.tag.unwrap().get_i64("ench"), Some(5));
    let e = inventory_item_to_encoded(&tagged(3, "a"), &encode);
    assert_eq!(e.nbt_bytes, vec![0xcc, 1]);
    // A tag that is not a compound is shown as JSON, but not encoded.
    let odd = Tag::Compound(compound(vec![("tag", Tag::Int(7))]));
    assert!(matches!(inventory_item_to_json(&odd).tag, Some(Json::Unsigned(7))));
    assert!(inventory_item_to_encoded(&odd, &encode).nbt_bytes.is_empty());
}

#[test]
fn encoded_items_lose_nothing() {
    let write = |c: &CompoundTag| -> Vec<u8> {
        let mut out = Vec::new();
        for (k, v) in &c.entries {
            out.push(k.len() as u8);
            out.extend_from_slice(k.as_bytes());
            out.extend_from_slice(&tag_to_i32(v).unwrap().to_le_bytes());
        }
        out
    };
    let read = |b: &[u8]| -> CompoundTag {
        let mut entries = Vec::new();
        let mut i = 0;
        while i < b.len() {
            let end = i + 1 + b[i] as usize;
            let name = String::from_utf8(b[i + 1..end].to_vec()).unwrap();
            entries.push((name, Tag::Int(i32::from_le_bytes([b[end], b[end + 1], b[end + 2], b[end + 3]]))));
            i = end + 4;
        }
        CompoundTag { entries }
    };
    let own = compound(vec![("Damage", Tag::Int(-7)), ("RepairCost", Tag::Int(3))]);
    let elem = Tag::Compound(compound(vec![
        ("Count", Tag::Byte(2)),
        ("Damage", Tag::Short(9)),
        ("Name", text("minecraft:bow")),
        ("Slot", Tag::Byte(4)),
        ("tag", Tag::Compound(own.clone())),
    ]));
    let e = inventory_item_to_encoded(&elem, &write);
    let j = inventory_item_to_json(&elem);
    assert_eq!((e.slot, e.name.as_str(), e.count, e.damage), (4, "minecraft:bow", 2, 9));
    assert_eq!((e.slot, &e.name, e.count, e.damage), (j.slot, &j.name, j.count, j.damage));
    let back = read(&e.nbt_bytes);
    assert_eq!(back.entries.len(), own.entries.len());
    for (a, b) in back.entries.iter().zip(&own.entries) {
        assert_eq!((&a.0, tag_to_i32(&a.1)), (&b.0, tag_to_i32(&b.1)));
    }
}

#[test]
fn inventory_has_three_parts() {
    let inv = build_player_inventory("player_1", &player());
    assert_eq!(inv.player_key, "player_1");
    let main: Vec<(i32, &str)> = inv.inventory.iter().map(|i| (i.slot, i.name.as_str())).collect();
    assert_eq!(main, vec![(0, "minecraft:stone"), (35, "minecraft:diamond_sword")]);
    let armor: Vec<(i32, &str)> = inv.armor.iter().map(|i| (i.slot, i.name.as_str())).collect();
    assert_eq!(armor, vec![(101, "minecraft:iron_chestplate"), (103, "minecraft:iron_boots")]);
    let off = inv.offhand.unwrap();
    assert_eq!((off.slot, off.name.as_str(), off.damage), (104, "minecraft:shield", 9));
}

#[test]
fn missing_parts_are_empty() {
    let inv = build_player_inventory("p", &compound(vec![("Inventory", Tag::Int(1))]));
    assert!(inv.inventory.is_empty());
    assert!(inv.armor.is_empty());
    assert!(inv.offhand.is_none());
    let none = compound(vec![("Offhand", Tag::List(vec![item(0, "minecraft:air", 1, 0)]))]);
    assert!(build_player_inventory("p", &none).offhand.is_none());
    assert!(collect_player_encoded_items(&none, &encode).is_empty());
}

#[test]
fn both_forms_hold_the_same_items() {
    let inv = build_player_inventory("p", &player());
    let mut flat: Vec<(i32, String, i32, i32)> = Vec::new();
    for i in inv.inventory.iter().chain(inv.armor.iter()).chain(inv.offhand.iter()) {
        flat.push((i.slot, i.name.clone(), i.count, i.damage));
    }
    let encoded = collect_player_encoded_items(&player(), &encode);
    let outline: Vec<(i32, String, i32, i32)> =
        encoded.iter().map(|i| (i.slot, i.name.clone(), i.count, i.damage)).collect();
    assert_eq!(outline, flat);
    assert_eq!(outline.len(), 5);
    assert_eq!(encoded[1].nbt_bytes, vec![0xcc, 1]);
    assert!(encoded[0].nbt_bytes.is_empty());
}

fn entry(key: &str, value: &[u8]) -> DbEntry {
    DbEntry { key: key.as_bytes().to_vec(), value: value.to_vec() }
}

fn database() -> Vec<DbEntry> {
    vec![
        entry("BiomeData", b""),
        entry("actorprefix12345678", b""),
        entry("player_abc", b"i"),
        entry("player_server_xyz", b"s"),
        entry("player_server_zzz", b"?"),
        entry("player_way", b"w"),
        entry("player_xyz", b"?"),
        entry("~local_player", b"l"),
        entry("~other", b""),
        entry("~player_q", b"l"),
    ]
}

/// A codec in which the first letter says what the value is.
fn decode(bytes: &[u8]) -> Option<Decoded> {
    let tag = match bytes.first()? {
        b'i' => compound(vec![
            ("Offhand", Tag::List(vec![item(0, "own", 1, 0)])),
            ("ServerId", text("player_server_xyz")),
        ]),
        b's' => compound(vec![("Offhand", Tag::List(vec![item(0, "server", 1, 0)]))]),
        b'l' => compound(vec![
            ("Offhand", Tag::List(vec![item(0, "local", 1, 0)])),
            ("ServerId", text("player_server_xyz")),
        ]),
        b'w' => compound(vec![
            ("Offhand", Tag::List(vec![item(0, "way", 1, 0)])),
            ("ServerId", text("player_server_zzz")),
        ]),
        _ => return None,
    };
    Some(Decoded { tag, consumed: 1 })
}

fn open(entries: Vec<DbEntry>) -> WorldHandle {
    match WorldHandle::open(Database::Opened(entries)) {
        Ok(h) => h,
        Err(e) => panic!("{}", e),
    }
}

fn offhand(r: Result<world_inspector::PlayerInventory, String>) -> Result<(String, String), String> {
    r.map(|inv| (inv.player_key, inv.offhand.unwrap().name))
}

#[test]
fn players_are_scanned_by_prefix() {
    let names = |es: Vec<DbEntry>| player_labels(&es);
    assert_eq!(
        names(scan_player_keys(&database())),
        vec!["player_abc", "player_way", "player_xyz", "~local_player", "~player_q"]
    );
    assert_eq!(
        names(scan_all_player_keys(&database())),
        vec![
            "player_abc",
            "player_way",
            "player_xyz",
            "~local_player",
            "~player_q",
            "player_server_xyz",
            "player_server_zzz"
        ]
    );
}

#[test]
fn labels_replace_what_is_not_text() {
    let es = vec![DbEntry { key: b"player_\xff".to_vec(), value: vec![] }, entry("player_ü", b"")];
    assert_eq!(player_labels(&es), vec!["player_\u{fffd}", "player_ü"]);
}

#[test]
fn handle_lists_all_players() {
    let keys = open(database()).list_player_keys();
    assert_eq!(keys.len(), 7);
    assert_eq!(keys[6], "player_server_zzz");
}

#[test]
fn handle_is_not_opened_without_a_database() {
    let e = WorldHandle::open(Database::Absent).err().unwrap();
    assert_eq!(e, "LevelDB directory not found");
    let e = WorldHandle::open(Database::Unreadable("locked".to_string())).err().unwrap();
    assert_eq!(e, "Failed to open DB: locked");
}

#[test]
fn identities_lead_to_server_data() {
    let h = open(database());
    assert_eq!(
        offhand(h.get_player_inventory("player_abc", &decode)),
        Ok(("player_server_xyz".to_string(), "server".to_string()))
    );
    // Only an identity leads elsewhere.
    assert_eq!(
        offhand(h.get_player_inventory("~local_player", &decode)),
        Ok(("~local_player".to_string(), "local".to_string()))
    );
    // Where the other data cannot be decoded, the own data is shown under its label.
    assert_eq!(
        offhand(h.get_player_inventory("player_way", &decode)),
        Ok(("player_server_zzz".to_string(), "way".to_string()))
    );
}

#[test]
fn part_of_a_key_is_enough_where_it_is_unique() {
    let h = open(database());
    assert_eq!(offhand(h.get_player_inventory("abc", &decode)).unwrap().1, "server");
    assert_eq!(
        offhand(h.get_player_inventory("xyz", &decode)),
        Err("Player not found".to_string())
    );
    assert_eq!(
        offhand(h.get_player_inventory("nobody", &decode)),
        Err("Player not found".to_string())
    );
    assert_eq!(
        offhand(h.get_player_inventory("player_xyz", &decode)),
        Err("Failed to parse NBT".to_string())
    );
}

#[test]
fn encoded_items_take_the_first_match() {
    let h = open(database());
    let items = h.get_player_encoded_items("~", &decode, &encode).ok().unwrap();
    assert_eq!(items.len(), 1);
    assert_eq!((items[0].slot, items[0].name.as_str()), (104, "local"));
    assert_eq!(
        h.get_player_encoded_items("xyz", &decode, &encode).err().unwrap(),
        "Failed to parse NBT"
    );
    assert_eq!(
        h.get_player_encoded_items("nobody", &decode, &encode).err().unwrap(),
        "Player not found"
    );
}

#[test]
fn choices_are_told_apart() {
    let players = scan_all_player_keys(&database());
    let labels = player_labels(&players);
    assert!(matches!(choose_player(&players, &labels, "player_way"), PlayerChoice::Found(1)));
    assert!(matches!(choose_player(&players, &labels, "~l"), PlayerChoice::Found(3)));
    assert!(matches!(choose_player(&players, &labels, "xyz"), PlayerChoice::Ambiguous(l) if l == vec![2, 5]));
    assert!(matches!(choose_player(&players, &labels, "-"), PlayerChoice::Missing));
    let own = compound(vec![("ServerId", text("player_server_xyz"))]);
    assert_eq!(linked_player(&players, 0, &own), Some(5));
    assert_eq!(linked_player(&players, 3, &own), None);
    assert_eq!(linked_player(&players, 0, &CompoundTag::new()), None);
}
