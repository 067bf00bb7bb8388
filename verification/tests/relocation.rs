use world_inspector::codec::{encode_all, read_all, Decoded};
use world_inspector::entities::{first_free, give_id, key_of_actor};
use world_inspector::json::parse_json;
use world_inspector::keys::{block_entity_key, keys_in_dimension, subchunk_key};
use world_inspector::nbt::{CompoundTag, Real, Tag};
use world_inspector::nbt_edit::{move_compound, move_ticks, place, put, read_position};
use world_inspector::placement::{move_digest, PlacementError};
use world_inspector::relocate::{move_key, shift_to, Shift};
use world_inspector::relocation::{
    plan_document_relocation, plan_relocation, read_origin, RelocationError,
};
use world_inspector::store::{DbEntry, Snapshot};

fn compound(entries: Vec<(&str, Tag)>) -> CompoundTag {
    CompoundTag { entries: entries.into_iter().map(|(k, v)| (k.to_string(), v)).collect() }
}

fn text(s: &str) -> Tag {
    Tag::Text(s.to_string())
}

fn float(f: f32) -> Tag {
    Tag::Float(f.to_bits())
}

fn entry(key: &[u8], value: &[u8]) -> DbEntry {
    DbEntry { key: key.to_vec(), value: value.to_vec() }
}

fn snapshot(mut entries: Vec<DbEntry>) -> Snapshot {
    entries.sort_by(|a, b| a.key.cmp(&b.key));
    Snapshot::new(entries).unwrap()
}

fn put_text(out: &mut Vec<u8>, s: &str) {
    out.push(s.len() as u8);
    out.extend_from_slice(s.as_bytes());
}

fn put_tag(out: &mut Vec<u8>, t: &Tag) {
    match t {
        Tag::Int(v) => {
            out.push(3);
            out.extend_from_slice(&v.to_le_bytes());
        }
        Tag::Long(v) => {
            out.push(4);
            out.extend_from_slice(&v.to_le_bytes());
        }
        Tag::Float(b) => {
            out.push(5);
            out.extend_from_slice(&b.to_le_bytes());
        }
        Tag::Text(s) => {
            out.push(8);
            put_text(out, s);
        }
        Tag::List(l) => {
            out.push(9);
            out.push(l.len() as u8);
            for x in l {
                put_tag(out, x);
            }
        }
        Tag::Compound(c) => {
            out.push(10);
            put_compound(out, c);
        }
        _ => panic!("not used here"),
    }
}

fn put_compound(out: &mut Vec<u8>, c: &CompoundTag) {
    out.push(c.entries.len() as u8);
    for (k, v) in &c.entries {
        put_text(out, k);
        put_tag(out, v);
    }
}

/// A small codec: a mark, then the entries with one byte for each length.
fn encode(c: &CompoundTag) -> Vec<u8> {
    let mut out = vec![0xc0];
    put_compound(&mut out, c);
    out
}

fn take<'a>(b: &mut &'a [u8], n: usize) -> Option<&'a [u8]> {
    if b.len() < n {
        return None;
    }
    let (a, rest) = b.split_at(n);
    *b = rest;
    Some(a)
}

fn get_text(b: &mut &[u8]) -> Option<String> {
    let n = take(b, 1)?[0] as usize;
    String::from_utf8(take(b, n)?.to_vec()).ok()
}

fn get_tag(b: &mut &[u8]) -> Option<Tag> {
    Some(match take(b, 1)?[0] {
        3 => Tag::Int(i32::from_le_bytes(take(b, 4)?.try_into().ok()?)),
        4 => Tag::Long(i64::from_le_bytes(take(b, 8)?.try_into().ok()?)),
        5 => Tag::Float(u32::from_le_bytes(take(b, 4)?.try_into().ok()?)),
        8 => Tag::Text(get_text(b)?),
        9 => {
            let n = take(b, 1)?[0];
            let mut l = Vec::new();
            for _ in 0..n {
                l.push(get_tag(b)?);
            }
            Tag::List(l)
        }
        10 => Tag::Compound(get_compound(b)?),
        _ => return None,
    })
}

fn get_compound(b: &mut &[u8]) -> Option<CompoundTag> {
    let n = take(b, 1)?[0];
    let mut entries = Vec::new();
    for _ in 0..n {
        let name = get_text(b)?;
        entries.push((name, get_tag(b)?));
    }
    Some(CompoundTag { entries })
}

fn decode(bytes: &[u8]) -> Option<Decoded> {
    let mut b = bytes;
    if take(&mut b, 1)?[0] != 0xc0 {
        return None;
    }
    let tag = get_compound(&mut b)?;
    Some(Decoded { tag, consumed: bytes.len() - b.len() })
}

fn travel(r: Real, d: i64) -> Real {
    match r {
        Real::Single(b) => Real::Single((f32::from_bits(b) + d as f32).to_bits()),
        Real::Double(b) => Real::Double((f64::from_bits(b) + d as f64).to_bits()),
    }
}

fn block(x: i32, z: i32) -> CompoundTag {
    compound(vec![("id", text("Chest")), ("x", Tag::Int(x)), ("y", Tag::Int(64)), ("z", Tag::Int(z))])
}

fn actor(kind: &str, x: f32, z: f32) -> CompoundTag {
    compound(vec![
        ("Pos", Tag::List(vec![float(x), float(64.0), float(z)])),
        ("UniqueID", Tag::Long(77)),
        ("identifier", text(kind)),
    ])
}

fn coordinates(c: &CompoundTag) -> (Option<i32>, Option<i32>) {
    (c.get_int("x"), c.get_int("z"))
}

const SHIFT: Shift = Shift { dcx: 2, dcz: -1, dimension: None };

#[test]
fn shifts_are_aligned_to_chunks() {
    assert_eq!(shift_to((-64, -64), (1000, -500), None), Shift { dcx: 66, dcz: -28, dimension: None });
    assert_eq!(shift_to((15, 0), (0, 15), Some(1)), Shift { dcx: 0, dcz: 0, dimension: Some(1) });
    assert_eq!(
        shift_to((i32::MIN, i32::MAX), (i32::MAX, i32::MIN), None),
        Shift { dcx: 0x0fff_ffff, dcz: -0x0fff_ffff, dimension: None }
    );
}

#[test]
fn keys_are_moved() {
    let key = subchunk_key(5, -5, -4);
    assert_eq!(move_key(&key, SHIFT).unwrap(), subchunk_key(7, -6, -4));
    let back = Shift { dcx: -2, dcz: 1, dimension: None };
    for dim in 0..=2u8 {
        for form in keys_in_dimension(&key, dim) {
            let there = move_key(&form, SHIFT).unwrap();
            assert_eq!(there.len(), form.len());
            assert_eq!(&there[8..], &form[8..]);
            assert_eq!(move_key(&there, back).unwrap(), form);
        }
    }
    assert_eq!(move_key(&key, Shift { dcx: 0, dcz: 0, dimension: None }).unwrap(), key);
    assert!(move_key(&subchunk_key(i32::MAX, 0, 0), SHIFT).is_none());
    assert!(move_key(&subchunk_key(0, i32::MIN, 0), SHIFT).is_none());
}

#[test]
fn keys_change_their_dimension() {
    let key = block_entity_key(0, 0);
    let nether = keys_in_dimension(&key, 1);
    let end = keys_in_dimension(&key, 2);
    let to = |d: u8| Shift { dcx: 0, dcz: 0, dimension: Some(d) };
    assert_eq!(move_key(&key, to(1)).unwrap(), nether[0]);
    assert_eq!(move_key(&nether[0], to(2)).unwrap(), end[0]);
    assert_eq!(move_key(&nether[1], to(2)).unwrap(), end[1]);
    assert_eq!(move_key(&nether[0], to(0)).unwrap(), key);
    assert_eq!(move_key(&nether[1], to(0)).unwrap(), key);
    assert_eq!(move_key(&key, to(0)).unwrap(), key);
}

#[test]
fn values_are_put_under_names() {
    let c = put(put(block(1, 2), "id", text("Bed")), "new", Tag::Int(9));
    assert_eq!(c.get_text("id"), Some("Bed"));
    assert_eq!(c.get_int("new"), Some(9));
    assert_eq!(coordinates(&c), (Some(1), Some(2)));
    assert_eq!(c.entries.len(), 5);
    assert_eq!(c.entries[0].0, "id");
}

#[test]
fn block_entities_and_ticks_are_moved() {
    assert_eq!(coordinates(&move_compound(block(1, 2), 32, -16)), (Some(33), Some(-14)));
    assert_eq!(move_compound(block(1, 2), 32, -16).get_int("y"), Some(64));
    assert_eq!(coordinates(&move_compound(block(i32::MAX, 0), 1, 0)).0, Some(i32::MIN));
    let odd = compound(vec![("x", text("a"))]);
    assert!(matches!(move_compound(odd, 5, 5).get("x"), Some(Tag::Text(_))));
    let ticks = compound(vec![
        ("currentTick", Tag::Int(7)),
        ("tickList", Tag::List(vec![Tag::Compound(block(0, 0)), Tag::Int(3)])),
    ]);
    let moved = move_ticks(ticks, 16, 16);
    let list = moved.get_list("tickList").unwrap();
    assert_eq!(coordinates(list[0].as_compound().unwrap()), (Some(16), Some(16)));
    assert_eq!(list[1].as_i32(), Some(3));
    assert_eq!(moved.get_int("currentTick"), Some(7));
}

#[test]
fn positions_are_read_and_placed() {
    let c = actor("cow", 1.5, 2.5);
    assert_eq!(
        read_position(&c),
        Some((Real::Single(1.5f32.to_bits()), Real::Single(2.5f32.to_bits())))
    );
    let c = place(c, Real::Single(9.0f32.to_bits()), Real::Double(8.0f64.to_bits()));
    let l = c.get_list("Pos").unwrap();
    assert!(matches!(l[0], Tag::Float(b) if b == 9.0f32.to_bits()));
    assert!(matches!(l[1], Tag::Float(b) if b == 64.0f32.to_bits()));
    assert!(matches!(l[2], Tag::Double(b) if b == 8.0f64.to_bits()));
    assert_eq!(read_position(&CompoundTag::new()), None);
}

#[test]
fn identifiers_are_written_everywhere() {
    assert_eq!(key_of_actor(0), b"actorprefix\0\0\0\x01\0\0\0\0".to_vec());
    assert_eq!(key_of_actor(0x80), b"actorprefix\0\0\0\x01\0\0\x01\0".to_vec());
    assert_eq!(key_of_actor(0x0fff_ffff), b"actorprefix\0\0\0\x01\x7f\x7f\x7f\x7f".to_vec());
    let c = give_id(actor("cow", 0.0, 0.0), 0x81);
    assert_eq!(c.get_i64("UniqueID"), Some(-0x1_0000_0000 + 0x101));
    let key = c
        .get_compound("internalComponents")
        .unwrap()
        .get_compound("EntityStorageKeyComponent")
        .unwrap()
        .get_text("StorageKey")
        .unwrap()
        .to_string();
    assert_eq!(key.as_bytes(), &key_of_actor(0x81)[11..]);
}

#[test]
fn identifiers_in_use_are_passed_over() {
    let entries = vec![
        entry(&key_of_actor(4), b""),
        entry(&key_of_actor(300), b""),
        entry(b"actorprefix\0\0\0\x02\0\0\x7f\0", b""),
        entry(b"actorprefix\0\0\0\x01\0\0\x80\0", b""),
        entry(b"other", b""),
    ];
    assert_eq!(first_free(&entries, 0), 301);
    assert_eq!(first_free(&entries, 1000), 1000);
    assert_eq!(first_free(&vec![], 0), 0);
}

#[test]
fn digests_list_the_copies() {
    let ids = vec![(b"aaaaaaaa".to_vec(), 5u32), (b"bbbbbbbb".to_vec(), 6u32)];
    let moved = move_digest(b"bbbbbbbbxxxxxxxxaaaaaaaa12", &ids);
    let mut expected = key_of_actor(6)[11..].to_vec();
    expected.extend_from_slice(&key_of_actor(5)[11..]);
    assert_eq!(moved, expected);
}

#[test]
fn compounds_are_read_and_written_one_after_the_other() {
    let tags = vec![block(1, 2), actor("cow", 0.0, 0.0)];
    let mut bytes = encode_all(&encode, &tags);
    let length = bytes.len();
    bytes.extend_from_slice(b"tail");
    let (back, end) = read_all(&decode, &bytes);
    assert_eq!((back.len(), end), (2, length));
    assert_eq!(encode_all(&encode, &back), bytes[..length].to_vec());
}

fn source() -> Vec<DbEntry> {
    let mut blocks = encode(&block(1, 2));
    blocks.extend_from_slice(&encode(&block(3, 4)));
    blocks.extend_from_slice(b"??");
    let mut ticks_key = block_entity_key(0, 0);
    ticks_key[8] = 0x33;
    let mut old_key = block_entity_key(0, 0);
    old_key[8] = 0x32;
    let ticks = compound(vec![("tickList", Tag::List(vec![Tag::Compound(block(0, 0))]))]);
    let mut old = encode(&actor("bat", 1.0, 1.0));
    old.extend_from_slice(&encode(&actor("minecraft:player", 1.0, 1.0)));
    old.extend_from_slice(&encode(&actor("bee", 2.0, 2.0)));
    vec![
        entry(&subchunk_key(0, 0, 0), b"blocks"),
        entry(&block_entity_key(0, 0), &blocks),
        entry(&old_key, &old),
        entry(&ticks_key, &encode(&ticks)),
        entry(b"actorprefixAAAAAAAA", &encode(&actor("cow", 1.5, 2.0))),
        entry(b"actorprefixBBBBBBBB", &encode(&actor("minecraft:player", 1.5, 2.0))),
        entry(b"actorprefixCCCCCCCC", b"undecodable"),
        entry(b"digp\0\0\0\0\0\0\0\0", b"BBBBBBBBAAAAAAAACCCCCCCC"),
        entry(b"player_1", b"someone"),
        entry(b"misc", b"kept"),
    ]
}

fn target() -> Snapshot {
    let mut digest = b"digp".to_vec();
    digest.extend_from_slice(&subchunk_key(2, -1, 0)[..8]);
    snapshot(vec![
        entry(&digest, b"oldoldolold2old2"),
        entry(b"actorprefixoldoldol", b"x"),
        entry(&key_of_actor(9), b"y"),
        entry(&subchunk_key(2, -1, 0), b"there"),
    ])
}

#[test]
fn everything_is_moved() {
    let plan = match plan_relocation(&target(), &source(), SHIFT, &decode, &encode, &travel) {
        Ok(p) => p,
        Err(_) => panic!("the entries can be moved"),
    };
    assert_eq!(plan.actors, 1);
    assert_eq!(plan.writes.len(), 7);
    // The actor comes first, with an identifier that is not in use.
    assert_eq!(plan.writes[0].key, key_of_actor(10));
    let cow = decode(&plan.writes[0].value).unwrap().tag;
    assert_eq!(
        read_position(&cow),
        Some((Real::Single(33.5f32.to_bits()), Real::Single((-14.0f32).to_bits())))
    );
    assert_eq!(cow.get_i64("UniqueID"), Some(-0x1_0000_0000 + 10));
    // Plain values move as they are.
    assert_eq!(plan.writes[1].key, subchunk_key(2, -1, 0));
    assert_eq!(plan.writes[1].value, b"blocks".to_vec());
    // Block entities move, and what cannot be decoded stays.
    assert_eq!(plan.writes[2].key, block_entity_key(2, -1));
    let (blocks, end) = read_all(&decode, &plan.writes[2].value);
    assert_eq!(coordinates(&blocks[0]), (Some(33), Some(-14)));
    assert_eq!(coordinates(&blocks[1]), (Some(35), Some(-12)));
    assert_eq!(&plan.writes[2].value[end..], b"??");
    // Entities in the old form get new identifiers, players are left out.
    let (old, _) = read_all(&decode, &plan.writes[3].value);
    assert_eq!(old.len(), 2);
    assert_eq!(old[0].get_i64("UniqueID"), Some(-0x1_0000_0000 + 11));
    assert_eq!(old[1].get_i64("UniqueID"), Some(-0x1_0000_0000 + 12));
    assert_eq!(old[1].get_text("identifier"), Some("bee"));
    let (ticks, _) = read_all(&decode, &plan.writes[4].value);
    let tick = ticks[0].get_list("tickList").unwrap()[0].as_compound().unwrap().clone();
    assert_eq!(coordinates(&tick), (Some(32), Some(-16)));
    // The digest lists the copy only.
    assert_eq!(&plan.writes[5].key[..4], b"digp");
    assert_eq!(&plan.writes[5].key[4..], &subchunk_key(2, -1, 0)[..8]);
    assert_eq!(plan.writes[5].value, key_of_actor(10)[11..].to_vec());
    assert_eq!(plan.writes[6].key, b"misc".to_vec());
}

#[test]
fn old_entities_are_removed_first() {
    let plan = plan_relocation(&target(), &source(), SHIFT, &decode, &encode, &travel).ok().unwrap();
    let mut digest = b"digp".to_vec();
    digest.extend_from_slice(&subchunk_key(2, -1, 0)[..8]);
    assert_eq!(
        plan.removals,
        vec![digest, b"actorprefixoldoldol".to_vec(), b"actorprefixold2old2".to_vec()]
    );
    let empty = plan_relocation(&snapshot(vec![]), &source(), SHIFT, &decode, &encode, &travel);
    assert!(empty.ok().unwrap().removals.is_empty());
}

#[test]
fn old_entities_are_found_under_either_digest() {
    for (dim, field) in [(1u8, vec![1u8, 0, 0, 0]), (2, vec![2, 0, 0, 0]), (1, vec![1]), (2, vec![2])] {
        let mut digest = b"digp".to_vec();
        digest.extend_from_slice(&subchunk_key(2, -1, 0)[..8]);
        digest.extend_from_slice(&field);
        let db = snapshot(vec![entry(&digest, b"oldoldol"), entry(b"actorprefixoldoldol", b"x")]);
        let shift = Shift { dimension: Some(dim), ..SHIFT };
        for written in [subchunk_key(0, 0, 0), b"digp\0\0\0\0\0\0\0\0".to_vec()] {
            let plan = plan_relocation(&db, &vec![entry(&written, b"")], shift, &decode, &encode, &travel).ok().unwrap();
            assert_eq!(plan.removals, vec![digest.clone(), b"actorprefixoldoldol".to_vec()]);
        }
    }
}

#[test]
fn chunks_are_known_by_more_than_their_first_byte() {
    let key = subchunk_key(126, 0, 0);
    assert_eq!(key[0], b'~');
    let entries = vec![entry(&key, b"blocks"), entry(b"~local_player", b"p"), entry(b"scoreboard", b"s")];
    let plan = plan_relocation(&snapshot(vec![]), &entries, SHIFT, &decode, &encode, &travel).ok().unwrap();
    let keys: Vec<Vec<u8>> = plan.writes.into_iter().map(|e| e.key).collect();
    assert_eq!(keys, vec![subchunk_key(128, -1, 0), b"scoreboard".to_vec()]);
}

#[test]
fn places_outside_of_the_world_are_refused() {
    let key = subchunk_key(i32::MAX, 0, 0);
    let r = plan_relocation(&target(), &vec![entry(&key, b"")], SHIFT, &decode, &encode, &travel);
    assert!(matches!(r, Err(PlacementError::OutOfWorld(k)) if k == key));
    let full = snapshot(vec![entry(&key_of_actor(0x0fff_ffff), b"")]);
    let r = plan_relocation(&full, &source(), SHIFT, &decode, &encode, &travel);
    assert!(matches!(r, Err(PlacementError::NoIdentifiers)));
}

#[test]
fn documents_say_where_they_come_from() {
    let doc = parse_json("{\"origin\": {\"x\": -64, \"z\": 16}, \"entries\": [{\"key_hex\": \"fcffffff010000002f00\", \"value_base64\": \"\"}]}").unwrap();
    assert_eq!(read_origin(&doc), Some((-64, 16)));
    let plan = plan_document_relocation(&target(), &doc, (1, 2), Some(1), &decode, &encode, &travel);
    let plan = plan.ok().unwrap();
    assert_eq!(plan.writes.len(), 1);
    assert_eq!(plan.writes[0].key, keys_in_dimension(&subchunk_key(0, 0, 0), 1)[0]);
    let none = parse_json("{\"entries\": []}").unwrap();
    assert!(read_origin(&none).is_none());
    let r = plan_document_relocation(&target(), &none, (0, 0), None, &decode, &encode, &travel);
    assert!(matches!(r, Err(RelocationError::NoOrigin)));
    let r = plan_document_relocation(&target(), &parse_json("{}").unwrap(), (0, 0), None, &decode, &encode, &travel);
    assert!(matches!(r, Err(RelocationError::Import(_))));
    let far = parse_json("{\"origin\": {\"x\": 4294967296, \"z\": 0}, \"entries\": []}").unwrap();
    assert!(read_origin(&far).is_none());
}
