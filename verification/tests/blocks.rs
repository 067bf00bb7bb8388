use world_inspector::blocks::{
    block_entity_at, block_in_storage, find_block_entity, get_block_from_subchunk, is_container,
    locate, parse_block_storage,
};
use world_inspector::codec::{read_stream, Decoded};
use world_inspector::keys::{
    block_entity_key, dimension_field, dimension_of_key, extract_dim_from_key, floor_div,
    is_chunk_key, keys_in_dimension, subchunk_key, DimField,
};
use world_inspector::nbt::{CompoundTag, Tag};

fn compound(entries: Vec<(&str, Tag)>) -> CompoundTag {
    CompoundTag { entries: entries.into_iter().map(|(k, v)| (k.to_string(), v)).collect() }
}

fn text(s: &str) -> Tag {
    Tag::Text(s.to_string())
}

/// A codec in which `n` followed by `n` letters is a block of that name, and `0` nothing.
fn decode(bytes: &[u8]) -> Option<Decoded> {
    let n = *bytes.first()? as usize;
    if n == 0 {
        return Some(Decoded { tag: CompoundTag::new(), consumed: 0 });
    }
    if bytes.len() < n + 1 {
        return None;
    }
    let name = String::from_utf8(bytes[1..=n].to_vec()).ok()?;
    let tag = if name == "x" {
        compound(vec![("other", Tag::Int(1))])
    } else {
        compound(vec![
            ("name", text(&name)),
            ("states", Tag::Compound(compound(vec![("bit", Tag::Byte(1))]))),
        ])
    };
    Some(Decoded { tag, consumed: n + 1 })
}

/// A storage with `bits` for a block, the given words, and a palette.
fn storage(bits: u8, words: &[(usize, u32)], palette: &[&str]) -> Vec<u8> {
    let per_word = 32 / bits as usize;
    let count = (4096 + per_word - 1) / per_word;
    let mut data = vec![bits << 1];
    for i in 0..count {
        let w = words.iter().find(|(k, _)| *k == i).map(|(_, w)| *w).unwrap_or(0);
        data.extend_from_slice(&w.to_le_bytes());
    }
    data.extend_from_slice(&(palette.len() as u32).to_le_bytes());
    for p in palette {
        data.push(p.len() as u8);
        data.extend_from_slice(p.as_bytes());
    }
    data
}

#[test]
fn blocks_are_located() {
    let p = locate(-3, -60, -3);
    assert_eq!((p.cx, p.cz, p.cy), (-1, -1, -4));
    assert_eq!((p.lx, p.ly, p.lz), (13, 4, 13));
    let p = locate(0, 319, 31);
    assert_eq!((p.cx, p.cz, p.cy), (0, 1, 19));
    assert_eq!((p.lx, p.ly, p.lz), (0, 15, 15));
    let p = locate(16, 5000, i32::MIN);
    assert_eq!((p.cx, p.cz, p.cy), (1, -0x800_0000, 56));
    assert_eq!((p.lx, p.ly, p.lz), (0, 4104, 0));
    assert_eq!(locate(0, i32::MAX, 0).cy, -1);
    assert_eq!(floor_div(-1, 16), -1);
    assert_eq!(floor_div(7, -2), -3);
}

#[test]
fn keys_hold_coordinates() {
    assert_eq!(subchunk_key(1, -1, -4), vec![1, 0, 0, 0, 255, 255, 255, 255, 0x2f, 252]);
    assert_eq!(block_entity_key(-2, 3), vec![254, 255, 255, 255, 3, 0, 0, 0, 0x31]);
    assert_eq!(keys_in_dimension(&block_entity_key(0, 0), 0), vec![block_entity_key(0, 0)]);
    assert_eq!(
        keys_in_dimension(&block_entity_key(0, 0), 2),
        vec![
            vec![0, 0, 0, 0, 0, 0, 0, 0, 2, 0, 0, 0, 0x31],
            vec![0, 0, 0, 0, 0, 0, 0, 0, 2, 0x31],
        ]
    );
}

#[test]
fn dimensions_are_read_from_keys() {
    let over = subchunk_key(5, 6, 0);
    assert_eq!(extract_dim_from_key(&over), 0);
    assert_eq!(dimension_field(&over), DimField::Absent);
    for dim in [1u8, 2] {
        let keys = keys_in_dimension(&over, dim);
        assert_eq!(extract_dim_from_key(&keys[0]), dim);
        assert_eq!(dimension_of_key(&keys[0]), dim);
        assert_eq!(dimension_field(&keys[0]), DimField::Long);
        assert_eq!(extract_dim_from_key(&keys[1]), 0);
        assert_eq!(dimension_of_key(&keys[1]), dim);
        assert_eq!(dimension_field(&keys[1]), DimField::Short);
    }
    assert_eq!(extract_dim_from_key(&[0, 0, 0, 0, 0, 0, 0, 0, 3, 0, 0, 0, 0x2f]), 0);
}

#[test]
fn chunk_keys_are_told_from_others() {
    assert!(is_chunk_key(&subchunk_key(0, 0, 0)));
    assert!(!is_chunk_key(&[0, 0, 0, 0, 0, 0, 0, 0]));
    assert!(!is_chunk_key(b"~local_player"));
    assert!(!is_chunk_key(b"player_server_1"));
    assert!(!is_chunk_key(b"actorprefix12345678"));
    assert!(!is_chunk_key(b"digp12345678"));
    assert!(!is_chunk_key(b"scoreboard"));
    assert!(!is_chunk_key(b"map_-4294967295"));
    assert!(!is_chunk_key(b"player_0123"));
    assert!(!is_chunk_key(b"mobevents"));
    assert!(!is_chunk_key(b"digp\0\0\0\0\x2f\0\0\0"));
    // Nothing is asked of the coordinates of a chunk.
    assert!(is_chunk_key(&[0x7e, 0, 0, 0, 0, 0, 0, 0, 0x2f, 0]));
    assert!(is_chunk_key(&subchunk_key(126, -5, 3)));
    assert!(is_chunk_key(&[1, 2, 3, 4, 5, 6, 7, 8, 0x2f]));
    for dim in 0..3u8 {
        for key in keys_in_dimension(&block_entity_key(0x7e_ffff, -1), dim) {
            assert!(is_chunk_key(&key));
        }
    }
    // The tag decides.
    let with_tag = |t: u8| [0, 0, 0, 0, 0, 0, 0, 0, t];
    for tag in [0x2b, 0x2c, 0x2f, 0x36, 0x41, 0x76, 0x77] {
        assert!(is_chunk_key(&with_tag(tag)));
    }
    for tag in [0, 1, 0x2a, 0x42, 0x72, 0x75, 0x78, 0xff] {
        assert!(!is_chunk_key(&with_tag(tag)));
    }
}

#[test]
fn blocks_are_read_from_their_bits() {
    // Block 1 of the first word: four bits with the value 2.
    let data = storage(4, &[(0, 0x0000_0021)], &["a", "b", "c"]);
    let info = parse_block_storage(&data, 0, 1, 0, &decode).unwrap();
    assert_eq!(info.name, "c");
    assert!(!info.states.empty());
    assert_eq!(info.palette.len(), 3);
    assert_eq!(info.palette[1].name, "b");
    assert_eq!(parse_block_storage(&data, 0, 0, 0, &decode).unwrap().name, "b");
    assert_eq!(parse_block_storage(&data, 0, 2, 0, &decode).unwrap().name, "a");
    // Block 4095 is the last of the last word.
    let data = storage(1, &[(127, 0x8000_0000)], &["a", "b"]);
    assert_eq!(parse_block_storage(&data, 15, 15, 15, &decode).unwrap().name, "b");
    assert_eq!(parse_block_storage(&data, 15, 14, 15, &decode).unwrap().name, "a");
}

#[test]
fn words_need_not_be_full() {
    // With three bits a word holds ten blocks: block 10 begins the second word.
    let data = storage(3, &[(0, 0xc000_0000), (1, 0b101)], &["a", "b", "c", "d", "e", "f"]);
    assert_eq!(parse_block_storage(&data, 0, 9, 0, &decode).unwrap().name, "a");
    assert_eq!(parse_block_storage(&data, 0, 10, 0, &decode).unwrap().name, "f");
}

#[test]
fn palette_entries_can_be_missing() {
    let data = storage(4, &[(0, 9)], &["a"]);
    let info = parse_block_storage(&data, 0, 0, 0, &decode).unwrap();
    assert_eq!(info.name, "<<idx_9>>");
    assert!(info.states.empty());
    let data = storage(4, &[(0, 9)], &[]);
    assert_eq!(parse_block_storage(&data, 0, 0, 0, &decode).unwrap().name, "<<idx_0>>");
    // A palette that says more than it holds ends where decoding fails.
    let mut data = storage(4, &[], &["x"]);
    let at = data.len() - 6;
    data[at] = 5;
    let info = parse_block_storage(&data, 0, 0, 0, &decode).unwrap();
    assert_eq!(info.palette.len(), 1);
    assert_eq!(info.name, "unknown");
    assert!(info.states.empty());
}

#[test]
fn heights_outside_of_the_storage_read_the_first_entry() {
    let data = storage(4, &[(0, 0x2222_2222)], &["a", "b", "c"]);
    assert_eq!(parse_block_storage(&data, 0, 5000, 0, &decode).unwrap().name, "a");
    assert_eq!(parse_block_storage(&data, 0, -1, 0, &decode).unwrap().name, "a");
}

#[test]
fn broken_storages_are_refused() {
    assert!(parse_block_storage(&[], 0, 0, 0, &decode).is_none());
    assert!(parse_block_storage(&[1], 0, 0, 0, &decode).is_none());
    assert!(parse_block_storage(&[17 << 1], 0, 0, 0, &decode).is_none());
    let data = storage(16, &[], &[]);
    assert!(parse_block_storage(&data, 0, 0, 0, &decode).is_some());
    assert!(parse_block_storage(&data[..data.len() - 1], 0, 0, 0, &decode).is_none());
}

#[test]
fn subchunks_have_versions() {
    let body = storage(4, &[(0, 1)], &["a", "b"]);
    let mut old = vec![8, 1];
    old.extend_from_slice(&body);
    assert_eq!(get_block_from_subchunk(&old, 0, 0, 0, &decode).unwrap().name, "b");
    let mut new = vec![9, 1, 252];
    new.extend_from_slice(&body);
    assert_eq!(get_block_from_subchunk(&new, 0, 0, 0, &decode).unwrap().name, "b");
    assert!(get_block_from_subchunk(&[], 0, 0, 0, &decode).is_none());
    assert!(get_block_from_subchunk(&[9], 0, 0, 0, &decode).is_none());
    assert!(get_block_from_subchunk(&[8, 0, 1, 1], 0, 0, 0, &decode).is_none());
    assert!(get_block_from_subchunk(&[9, 1, 0], 0, 0, 0, &decode).is_none());
}

#[test]
fn blocks_of_a_decoded_palette() {
    let data = storage(4, &[(0, 1)], &[]);
    let tags = vec![CompoundTag::new(), compound(vec![("name", text("stone"))])];
    assert_eq!(block_in_storage(&data, &tags, 0, 0, 0).name, "stone");
    assert_eq!(block_in_storage(&data, &tags, 0, 1, 0).name, "unknown");
}

fn at(x: i32, y: i32, z: i32, id: &str) -> CompoundTag {
    compound(vec![
        ("id", text(id)),
        ("x", Tag::Int(x)),
        ("y", Tag::Int(y)),
        ("z", Tag::Int(z)),
    ])
}

#[test]
fn block_entities_are_found_by_their_place() {
    let tags = vec![at(1, 2, 3, "Chest"), at(4, 5, 6, "Furnace"), at(4, 5, 6, "Other")];
    let found = block_entity_at(&tags, 4, 5, 6).unwrap();
    assert_eq!(found.get_text("id"), Some("Furnace"));
    assert!(block_entity_at(&tags, 4, 5, 7).is_none());
}

#[test]
fn block_entities_stand_one_after_the_other() {
    let table = vec![at(1, 2, 3, "Chest"), at(4, 5, 6, "Furnace")];
    let by_index = |bytes: &[u8]| {
        let i = *bytes.first()? as usize;
        let tag = table.get(i)?.clone();
        Some(Decoded { tag, consumed: 2.min(bytes.len()) })
    };
    let data = [0u8, 0, 1, 0, 9, 0, 1, 0];
    assert_eq!(
        find_block_entity(&data, 4, 5, 6, &by_index).unwrap().get_text("id"),
        Some("Furnace")
    );
    assert!(find_block_entity(&data, 7, 7, 7, &by_index).is_none());
    assert!(find_block_entity(&[], 1, 2, 3, &by_index).is_none());
    // What cannot be decoded ends the list.
    assert!(find_block_entity(&[9, 0, 0, 0], 1, 2, 3, &by_index).is_none());
    assert_eq!(read_stream(&by_index, &data, 1).len(), 1);
    assert_eq!(read_stream(&by_index, &data, 10).len(), 2);
    assert_eq!(read_stream(&decode, &[0, 1, 97], 10).len(), 0);
}

#[test]
fn containers_are_known_by_their_names() {
    for name in ["minecraft:chest", "minecraft:barrel", "undyed_shulker_box", "hopper", "minecraft:dispenser", "Dropper"] {
        assert!(is_container(name), "{}", name);
    }
    assert!(!is_container("minecraft:stone"));
    assert!(!is_container("minecraft:dropper"));
}
