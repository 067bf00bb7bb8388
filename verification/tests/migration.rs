use world_inspector::chunk_export::export_chunks;
use world_inspector::codec::Decoded;
use world_inspector::encoding::HexError;
use world_inspector::import::ImportRun;
use world_inspector::json::parse_json;
use world_inspector::keys::{block_entity_key, keys_in_dimension, subchunk_key};
use world_inspector::nbt::{CompoundTag, Tag};
use world_inspector::regions::{block_area, DimFilter};
use world_inspector::store::{DbEntry, Snapshot};
use world_inspector::transfer::{export_actors, make_entry, plan_text_import, ImportError};

fn compound(entries: Vec<(&str, Tag)>) -> CompoundTag {
    CompoundTag { entries: entries.into_iter().map(|(k, v)| (k.to_string(), v)).collect() }
}

fn text(s: &str) -> Tag {
    Tag::Text(s.to_string())
}

fn entry(key: &[u8], value: &[u8]) -> DbEntry {
    DbEntry { key: key.to_vec(), value: value.to_vec() }
}

fn pairs(entries: &[DbEntry]) -> Vec<(Vec<u8>, Vec<u8>)> {
    entries.iter().map(|e| (e.key.clone(), e.value.clone())).collect()
}

fn decode(bytes: &[u8]) -> Option<Decoded> {
    let name = String::from_utf8(bytes.to_vec()).ok()?;
    let tag = match name.strip_prefix("id:") {
        Some(id) => compound(vec![("id", text(id))]),
        None => compound(vec![("identifier", text(&name))]),
    };
    Some(Decoded { tag, consumed: bytes.len() })
}

fn world() -> Vec<DbEntry> {
    vec![
        entry(b"BiomeData", b"x"),
        entry(b"actorprefix1", b"minecraft:cow"),
        entry(b"actorprefix2", b"minecraft:player"),
        entry(b"actorprefix3", b"\xff\xfe"),
        entry(b"actorprefix4", b"id:bat"),
        entry(b"digp1", b"hello"),
        entry(b"player_1", b"one"),
        entry(b"~local_player", b""),
    ]
}

#[test]
fn actors_are_exported() {
    let x = export_actors(&world()[5..7].iter().map(|e| entry(&e.key, &e.value)).collect(), false, &decode);
    assert_eq!(
        x.text,
        "{\n  \"entries\": [\n    {\n      \"key_hex\": \"6469677031\",\n      \"value_base64\": \"aGVsbG8=\"\n    },\n    {\n      \"key_hex\": \"706c617965725f31\",\n      \"value_base64\": \"b25l\"\n    }\n  ],\n  \"total\": 2\n}"
    );
    assert_eq!((x.total, x.actors, x.digests, x.players), (2, 0, 1, 1));
}

#[test]
fn chunks_are_not_exported_as_players() {
    let entries = vec![entry(&[0x7e, 0, 0, 0, 0, 0, 0, 0, 0x2f, 0], b"blocks"), entry(b"~local_player", b"")];
    let x = export_actors(&entries, false, &decode);
    assert_eq!((x.total, x.actors, x.digests, x.players), (1, 0, 0, 1));
}

#[test]
fn exported_actors_are_named() {
    let x = export_actors(&world(), false, &decode);
    assert_eq!((x.total, x.actors, x.digests, x.players), (7, 4, 1, 2));
    let doc = parse_json(&x.text).unwrap();
    assert_eq!(doc.get_u64("total"), Some(7));
    let list = doc.get_list("entries").unwrap();
    assert_eq!(list[0].get_text("identifier").unwrap(), "minecraft:cow");
    assert_eq!(list[1].get_text("identifier").unwrap(), "minecraft:player");
    assert!(list[2].get("identifier").is_some());
    assert!(list[2].get_text("identifier").is_none());
    assert_eq!(list[3].get_text("identifier").unwrap(), "bat");
    assert!(list[4].get("identifier").is_none());
    assert!(doc.get("origin").is_none());
}

#[test]
fn players_can_be_left_out() {
    let x = export_actors(&world(), true, &decode);
    assert_eq!((x.total, x.actors, x.digests, x.players), (4, 3, 1, 0));
    let plan = plan_text_import(&x.text);
    let keys: Vec<Vec<u8>> = plan.entries.iter().map(|e| e.key.clone()).collect();
    assert_eq!(
        keys,
        vec![
            b"actorprefix1".to_vec(),
            b"actorprefix3".to_vec(),
            b"actorprefix4".to_vec(),
            b"digp1".to_vec()
        ]
    );
}

#[test]
fn exports_import_as_they_were() {
    let x = export_actors(&world(), false, &decode);
    let plan = plan_text_import(&x.text);
    assert!(plan.error.is_none());
    assert_eq!(plan.total, 7);
    assert_eq!(pairs(&plan.entries), pairs(&world()[1..]));
    let empty = export_actors(&vec![], false, &decode);
    let plan = plan_text_import(&empty.text);
    assert!(plan.error.is_none());
    assert!(plan.entries.is_empty());
    assert_eq!(empty.text, "{\n  \"entries\": [],\n  \"total\": 0\n}");
}

fn chunk_world() -> Snapshot {
    let nether = keys_in_dimension(&subchunk_key(-1, 0, 0), 1);
    let mut entries = vec![
        entry(&subchunk_key(0, 4, -1), b"a"),
        entry(&subchunk_key(-1, 0, 0), b"b"),
        entry(&block_entity_key(-1, 0), b"c"),
        entry(&nether[0], b"n4"),
        entry(&nether[1], b"n1"),
        entry(&subchunk_key(9, 9, 0), b"far"),
    ];
    entries.sort_by(|a, b| a.key.cmp(&b.key));
    Snapshot::new(entries).unwrap()
}

#[test]
fn chunks_are_exported_with_their_origin() {
    let s = chunk_world();
    let x = export_chunks(&s, DimFilter::Any, block_area(15, 79, -5, 3));
    assert_eq!((x.chunks, x.total), (2, 5));
    let doc = parse_json(&x.text).unwrap();
    let origin = doc.get("origin").unwrap();
    assert_eq!((origin.get_i64("x"), origin.get_i64("z")), (Some(-16), Some(0)));
    let names: Vec<String> = doc
        .get_list("chunks")
        .unwrap()
        .iter()
        .map(|j| match j {
            world_inspector::json::Json::Text(s) => s.clone(),
            _ => panic!("a chunk is named by a text"),
        })
        .collect();
    assert_eq!(names, vec!["-1,0", "0,4"]);
    let plan = plan_text_import(&x.text);
    assert!(plan.error.is_none());
    assert_eq!(plan.total, 5);
    for e in &plan.entries {
        assert_eq!(s.get(&e.key), Some(&e.value));
    }
}

#[test]
fn chunks_of_one_dimension_are_exported() {
    let s = chunk_world();
    let area = block_area(-16, 0, 15, 64);
    let values = |filter: DimFilter| -> Vec<Vec<u8>> {
        plan_text_import(&export_chunks(&s, filter, area).text)
            .entries
            .into_iter()
            .map(|e| e.value)
            .collect()
    };
    assert_eq!(values(DimFilter::Either(0)), vec![b"b".to_vec(), b"c".to_vec(), b"a".to_vec()]);
    assert_eq!(values(DimFilter::Either(1)), vec![b"n4".to_vec(), b"n1".to_vec()]);
    assert!(values(DimFilter::Either(2)).is_empty());
}

#[test]
fn imports_stop_at_the_first_fault() {
    let good = "{\"key_hex\": \"61\", \"value_base64\": \"aGk=\"}";
    let plan = |bad: &str| plan_text_import(&format!("{{\"total\": 9, \"entries\": [{}, {}, {}]}}", good, bad, good));
    let p = plan("{\"value_base64\": \"\"}");
    assert!(matches!(p.error, Some(ImportError::NoKey)));
    assert_eq!(p.total, 9);
    assert_eq!(pairs(&p.entries), vec![(b"a".to_vec(), b"hi".to_vec())]);
    assert!(matches!(plan("7").error, Some(ImportError::NoKey)));
    assert!(matches!(plan("{\"key_hex\": \"zz\", \"value_base64\": 1}").error, Some(ImportError::NoValue)));
    assert!(matches!(
        plan("{\"key_hex\": \"zz\", \"value_base64\": \"!\"}").error,
        Some(ImportError::Key(s, HexError::InvalidDigits(0))) if s == "zz"
    ));
    assert!(matches!(
        plan("{\"key_hex\": \"61\", \"value_base64\": \"!\"}").error,
        Some(ImportError::Value(m)) if m == "Invalid symbol 33, offset 0."
    ));
    assert!(matches!(plan_text_import("{}").error, Some(ImportError::NoEntries)));
    assert!(matches!(plan_text_import("[1]").error, Some(ImportError::NoEntries)));
    assert!(matches!(plan_text_import("").error, Some(ImportError::Json(_))));
    assert_eq!(plan_text_import("{\"total\": -1, \"entries\": []}").total, 0);
}

/// Runs an import against a database kept as a list.
fn import(db: &mut Vec<(Vec<u8>, Vec<u8>)>, entries: Vec<DbEntry>, skip: bool) -> (usize, usize) {
    let mut run = ImportRun::new(entries, skip);
    loop {
        let (key, value) = match run.pending() {
            Some(e) => (e.key.clone(), e.value.clone()),
            None => return run.counts(),
        };
        let exists = db.iter().any(|(k, _)| *k == key);
        if run.decide(exists) {
            db.retain(|(k, _)| *k != key);
            db.push((key, value));
        }
    }
}

fn copies(e: &[(&str, &str)]) -> Vec<DbEntry> {
    e.iter().map(|(k, v)| entry(k.as_bytes(), v.as_bytes())).collect()
}

#[test]
fn the_first_entry_counts_where_keys_are_skipped() {
    let mut db = vec![(b"a".to_vec(), b"old".to_vec())];
    let counts = import(&mut db, copies(&[("b", "1"), ("a", "2"), ("b", "3"), ("b", "4")]), true);
    assert_eq!(counts, (1, 3));
    assert_eq!(db, vec![(b"a".to_vec(), b"old".to_vec()), (b"b".to_vec(), b"1".to_vec())]);
}

#[test]
fn imports_overwrite() {
    let mut db = vec![(b"a".to_vec(), b"old".to_vec()), (b"z".to_vec(), b"stays".to_vec())];
    let counts = import(&mut db, copies(&[("a", "1"), ("b", "2"), ("b", "3")]), false);
    assert_eq!(counts, (3, 0));
    db.sort();
    assert_eq!(
        db,
        vec![
            (b"a".to_vec(), b"1".to_vec()),
            (b"b".to_vec(), b"3".to_vec()),
            (b"z".to_vec(), b"stays".to_vec())
        ]
    );
}

#[test]
fn imports_can_skip_and_be_repeated() {
    let mut db = vec![(b"a".to_vec(), b"old".to_vec())];
    let list = [("a", "1"), ("b", "2"), ("b", "3")];
    assert_eq!(import(&mut db, copies(&list), true), (1, 2));
    let once = db.clone();
    assert_eq!(once, vec![(b"a".to_vec(), b"old".to_vec()), (b"b".to_vec(), b"2".to_vec())]);
    assert_eq!(import(&mut db, copies(&list), true), (0, 3));
    assert_eq!(db, once);
    // An import that was cut short is resumed.
    let mut part = vec![(b"a".to_vec(), b"old".to_vec())];
    import(&mut part, copies(&list[..2]), true);
    import(&mut part, copies(&list), true);
    assert_eq!(part, once);
}

#[test]
fn entries_are_made_of_their_parts() {
    let e = make_entry("6162", Ok(b"v".to_vec())).ok().unwrap();
    assert_eq!((e.key, e.value), (b"ab".to_vec(), b"v".to_vec()));
    assert!(matches!(
        make_entry("6", Err("x".to_string())),
        Err(ImportError::Key(k, HexError::OddLength)) if k == "6"
    ));
    assert!(matches!(make_entry("", Err("x".to_string())), Err(ImportError::Value(m)) if m == "x"));
}
