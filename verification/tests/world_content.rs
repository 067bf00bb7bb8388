use world_inspector::actors::{
    decode_values, list_actors, plan_wipe, scan_actor_keys, scan_all_grouped_players,
    scan_grouped_players, type_of_actor,
};
use world_inspector::batch::{
    dimension_by_name, parse_and_validate_batch, BatchError, Corner, DimensionError,
};
use world_inspector::codec::Decoded;
use world_inspector::density::{actor_record, density_report, group_records, EntityRecord};
use world_inspector::keys::{keys_in_dimension, subchunk_key};
use world_inspector::lines::{Line, Piece};
use world_inspector::nbt::{CompoundTag, Real, Tag};
use world_inspector::ranking::rank_names;
use world_inspector::regions::{
    block_area, chunk_count, collect_all_chunk_keys, collect_area, collect_chunk_keys,
    distinct_chunks, is_chunk_in_rects, plan_area_deletion, plan_batch_deletion, sort_pair,
    takes_key, Area, ChunkRect, DimFilter,
};
use world_inspector::store::{DbEntry, Snapshot};

fn compound(entries: Vec<(&str, Tag)>) -> CompoundTag {
    CompoundTag { entries: entries.into_iter().map(|(k, v)| (k.to_string(), v)).collect() }
}

fn text(s: &str) -> Tag {
    Tag::Text(s.to_string())
}

fn render(line: &Line) -> String {
    let mut out = String::new();
    for p in &line.pieces {
        match p {
            Piece::Text(s) => out.push_str(s),
            Piece::Int(v) => out.push_str(&format!("{}", v)),
            Piece::Count(n) => out.push_str(&format!("{}", n)),
            _ => panic!("only text and integers are expected"),
        }
    }
    out
}

fn rendered(lines: &[Line]) -> Vec<String> {
    lines.iter().map(render).collect()
}

fn entry(key: &[u8], value: &[u8]) -> DbEntry {
    DbEntry { key: key.to_vec(), value: value.to_vec() }
}

fn snapshot(mut entries: Vec<DbEntry>) -> Snapshot {
    entries.sort_by(|a, b| a.key.cmp(&b.key));
    Snapshot::new(entries).unwrap()
}

/// A codec in which a value is the name of an actor's type.
fn decode(bytes: &[u8]) -> Option<Decoded> {
    if bytes == b"?" {
        return None;
    }
    let name = String::from_utf8(bytes.to_vec()).ok()?;
    let tag = match name.strip_prefix("id:") {
        Some(id) => compound(vec![("id", text(id))]),
        None => compound(vec![("identifier", text(&name))]),
    };
    Some(Decoded { tag, consumed: bytes.len() })
}

fn world() -> Snapshot {
    snapshot(vec![
        entry(b"actorprefix00000001", b"minecraft:cow"),
        entry(b"actorprefix00000002", b"minecraft:player"),
        entry(b"actorprefix00000003", b"?"),
        entry(b"actorprefix00000004", b"id:minecraft:cow"),
        entry(b"actorprefix00000005", b"minecraft:bat"),
        entry(b"digp00000000", b"00000001"),
        entry(b"player_1", b""),
        entry(b"player_server_1", b""),
        entry(b"~local_player", b""),
        entry(b"~other", b""),
        entry(b"~player_2", b""),
    ])
}

fn keys(entries: &[DbEntry]) -> Vec<String> {
    entries.iter().map(|e| String::from_utf8_lossy(&e.key).to_string()).collect()
}

#[test]
fn snapshots_are_in_key_order() {
    assert!(Snapshot::new(vec![entry(b"b", b""), entry(b"a", b"")]).is_none());
    assert!(Snapshot::new(vec![entry(b"a", b""), entry(b"a", b"")]).is_none());
    assert!(Snapshot::new(vec![]).unwrap().entries().is_empty());
    let s = world();
    assert_eq!(s.get(b"digp00000000"), Some(&b"00000001".to_vec()));
    assert_eq!(s.get(b"digp"), None);
    assert_eq!(s.get(b"zzz"), None);
}

#[test]
fn prefixes_are_scanned() {
    let s = world();
    assert_eq!(keys(&s.scan_prefix(b"player_")), vec!["player_1", "player_server_1"]);
    assert_eq!(s.scan_prefix(b"").len(), 11);
    assert!(s.scan_prefix(b"nothing").is_empty());
    assert_eq!(scan_actor_keys(&s).len(), 5);
    assert_eq!(keys(&scan_grouped_players(&s)), vec!["~local_player", "~player_2", "player_1"]);
    assert_eq!(
        keys(&scan_all_grouped_players(&s)),
        vec!["~local_player", "~player_2", "player_1", "player_server_1"]
    );
}

#[test]
fn actors_are_listed_by_type() {
    let s = world();
    let actors = scan_actor_keys(&s);
    let tags = decode_values(&actors, &decode);
    assert_eq!(type_of_actor(&tags[2]), "unknown");
    assert_eq!(type_of_actor(&tags[3]), "minecraft:cow");
    assert_eq!(
        rendered(&list_actors(&actors, &tags)),
        vec![
            "\n═══ 实体列表 (5 个) ═══",
            "\n  实体类型分布 (前 30):",
            "    minecraft:cow: 2",
            "    minecraft:bat: 1",
            "    minecraft:player: 1 ←",
            "    unknown: 1",
            "\n  玩家实体 (1):",
            "    [1] key=61 63 74 6f 72 70 72 65 66 69 78 30 30 30 30 30 30 30 32",
            "\n  使用 --player <key> 查看玩家数据",
        ]
    );
    assert_eq!(
        rendered(&list_actors(&vec![], &vec![])),
        vec!["\n═══ 实体列表 (0 个) ═══", "  未找到实体"]
    );
}

#[test]
fn lists_of_actors_are_cut_short() {
    let actors: Vec<DbEntry> = (0..22u8).map(|i| entry(&[i], b"")).collect();
    let tags: Vec<Option<CompoundTag>> = (0..22)
        .map(|_| Some(compound(vec![("identifier", text("minecraft:player"))])))
        .collect();
    let lines = rendered(&list_actors(&actors, &tags));
    assert_eq!(lines[3], "\n  玩家实体 (22):");
    assert_eq!(lines[23], "    [20] key=13");
    assert_eq!(lines[24], "    ... 还有 2 个");
    let tags: Vec<Option<CompoundTag>> =
        (0..40).map(|i| Some(compound(vec![("id", text(&format!("t{:02}", i)))]))).collect();
    let actors: Vec<DbEntry> = (0..40u8).map(|i| entry(&[i], b"")).collect();
    let lines = rendered(&list_actors(&actors, &tags));
    assert_eq!(lines.len(), 33);
    assert_eq!(lines[31], "    t29: 1");
}

#[test]
fn names_are_ranked() {
    let names: Vec<String> =
        ["b", "a", "c", "b", "é", "z", "é", "c"].iter().map(|s| s.to_string()).collect();
    let r: Vec<(String, usize)> = rank_names(&names).into_iter().map(|t| (t.name, t.count)).collect();
    let expected = [("b", 2), ("c", 2), ("é", 2), ("a", 1), ("z", 1)];
    assert_eq!(r, expected.iter().map(|(n, c)| (n.to_string(), *c)).collect::<Vec<_>>());
    assert!(rank_names(&vec![]).is_empty());
}

#[test]
fn wiping_spares_players_unless_told() {
    let s = world();
    let wiped = |all: bool| -> Vec<String> {
        plan_wipe(&s, all, &decode).iter().map(|k| String::from_utf8_lossy(k).to_string()).collect()
    };
    assert_eq!(
        wiped(false),
        vec![
            "actorprefix00000001",
            "actorprefix00000003",
            "actorprefix00000004",
            "actorprefix00000005"
        ]
    );
    assert_eq!(
        wiped(true),
        vec![
            "actorprefix00000001",
            "actorprefix00000002",
            "actorprefix00000003",
            "actorprefix00000004",
            "actorprefix00000005",
            "~local_player",
            "~player_2",
            "player_1",
            "player_server_1"
        ]
    );
}

fn float(f: f32) -> Tag {
    Tag::Float(f.to_bits())
}

fn whole(r: Real) -> i64 {
    match r {
        Real::Single(b) => f32::from_bits(b).floor() as i64,
        Real::Double(b) => f64::from_bits(b).floor() as i64,
    }
}

fn standing(x: f32, z: f32, more: Vec<(&str, Tag)>) -> CompoundTag {
    let mut entries = vec![("Pos", Tag::List(vec![float(x), float(64.0), float(z)]))];
    entries.extend(more);
    compound(entries)
}

#[test]
fn actors_count_for_a_group() {
    let r = actor_record(
        &standing(-0.5, 33.9, vec![("identifier", text("cow")), ("DimensionId", Tag::Int(1))]),
        2,
        &whole,
    )
    .unwrap();
    assert_eq!((r.dim, r.group_x, r.group_z, r.identifier.as_str()), (1, -1, 1, "cow"));
    let r = actor_record(&standing(-17.0, -1.0, vec![("id", text("bat"))]), 1, &whole).unwrap();
    assert_eq!((r.dim, r.group_x, r.group_z, r.identifier.as_str()), (0, -2, -1, "bat"));
    // The first of two names that is there counts, whatever it holds.
    let odd = standing(0.0, 0.0, vec![("identifier", Tag::Int(1)), ("id", text("bat")), ("Dimension", Tag::Byte(-1))]);
    let r = actor_record(&odd, 1, &whole).unwrap();
    assert_eq!((r.dim, r.identifier.as_str()), (255, "unknown"));
    assert!(actor_record(&CompoundTag::new(), 1, &whole).is_none());
    let short = compound(vec![("Pos", Tag::List(vec![float(1.0), float(2.0)]))]);
    assert!(actor_record(&short, 1, &whole).is_none());
    let wrong = compound(vec![("Pos", Tag::List(vec![float(1.0), float(2.0), Tag::Int(3)]))]);
    assert!(actor_record(&wrong, 1, &whole).is_none());
}

fn record(dim: u8, group_x: i32, group_z: i32, name: &str) -> EntityRecord {
    EntityRecord { dim, group_x, group_z, identifier: name.to_string() }
}

#[test]
fn records_are_grouped_by_place() {
    let records = vec![record(1, 0, 0, "a"), record(0, 5, 1, "b"), record(1, 0, 0, "c"), record(0, -5, 9, "d")];
    let groups: Vec<(u8, i32, i32, Vec<String>)> =
        group_records(&records).into_iter().map(|g| (g.dim, g.group_x, g.group_z, g.members)).collect();
    assert_eq!(
        groups,
        vec![
            (0, -5, 9, vec!["d".to_string()]),
            (0, 5, 1, vec!["b".to_string()]),
            (1, 0, 0, vec!["a".to_string(), "c".to_string()]),
        ]
    );
}

#[test]
fn densest_groups_come_first() {
    let mut records = Vec::new();
    for i in 0..7 {
        for _ in 0..=i % 6 {
            records.push(record(0, i, -i, "cow"));
        }
    }
    records.push(record(2, -1, -1, "bat"));
    records.push(record(2, -1, -1, "bat"));
    records.push(record(2, -1, -1, "axolotl"));
    let lines = rendered(&density_report(99, &records, 2));
    assert_eq!(lines[0], "\n═══ 区块实体密度 Top 5 (2×2 区块组) ═══");
    assert_eq!(lines[1], "  实体总数: 99  主世界: 22  末地: 3  区块组: 8");
    assert_eq!(lines[2], "\n  #1  [主世界] 区块组 (10, -10) ~ (11, -9)  中点方块 (168, -136)");
    assert_eq!(lines[3], "      实体总数: 6");
    assert_eq!(lines[4], "      Top 实体:");
    assert_eq!(lines[5], "        cow: 6");
    assert_eq!(lines[6], "\n  #2  [主世界] 区块组 (8, -8) ~ (9, -7)  中点方块 (136, -104)");
    assert_eq!(lines[14], "\n  #4  [主世界] 区块组 (4, -4) ~ (5, -3)  中点方块 (72, -40)");
    // Of two groups with as many entities the one in the lower dimension comes first.
    assert_eq!(lines[18], "\n  #5  [末地] 区块组 (-2, -2) ~ (-1, -1)  中点方块 (-8, -8)");
    assert_eq!(lines[21], "        bat: 2");
    assert_eq!(lines[22], "        axolotl: 1");
    assert_eq!(lines.len(), 23);
}

#[test]
fn worlds_without_actors_have_no_density() {
    assert_eq!(
        rendered(&density_report(0, &vec![], 1)),
        vec!["\n═══ 区块实体密度分析 ═══\n  存档中无实体数据"]
    );
    assert_eq!(rendered(&density_report(3, &vec![], 1))[1], "  实体总数: 3  区块组: 0");
}

fn chunk_world() -> Snapshot {
    let mut entries = vec![entry(b"player_1", b""), entry(b"~local_player", b""), entry(b"short", b"")];
    for (cx, cz) in [(0, 0), (0, 1), (1, 0), (-1, -1), (5, 5)] {
        entries.push(entry(&subchunk_key(cx, cz, 0), b"over"));
        entries.push(entry(&subchunk_key(cx, cz, 1), b"over1"));
    }
    for dim in [1u8, 2] {
        let forms = keys_in_dimension(&subchunk_key(0, 0, 0), dim);
        entries.push(entry(&forms[0], b"long"));
        entries.push(entry(&forms[1], b"short"));
    }
    snapshot(entries)
}

#[test]
fn areas_are_between_blocks() {
    assert_eq!(sort_pair(3, -1), (-1, 3));
    assert_eq!(block_area(100, 15, -1, 16), Area { cx1: -1, cz1: 0, cx2: 6, cz2: 1 });
    assert_eq!(chunk_count(block_area(100, 15, -1, 16)), 16);
    assert_eq!(chunk_count(block_area(7, 7, 7, 7)), 1);
    let whole = block_area(i32::MIN, i32::MIN, i32::MAX, i32::MAX);
    assert_eq!(chunk_count(whole), 1i64 << 56);
}

#[test]
fn chunks_are_collected_column_by_column() {
    let s = chunk_world();
    assert_eq!(collect_chunk_keys(&s, 0, 0).len(), 6);
    assert_eq!(collect_chunk_keys(&s, 9, 9).len(), 0);
    let area = block_area(-16, -16, 31, 31);
    let found = collect_area(&s, DimFilter::Any, area);
    let places: Vec<(i32, i32, usize)> =
        found.iter().map(|c| (c.cx, c.cz, c.entries.len())).collect();
    assert_eq!(places, vec![(-1, -1, 2), (0, 0, 6), (0, 1, 2), (1, 0, 2)]);
    let nether = collect_area(&s, DimFilter::Either(1), area);
    assert_eq!(nether.len(), 1);
    assert_eq!(nether[0].entries.len(), 2);
    assert_eq!(collect_area(&s, DimFilter::Field(1), area)[0].entries.len(), 1);
}

fn apply(s: &Snapshot, keys: &[Vec<u8>]) -> Snapshot {
    let left: Vec<DbEntry> = s
        .entries()
        .iter()
        .filter(|e| !keys.contains(&e.key))
        .map(|e| entry(&e.key, &e.value))
        .collect();
    Snapshot::new(left).unwrap()
}

#[test]
fn deletion_empties_the_area_only() {
    let s = chunk_world();
    let area = block_area(0, 0, 31, 31);
    let plan = plan_area_deletion(&s, area, 0);
    // Keys with a dimension in one byte are not told from those of the overworld here.
    assert_eq!((plan.keys.len(), plan.chunks, plan.empty), (8, 3, 1));
    let after = apply(&s, &plan.keys);
    assert_eq!(after.entries().len(), s.entries().len() - 8);
    let again = plan_area_deletion(&after, area, 0);
    assert_eq!((again.keys.len(), again.chunks, again.empty), (0, 0, 4));
    let nether = plan_area_deletion(&after, area, 1);
    assert_eq!((nether.keys.len(), nether.chunks), (1, 1));
}

#[test]
fn batches_are_inverted() {
    let s = chunk_world();
    let rects = vec![
        ChunkRect { dim_id: 0, cx1: 0, cz1: 0, cx2: 0, cz2: 1 },
        ChunkRect { dim_id: 2, cx1: -9, cz1: -9, cx2: 9, cz2: 9 },
    ];
    assert!(is_chunk_in_rects(0, 1, 0, &rects));
    assert!(!is_chunk_in_rects(1, 0, 0, &rects));
    assert!(!is_chunk_in_rects(0, 0, 1, &rects));
    assert!(is_chunk_in_rects(-9, 9, 2, &rects));
    let inside = plan_batch_deletion(s.entries(), &rects, false);
    let outside = plan_batch_deletion(s.entries(), &rects, true);
    let all = collect_all_chunk_keys(s.entries());
    assert_eq!(all.len(), 14);
    assert_eq!(inside.len(), 7);
    assert_eq!(outside.len(), 7);
    for k in &all {
        assert!(inside.contains(k) != outside.contains(k));
        assert_eq!(takes_key(&rects, false, k), inside.contains(k));
    }
    assert!(!takes_key(&rects, true, b"player_1234"));
    assert!(!takes_key(&rects, true, b"scoreboard"));
    assert!(takes_key(&rects, true, &subchunk_key(126, 0, 0)));
    let mixed = vec![
        DbEntry { key: b"map_-4294967295".to_vec(), value: vec![] },
        DbEntry { key: b"scoreboard".to_vec(), value: vec![] },
        DbEntry { key: subchunk_key(126, 0, 0), value: vec![] },
    ];
    assert_eq!(plan_batch_deletion(&mixed, &rects, true), vec![subchunk_key(126, 0, 0)]);
    assert_eq!(distinct_chunks(&all).len(), 5);
    assert_eq!(distinct_chunks(&inside), vec![(0, 0), (0, 1)]);
    assert!(distinct_chunks(&vec![b"short".to_vec()]).is_empty());
}

fn rects(text: &str) -> Result<Vec<ChunkRect>, BatchError> {
    parse_and_validate_batch(text)
}

#[test]
fn batch_files_are_read() {
    let text = "{\"total\": 2, \"regions\": [
        {\"dimension\": 0, \"x1\": 0, \"z1\": 0, \"x2\": 100, \"z2\": 100},
        {\"dimension\": \"Nether\", \"x1\": 50, \"z1\": -50, \"x2\": -50, \"z2\": 50}]}";
    let r = rects(text).ok().unwrap();
    assert_eq!(
        r,
        vec![
            ChunkRect { dim_id: 0, cx1: 0, cz1: 0, cx2: 6, cz2: 6 },
            ChunkRect { dim_id: 1, cx1: -4, cz1: -4, cx2: 3, cz2: 3 },
        ]
    );
    // The total may be missing, and coordinates keep 32 bits.
    let text = "{\"regions\": [
        {\"dimension\": 2, \"x1\": 4294967296, \"z1\": 0, \"x2\": 16, \"z2\": 0}]}";
    assert_eq!(rects(text).ok().unwrap()[0], ChunkRect { dim_id: 2, cx1: 0, cz1: 0, cx2: 1, cz2: 0 });
}

#[test]
fn batch_files_are_checked() {
    let err = |t: &str| rects(t).err().unwrap();
    assert!(matches!(err("nonsense"), BatchError::Json(_)));
    assert!(matches!(err("[]"), BatchError::NoRegions));
    assert!(matches!(err("{\"regions\": 1}"), BatchError::NoRegions));
    assert!(matches!(err("{\"regions\": []}"), BatchError::EmptyRegions));
    assert!(matches!(err("{\"total\": 2, \"regions\": [1]}"), BatchError::TotalMismatch(2, 1)));
    for total in ["-1", "\"1\"", "null", "1.0", "[]"] {
        let text = format!("{{\"total\": {}, \"regions\": [{{\"dimension\": 0, \"x1\": 0, \"z1\": 0, \"x2\": 1, \"z2\": 1}}]}}", total);
        assert!(matches!(err(&text), BatchError::TotalNotACount(1)));
    }
    assert!(matches!(err("{\"regions\": [1]}"), BatchError::NotAnObject(0)));
    assert!(matches!(err("{\"regions\": [{}]}"), BatchError::NoDimension(0)));
    let dim = |d: &str| err(&format!("{{\"regions\": [{{\"dimension\": {}}}]}}", d));
    assert!(matches!(dim("3"), BatchError::Dimension(DimensionError::Invalid(3))));
    assert!(matches!(dim("-1"), BatchError::Dimension(DimensionError::Invalid(-1))));
    assert!(matches!(dim("1.0"), BatchError::Dimension(DimensionError::NotAnInteger)));
    assert!(matches!(dim("18446744073709551615"), BatchError::Dimension(DimensionError::NotAnInteger)));
    assert!(matches!(dim("null"), BatchError::Dimension(DimensionError::WrongKind)));
    assert!(matches!(dim("\"Moon\""), BatchError::Dimension(DimensionError::UnknownName(s)) if s == "Moon"));
    let coordinate = |rest: &str| err(&format!("{{\"regions\": [{{\"dimension\": \"END\"{}}}]}}", rest));
    assert!(matches!(coordinate(""), BatchError::Coordinate(0, Corner::X1)));
    assert!(matches!(coordinate(",\"x1\":1"), BatchError::Coordinate(0, Corner::Z1)));
    assert!(matches!(coordinate(",\"x1\":1,\"z1\":1"), BatchError::Coordinate(0, Corner::X2)));
    assert!(matches!(coordinate(",\"x1\":1,\"z1\":1,\"x2\":1,\"z2\":\"1\""), BatchError::Coordinate(0, Corner::Z2)));
    for (name, dim) in [("OVERWORLD", 0u8), ("nEtHeR", 1), ("End", 2)] {
        let text = format!("{{\"regions\": [{{\"dimension\": \"{}\", \"x1\": 0, \"z1\": 0, \"x2\": 0, \"z2\": 0}}]}}", name);
        assert_eq!(rects(&text).ok().unwrap()[0].dim_id, dim);
    }
    assert_eq!(dimension_by_name("overworld"), Some(0));
    assert_eq!(dimension_by_name("0"), None);
}
