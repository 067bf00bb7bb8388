use world_inspector::codec::Decoded;
use world_inspector::dump::{container_name, format_chest_items, tag_to_lines};
use world_inspector::level::{describe_world, level_payload, read_level, LevelError};
use world_inspector::lines::{Line, Piece};
use world_inspector::messages::{describe_deletion, describe_miss};
use world_inspector::name_order::places_by_name;
use world_inspector::nbt::{CompoundTag, Real, Tag};
use world_inspector::player_report::{
    dim_label, fmt_dim_id, fmt_game_type, fmt_pos, player_info, show_nbt_keys,
    show_player_info_full_inner,
};
use world_inspector::regions::Area;
use world_inspector::store::DbEntry;
use world_inspector::summary::{db_summary, kind_of_key, KeyKind};
use world_inspector::world::PlayerChoice;

fn compound(entries: Vec<(&str, Tag)>) -> CompoundTag {
    CompoundTag { entries: entries.into_iter().map(|(k, v)| (k.to_string(), v)).collect() }
}

fn text(s: &str) -> Tag {
    Tag::Text(s.to_string())
}

fn float(f: f32) -> Tag {
    Tag::Float(f.to_bits())
}

fn value(r: &Real) -> f64 {
    match r {
        Real::Single(b) => f32::from_bits(*b) as f64,
        Real::Double(b) => f64::from_bits(*b),
    }
}

fn render(line: &Line) -> String {
    let mut out = String::new();
    for p in &line.pieces {
        match p {
            Piece::Text(s) => out.push_str(s),
            Piece::Int(v) => out.push_str(&format!("{}", v)),
            Piece::Count(n) => out.push_str(&format!("{}", n)),
            Piece::Wide(v) => out.push_str(&format!("{:2}", v)),
            Piece::Real(Real::Single(b)) => out.push_str(&format!("{}", f32::from_bits(*b))),
            Piece::Real(Real::Double(b)) => out.push_str(&format!("{}", f64::from_bits(*b))),
            Piece::Fixed(r, n) => out.push_str(&format!("{:.*}", *n as usize, value(r))),
            Piece::Percent(r) => out.push_str(&format!("{:.0}", value(r) * 100.0)),
            Piece::Bytes(b) => out.push_str(&format!("{:02x?}", b)),
        }
    }
    out
}

fn rendered(lines: &[Line]) -> Vec<String> {
    lines.iter().map(render).collect()
}

#[test]
fn tags_are_dumped() {
    let tag = Tag::Compound(compound(vec![
        ("a", Tag::Byte(1)),
        ("b", Tag::List(vec![Tag::Short(2), text("x,"), Tag::Long(-3)])),
        ("c", Tag::Compound(CompoundTag::new())),
        ("d", Tag::Double(2.5f64.to_bits())),
        ("e", Tag::IntArray(vec![1, 2])),
        ("f", Tag::End),
    ]));
    assert_eq!(
        rendered(&tag_to_lines(&tag, "", 1)),
        vec![
            "  {",
            "    \"a\": 1b,",
            "    \"b\": [",
            "      2s,",
            "      \"x,\",",
            "      -3L",
            "    ],",
            "    \"c\": {",
            "    },",
            "    \"d\": 2.5d,",
            "    \"e\": [I; 2 ints],",
            "  }",
        ]
    );
    // The entries come in the order of their names, at every depth.
    let tag = Tag::Compound(compound(vec![
        ("b", Tag::Int(5)),
        ("a", Tag::Compound(compound(vec![("y", Tag::Int(2)), ("Z", Tag::Int(1))]))),
    ]));
    assert_eq!(
        rendered(&tag_to_lines(&tag, "", 0)),
        vec!["{", "  \"a\": {", "    \"Z\": 1,", "    \"y\": 2", "  },", "  \"b\": 5", "}"]
    );
    let tag = Tag::Compound(compound(vec![("b", Tag::Int(5)), ("a", Tag::Compound(CompoundTag::new()))]));
    assert_eq!(rendered(&tag_to_lines(&tag, "", 0)), vec!["{", "  \"a\": {", "  },", "  \"b\": 5", "}"]);
    assert_eq!(rendered(&tag_to_lines(&float(0.5), "p: ", 0)), vec!["p: 0.5f"]);
    assert_eq!(rendered(&tag_to_lines(&Tag::ByteArray(vec![0; 3]), "", 0)), vec!["[B; 3 bytes]"]);
    assert_eq!(rendered(&tag_to_lines(&Tag::LongArray(vec![]), "", 0)), vec!["[L; 0 longs]"]);
    assert!(tag_to_lines(&Tag::End, "", 3).is_empty());
}

#[test]
fn containers_are_listed() {
    let be = compound(vec![(
        "Items",
        Tag::List(vec![
            Tag::Compound(compound(vec![
                ("Count", Tag::Byte(3)),
                ("Damage", Tag::Short(1)),
                ("Name", text("minecraft:bow")),
                ("Slot", Tag::Byte(4)),
                ("tag", Tag::Compound(compound(vec![("k", Tag::Int(1))]))),
            ])),
            Tag::Int(9),
            Tag::Compound(CompoundTag::new()),
        ]),
    )]);
    assert_eq!(
        rendered(&format_chest_items(&be)),
        vec![
            "  [Slot  4] minecraft:bow  x3  (damage: 1)",
            "         {",
            "           \"k\": 1",
            "         }",
            "  [???]    unknown  x0  (damage: 0)",
        ]
    );
    assert_eq!(rendered(&format_chest_items(&CompoundTag::new())), vec!["  (empty)"]);
}

#[test]
fn container_names_lose_their_quotes() {
    let named = |s: &str| container_name(&compound(vec![("CustomName", text(s))]));
    assert_eq!(named("\"Loot\"").unwrap(), "Loot");
    assert_eq!(named("Loot").unwrap(), "Loot");
    assert_eq!(named("\"\"").unwrap(), "");
    assert_eq!(named("\"Loot").unwrap(), "\"Loot");
    assert!(container_name(&CompoundTag::new()).is_none());
}

#[test]
fn players_are_described() {
    let items: Vec<Tag> = (0..10)
        .map(|i| {
            Tag::Compound(compound(vec![
                ("Count", Tag::Byte(i)),
                ("Name", text("it")),
                ("Slot", Tag::Byte(i)),
            ]))
        })
        .collect();
    let tag = compound(vec![
        ("Air", Tag::Short(299)),
        ("DimensionId", Tag::Int(1)),
        ("Fire", Tag::Short(0)),
        ("Health", Tag::Short(20)),
        ("Inventory", Tag::List(items)),
        ("Level", Tag::Int(7)),
        ("Pos", Tag::List(vec![float(1.25), float(64.0), float(-0.5)])),
        ("Rotation", Tag::List(vec![float(90.0), Tag::Int(0)])),
        ("ServerId", text("player_server_1")),
        ("UniqueID", Tag::Long(-12)),
        ("XpProgress", float(0.5)),
        (
            "abilities",
            Tag::Compound(compound(vec![
                ("flying", Tag::Byte(0)),
                ("mayfly", Tag::Byte(1)),
                ("walkSpeed", float(0.1)),
            ])),
        ),
        ("foodLevel", Tag::Int(18)),
        ("foodSaturationLevel", float(2.5)),
        ("identifier", text("minecraft:player")),
        ("playerGameType", Tag::Int(1)),
    ]);
    let lines = rendered(&player_info("player_1", Some(&tag), &[], false));
    assert_eq!(
        lines,
        vec![
            "  ─── player_1 ───",
            "  类型: minecraft:player",
            "  ServerId: player_server_1",
            "  位置: (1.2, 64.0, -0.5)",
            "  维度: 1 (下界)",
            "  朝向: yaw=90.0°, pitch=0.0°",
            "  生命: 20.0",
            "  游戏模式: 创造",
            "  等级: 7 (50%)",
            "  饱食度: 18",
            "  饱和度: 2.5",
            "  氧气: 299 ticks",
            "  UniqueID: -12",
            "  能力:",
            "    行走速度: 0.10",
            "    mayfly: 是",
            "  物品栏: 10 格",
            "    [Slot  0] it x0",
            "    [Slot  1] it x1",
            "    [Slot  2] it x2",
            "    [Slot  3] it x3",
            "    [Slot  4] it x4",
            "    [Slot  5] it x5",
            "    [Slot  6] it x6",
            "    [Slot  7] it x7",
            "    ... 还有 2 格",
        ]
    );
}

#[test]
fn unknown_fields_are_shown() {
    let tag = compound(vec![
        ("Air", Tag::Int(300)),
        ("Fire", Tag::Int(5)),
        ("Health", float(7.5)),
        ("Level", Tag::Int(1)),
        ("custom", text("v")),
    ]);
    assert_eq!(
        rendered(&player_info("p", Some(&tag), &[], false)),
        vec![
            "  ─── p ───",
            "  生命: 7.5",
            "  等级: 1",
            "  着火: 5 ticks",
            "\n  其他 NBT 字段:",
            "    Air: int",
            "    Fire: int",
            "    Health: float",
            "    Level: int",
            "    custom: \"v\"",
        ]
    );
}

#[test]
fn fields_are_cut_short() {
    let tag = compound(vec![
        ("a", Tag::List(vec![])),
        ("b", Tag::List(vec![Tag::Compound(CompoundTag::new())])),
        ("c", Tag::List(vec![Tag::Int(1)])),
        ("d", Tag::LongArray(vec![])),
    ]);
    assert_eq!(
        rendered(&show_nbt_keys(&tag, 3)),
        vec!["    a: []", "    b: compound[]", "    c: list", "    ... 还有 1 个字段"]
    );
    assert_eq!(rendered(&show_nbt_keys(&tag, 4))[3], "    d: ?");
    let tag = compound(vec![("c", text("3")), ("a", text("1")), ("b", text("2"))]);
    assert_eq!(
        rendered(&show_nbt_keys(&tag, 2)),
        vec!["    a: \"1\"", "    b: \"2\"", "    ... 还有 1 个字段"]
    );
}

#[test]
fn names_are_put_in_order() {
    let tag = compound(vec![
        ("b", Tag::Int(1)),
        ("é", Tag::Int(2)),
        ("a", Tag::Int(3)),
        ("", Tag::Int(4)),
        ("aa", Tag::Int(5)),
        ("a", Tag::Int(6)),
        ("A", Tag::Int(7)),
    ]);
    assert_eq!(places_by_name(&tag), vec![3, 6, 2, 5, 4, 0, 1]);
    assert!(places_by_name(&CompoundTag::new()).is_empty());
}

#[test]
fn data_that_cannot_be_decoded_is_shown_in_part() {
    let none = |_: &[u8]| None::<Decoded>;
    assert_eq!(
        rendered(&show_player_info_full_inner(b"p", &[1, 2, 3, 4, 5, 6, 7, 8, 9], false, &none)),
        vec!["  ─── p ───", "   无法解析为 NBT, 首字节: [01, 02, 03, 04, 05, 06, 07, 08]"]
    );
    assert_eq!(
        rendered(&player_info("p", None, &[0xab], true))[1],
        "   无法解析为 NBT, 首字节: [ab]"
    );
}

#[test]
fn data_is_dumped_whole() {
    let some = |b: &[u8]| {
        Some(Decoded { tag: compound(vec![("x", Tag::Int(1))]), consumed: b.len() })
    };
    assert_eq!(
        rendered(&show_player_info_full_inner(b"p\xff", b"12345", true, &some)),
        vec![
            "  ─── p\u{fffd} ───",
            "  {",
            "    \"x\": 1",
            "  }",
            "\n  (完整 NBT 转储，5 字节)",
        ]
    );
}

#[test]
fn positions_of_any_length() {
    let pos = |v: Vec<Tag>| render(&fmt_pos(&Tag::List(v)));
    assert_eq!(pos(vec![]), "");
    assert_eq!(pos(vec![float(1.0), Tag::Int(5)]), "1.0");
    assert_eq!(pos(vec![float(1.0), Tag::Double(2.26f64.to_bits())]), "1.0, 2.3");
    assert_eq!(render(&fmt_pos(&Tag::Int(1))), "?");
}

#[test]
fn numbers_have_names() {
    assert_eq!([fmt_dim_id(0), fmt_dim_id(1), fmt_dim_id(2), fmt_dim_id(-1)], ["主世界", "下界", "末地", "?"]);
    assert_eq!(dim_label(2), "末地");
    assert_eq!(dim_label(255), "?");
    assert_eq!(
        [fmt_game_type(0), fmt_game_type(1), fmt_game_type(2), fmt_game_type(3), fmt_game_type(4)],
        ["生存", "创造", "冒险", "旁观", "?"]
    );
}

fn keyed(key: &[u8]) -> DbEntry {
    DbEntry { key: key.to_vec(), value: vec![] }
}

#[test]
fn keys_are_counted_by_kind() {
    let chunk = |tag: u8| keyed(&[0, 0, 0, 0, 0, 0, 0, 0, tag]);
    let entries = vec![
        chunk(0x2f),
        chunk(0x2f),
        chunk(0x31),
        chunk(0x32),
        chunk(0x33),
        chunk(0x34),
        chunk(0x36),
        chunk(0x38),
        chunk(0x99),
        keyed(b"~p"),
        keyed(b"player_1"),
        keyed(b"x"),
    ];
    assert_eq!(
        rendered(&db_summary(&entries)),
        vec![
            "  DB 键: 12 条",
            "    biome_state: 1",
            "    block_entities: 1",
            "    block_extra: 1",
            "    chunk_version: 1",
            "    entities: 1",
            "    other: 2",
            "    pending_ticks: 1",
            "    player_data: 2",
            "    subchunks: 2",
        ]
    );
    // A long key is told by its ninth byte alone.
    assert_eq!(kind_of_key(b"player_11"), KeyKind::BlockEntities);
    assert_eq!(kind_of_key(b"~local_pl"), KeyKind::Other);
    assert_eq!(rendered(&db_summary(&Vec::new())), vec!["  DB 键: 0 条"]);
}

#[test]
fn level_files_have_a_header() {
    let file = |size: i32, data: &[u8]| {
        let mut raw = vec![10, 0, 0, 0];
        raw.extend_from_slice(&size.to_le_bytes());
        raw.extend_from_slice(data);
        raw
    };
    assert_eq!(level_payload(&[0; 7]), Err(LevelError::TooShort));
    assert_eq!(level_payload(&file(2, b"abc")), Ok(&b"ab"[..]));
    assert_eq!(level_payload(&file(3, b"abc")), Ok(&b"abc"[..]));
    assert_eq!(level_payload(&file(9, b"abc")), Ok(&b"abc"[..]));
    assert_eq!(level_payload(&file(0, b"abc")), Ok(&b""[..]));
    assert_eq!(level_payload(&file(-9, b"abc")), Ok(&b"abc"[..]));
    assert_eq!(level_payload(&file(-8, b"abc")), Err(LevelError::Length(-8)));
    assert_eq!(level_payload(&file(-1, b"abc")), Err(LevelError::Length(-1)));
    let decode = |b: &[u8]| {
        if b == b"ok" {
            Some(Decoded { tag: compound(vec![("LevelName", text("W"))]), consumed: 2 })
        } else {
            None
        }
    };
    let level = read_level(&file(2, b"ok!"), &decode).ok().unwrap();
    assert_eq!(render(&describe_world(&level)), "  World: W  (v(unknown))");
    assert_eq!(read_level(&file(3, b"bad"), &decode).err(), Some(LevelError::Undecodable));
    assert_eq!(read_level(&[], &decode).err(), Some(LevelError::TooShort));
}

#[test]
fn deletions_are_described() {
    let area = Area { cx1: -1, cz1: 0, cx2: 1, cz2: 1 };
    assert_eq!(
        rendered(&describe_deletion(area, 12, 2, 0, 0)),
        vec![
            "  区块删除完成: 范围 (-1, 0) ~ (1, 1), 共 6 区块",
            "  删除 12 条键值, 涉及 2 区块, 4 区块无数据",
            "  验证: 目标区域数据已全部删除",
        ]
    );
    assert_eq!(
        rendered(&describe_deletion(area, 12, 2, 3, 1))[2],
        "  验证: 3 条键值在 1 个区块中未清除 (仅 WAL 写入, 待 compaction)"
    );
    assert_eq!(describe_deletion(area, 0, 0, 0, 0).len(), 2);
}

#[test]
fn missing_players_are_described() {
    let labels: Vec<String> = (0..12).map(|i| format!("player_{}", i)).collect();
    let lines = rendered(&describe_miss(&labels, "z", &PlayerChoice::Missing));
    assert_eq!(lines[0], "错误: 未找到玩家 'z'");
    assert_eq!(lines[1], "可用玩家 (前 10 位):");
    assert_eq!(lines[11], "  player_9");
    assert_eq!(lines[12], "  ... 还有 2 位");
    assert_eq!(lines[13], "\n提示: 用 --player <UUID> 搜索，或用 --actors 列出所有实体");
    assert_eq!(
        rendered(&describe_miss(&labels, "1", &PlayerChoice::Ambiguous(vec![1, 10]))),
        vec!["错误: '1' 匹配 2 位玩家:", "  player_1", "  player_10"]
    );
    assert_eq!(describe_miss(&vec![], "z", &PlayerChoice::Missing).len(), 3);
    assert!(describe_miss(&labels, "player_1", &PlayerChoice::Found(1)).is_empty());
}
