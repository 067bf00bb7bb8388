//! What is shown of a player.

use crate::bytes::copy_bytes;
use crate::codec::{decode_one, decodes, is_decoder, Decoded};
use crate::dump::{margin, tag_lines, tag_to_lines};
use crate::lines::{
    lemma_joined, line_views, push_line, push_lines, words, Line, LineView, Piece, PieceView,
};
use crate::name_order::{by_name, law_name_order, name_order, nth_by_name, places_by_name};
use crate::nbt::{
    list_view, lookup, lookup_compound, lookup_i32, lookup_i64, lookup_list, lookup_real,
    lookup_text, tag_real, tag_to_real, CompoundTag, CompoundView, Real, Tag, TagView,
};
use crate::text::{decode_lossy, lossy_text, text_is};
use vstd::prelude::*;
use vstd::slice::slice_subrange;

verus! {

/// A line with a label and a text, where there is one.
pub open spec fn text_fact(label: Seq<char>, value: Option<Seq<char>>) -> Seq<LineView> {
    match value {
        Some(s) => seq![seq![words(label), words(s)]],
        None => Seq::empty(),
    }
}

/// A line with a label and a number, where there is one.
pub open spec fn number_fact(label: Seq<char>, value: Option<int>, unit: Seq<char>) -> Seq<
    LineView,
> {
    match value {
        Some(v) => seq![seq![words(label), PieceView::Int(v), words(unit)]],
        None => Seq::empty(),
    }
}

/// A line with a label and a floating-point number, where there is one.
pub open spec fn real_fact(label: Seq<char>, value: Option<Real>, digits: int) -> Seq<LineView> {
    match value {
        Some(v) => seq![seq![words(label), PieceView::Fixed(v, digits)]],
        None => Seq::empty(),
    }
}

/// A 32-bit number as an integer.
pub open spec fn widened(v: Option<i32>) -> Option<int> {
    match v {
        Some(n) => Some(n as int),
        None => None,
    }
}

/// The first of two numbers that is there.
pub open spec fn first_of<A>(a: Option<A>, b: Option<A>) -> Option<A> {
    match a {
        Some(_) => a,
        None => b,
    }
}

/// What an optional text holds.
pub open spec fn text_of(value: Option<&str>) -> Option<Seq<char>> {
    match value {
        Some(s) => Some(s@),
        None => None,
    }
}

/// What an optional compound holds.
pub open spec fn compound_of(tag: Option<&CompoundTag>) -> Option<CompoundView> {
    match tag {
        Some(t) => Some(t@),
        None => None,
    }
}

/// The floating-point numbers among tags.
pub open spec fn reals(elems: Seq<TagView>) -> Seq<Real>
    decreases elems.len(),
{
    if elems.len() == 0 {
        Seq::empty()
    } else {
        match tag_real(elems.last()) {
            Some(r) => reals(elems.drop_last()).push(r),
            None => reals(elems.drop_last()),
        }
    }
}

/// A number of a position.
pub open spec fn tenths(r: Real) -> PieceView {
    PieceView::Fixed(r, 1)
}

/// A position: its first three numbers in brackets, or as many as there are.
pub open spec fn position_pieces(pos: TagView) -> Seq<PieceView> {
    match pos {
        TagView::List(l) => {
            let v = reals(l);
            if v.len() >= 3 {
                seq![
                    words("("@),
                    tenths(v[0]),
                    words(", "@),
                    tenths(v[1]),
                    words(", "@),
                    tenths(v[2]),
                    words(")"@),
                ]
            } else if v.len() == 2 {
                seq![tenths(v[0]), words(", "@), tenths(v[1])]
            } else if v.len() == 1 {
                seq![tenths(v[0])]
            } else {
                Seq::empty()
            }
        },
        _ => seq![words("?"@)],
    }
}

/// The line of a position.
pub open spec fn position_fact(tag: CompoundView) -> Seq<LineView> {
    match lookup(tag, "Pos"@) {
        Some(pos) => seq![seq![words("  位置: "@)] + position_pieces(pos)],
        None => Seq::empty(),
    }
}

/// The name of a dimension.
pub open spec fn dim_name(id: int) -> Seq<char> {
    if id == 0 {
        "主世界"@
    } else if id == 1 {
        "下界"@
    } else if id == 2 {
        "末地"@
    } else {
        "?"@
    }
}

/// The name of a game mode.
pub open spec fn game_type_name(id: int) -> Seq<char> {
    if id == 0 {
        "生存"@
    } else if id == 1 {
        "创造"@
    } else if id == 2 {
        "冒险"@
    } else if id == 3 {
        "旁观"@
    } else {
        "?"@
    }
}

/// The line of the dimension.
pub open spec fn dimension_fact(tag: CompoundView) -> Seq<LineView> {
    match first_of(lookup_i32(tag, "DimensionId"@), lookup_i32(tag, "Dimension"@)) {
        Some(d) => seq![
            seq![
                words("  维度: "@),
                PieceView::Int(d as int),
                words(" ("@),
                words(dim_name(d as int)),
                words(")"@),
            ],
        ],
        None => Seq::empty(),
    }
}

/// An angle with one digit behind the point; zero where the tag holds none.
pub open spec fn angle(t: TagView) -> PieceView {
    match tag_real(t) {
        Some(r) => tenths(r),
        None => words("0.0"@),
    }
}

/// The line of the direction in which a player looks.
pub open spec fn rotation_fact(tag: CompoundView) -> Seq<LineView> {
    match lookup_list(tag, "Rotation"@) {
        Some(l) => if l.len() >= 2 {
            seq![
                seq![
                    words("  朝向: yaw="@),
                    angle(l[0]),
                    words("°, pitch="@),
                    angle(l[1]),
                    words("°"@),
                ],
            ]
        } else {
            Seq::empty()
        },
        None => Seq::empty(),
    }
}

/// The line of the health.
pub open spec fn health_fact(tag: CompoundView) -> Seq<LineView> {
    match lookup(tag, "Health"@) {
        Some(TagView::Short(v)) => seq![
            seq![words("  生命: "@), PieceView::Int(v as int), words(".0"@)],
        ],
        Some(TagView::Int(v)) => seq![
            seq![words("  生命: "@), PieceView::Int(v as int), words(".0"@)],
        ],
        Some(TagView::Float(v)) => seq![seq![words("  生命: "@), tenths(Real::Single(v))]],
        _ => Seq::empty(),
    }
}

/// The line of the game mode.
pub open spec fn game_type_fact(tag: CompoundView) -> Seq<LineView> {
    match lookup_i32(tag, "playerGameType"@) {
        Some(g) => seq![seq![words("  游戏模式: "@), words(game_type_name(g as int))]],
        None => Seq::empty(),
    }
}

/// The line of the level, with the progress to the next.
pub open spec fn level_fact(tag: CompoundView) -> Seq<LineView> {
    match lookup_i32(tag, "Level"@) {
        Some(l) => seq![
            seq![words("  等级: "@), PieceView::Int(l as int)] + match lookup_real(
                tag,
                "XpProgress"@,
            ) {
                Some(p) => seq![words(" ("@), PieceView::Percent(p), words("%)"@)],
                None => Seq::empty(),
            },
        ],
        None => Seq::empty(),
    }
}

/// A number, where it is below a bound.
pub open spec fn below(v: Option<i32>, bound: int) -> Option<int> {
    match v {
        Some(n) => if n < bound {
            Some(n as int)
        } else {
            None
        },
        None => None,
    }
}

/// A number, where it is above a bound.
pub open spec fn above(v: Option<i32>, bound: int) -> Option<int> {
    match v {
        Some(n) => if n > bound {
            Some(n as int)
        } else {
            None
        },
        None => None,
    }
}

/// A 64-bit number as an integer.
pub open spec fn widened_64(v: Option<i64>) -> Option<int> {
    match v {
        Some(n) => Some(n as int),
        None => None,
    }
}

/// The line of an ability that a player has.
pub open spec fn ability_fact(abilities: CompoundView, name: Seq<char>) -> Seq<LineView> {
    match lookup(abilities, name) {
        Some(TagView::Byte(v)) => if v != 0 {
            seq![seq![words("    "@), words(name), words(": 是"@)]]
        } else {
            Seq::empty()
        },
        _ => Seq::empty(),
    }
}

/// The lines of the abilities.
pub open spec fn abilities_facts(tag: CompoundView) -> Seq<LineView> {
    match lookup_compound(tag, "abilities"@) {
        Some(a) => seq![seq![words("  能力:"@)]] + real_fact(
            "    行走速度: "@,
            lookup_real(a, "walkSpeed"@),
            2,
        ) + ability_fact(a, "mayfly"@) + ability_fact(a, "instabuild"@) + ability_fact(
            a,
            "invulnerable"@,
        ) + ability_fact(a, "lightning"@) + ability_fact(a, "flying"@),
        None => Seq::empty(),
    }
}

/// The line of an item in the inventory, where it has a name and a count.
pub open spec fn carried_line(elem: TagView) -> Option<LineView> {
    match elem {
        TagView::Compound(c) => match (lookup_text(c, "Name"@), lookup_i32(c, "Count"@)) {
            (Some(name), Some(count)) => Some(
                seq![
                    words("    [Slot "@),
                    PieceView::Wide(
                        match lookup_i32(c, "Slot"@) {
                            Some(s) => s as int,
                            None => 0,
                        },
                    ),
                    words("] "@),
                    words(name),
                    words(" x"@),
                    PieceView::Int(count as int),
                ],
            ),
            _ => None,
        },
        _ => None,
    }
}

/// The lines of the items in an inventory.
pub open spec fn carried_lines(elems: Seq<TagView>) -> Seq<LineView>
    decreases elems.len(),
{
    if elems.len() == 0 {
        Seq::empty()
    } else {
        match carried_line(elems.last()) {
            Some(l) => carried_lines(elems.drop_last()).push(l),
            None => carried_lines(elems.drop_last()),
        }
    }
}

/// At most the first `n` of some lines.
pub open spec fn at_most(lines: Seq<LineView>, n: int) -> Seq<LineView> {
    if lines.len() <= n {
        lines
    } else {
        lines.take(n)
    }
}

/// The lines of the inventory: its size, eight of its items, and how many slots are not shown.
pub open spec fn carried_facts(tag: CompoundView) -> Seq<LineView> {
    match lookup_list(tag, "Inventory"@) {
        Some(l) => seq![
            seq![words("  物品栏: "@), PieceView::Int(l.len() as int), words(" 格"@)],
        ] + at_most(carried_lines(l), 8) + if l.len() > 8 {
            seq![
                seq![words("    ... 还有 "@), PieceView::Int(l.len() - 8), words(" 格"@)],
            ]
        } else {
            Seq::empty()
        },
        None => Seq::empty(),
    }
}

/// The name of the kind of a tag.
pub open spec fn kind_name(t: TagView) -> Seq<char> {
    match t {
        TagView::Byte(_) => "byte"@,
        TagView::Short(_) => "short"@,
        TagView::Int(_) => "int"@,
        TagView::Long(_) => "long"@,
        TagView::Float(_) => "float"@,
        TagView::Double(_) => "double"@,
        TagView::Text(_) => "string"@,
        TagView::Compound(_) => "compound"@,
        TagView::List(l) => if l.len() == 0 {
            "[]"@
        } else if l[0] is Compound {
            "compound[]"@
        } else {
            "list"@
        },
        _ => "?"@,
    }
}

/// The line of one field: its text, or its kind.
pub open spec fn field_line(name: Seq<char>, t: TagView) -> LineView {
    match t {
        TagView::Text(s) => seq![
            words("    "@),
            words(name),
            words(": \""@),
            words(s),
            words("\""@),
        ],
        _ => seq![words("    "@), words(name), words(": "@), words(kind_name(t))],
    }
}

/// The lines of the fields of a compound in the order of their names, so many at most, and how
/// many are not shown.
pub open spec fn field_lines(tag: CompoundView, most: int) -> Seq<LineView> {
    let shown = if tag.len() <= most {
        by_name(tag)
    } else {
        by_name(tag).take(most)
    };
    shown.map_values(|e: (Seq<char>, TagView)| field_line(e.0, e.1)) + if tag.len() > most {
        seq![
            seq![words("    ... 还有 "@), PieceView::Int(tag.len() - most), words(" 个字段"@)],
        ]
    } else {
        Seq::empty()
    }
}

/// Whether a field of a player's data has a line of its own, or is not worth one.
pub open spec fn is_known_field(name: Seq<char>) -> bool {
    ||| name == "identifier"@
    ||| name == "Pos"@
    ||| name == "DimensionId"@
    ||| name == "Dimension"@
    ||| name == "Rotation"@
    ||| name == "Health"@
    ||| name == "playerGameType"@
    ||| name == "Level"@
    ||| name == "XpProgress"@
    ||| name == "foodLevel"@
    ||| name == "foodSaturationLevel"@
    ||| name == "Air"@
    ||| name == "Fire"@
    ||| name == "PlayerId"@
    ||| name == "UniqueID"@
    ||| name == "UniqueId"@
    ||| name == "abilities"@
    ||| name == "Inventory"@
    ||| name == "MsaId"@
    ||| name == "SelfSignedId"@
    ||| name == "ServerId"@
    ||| name == "InternalComponents"@
}

/// The lines of all fields, where one of them is not known.
pub open spec fn other_facts(tag: CompoundView) -> Seq<LineView> {
    if exists|i: int| 0 <= i < tag.len() && !is_known_field((#[trigger] tag[i]).0) {
        seq![seq![words("\n  其他 NBT 字段:"@)]] + field_lines(tag, 20)
    } else {
        Seq::empty()
    }
}

/// The lines that say who a player is.
pub open spec fn identity_facts(tag: CompoundView) -> Seq<LineView> {
    text_fact("  类型: "@, lookup_text(tag, "identifier"@)) + text_fact(
        "  MsaId: "@,
        lookup_text(tag, "MsaId"@),
    ) + text_fact("  SelfSignedId: "@, lookup_text(tag, "SelfSignedId"@)) + text_fact(
        "  ServerId: "@,
        lookup_text(tag, "ServerId"@),
    )
}

/// The lines that say where a player is and in what state.
pub open spec fn state_facts(tag: CompoundView) -> Seq<LineView> {
    position_fact(tag) + dimension_fact(tag) + rotation_fact(tag) + health_fact(tag)
        + game_type_fact(tag) + level_fact(tag)
}

/// The lines of a player's needs.
pub open spec fn need_facts(tag: CompoundView) -> Seq<LineView> {
    number_fact("  饱食度: "@, widened(lookup_i32(tag, "foodLevel"@)), ""@) + real_fact(
        "  饱和度: "@,
        lookup_real(tag, "foodSaturationLevel"@),
        1,
    ) + number_fact("  氧气: "@, below(lookup_i32(tag, "Air"@), 300), " ticks"@) + number_fact(
        "  着火: "@,
        above(lookup_i32(tag, "Fire"@), 0),
        " ticks"@,
    )
}

/// The lines of a player's numbers.
pub open spec fn number_facts(tag: CompoundView) -> Seq<LineView> {
    text_fact("  XUID: "@, lookup_text(tag, "PlayerId"@)) + number_fact(
        "  UniqueID: "@,
        widened_64(first_of(lookup_i64(tag, "UniqueID"@), lookup_i64(tag, "UniqueId"@))),
        ""@,
    )
}

/// The lines of a player's data.
pub open spec fn player_facts(tag: CompoundView) -> Seq<LineView> {
    identity_facts(tag) + state_facts(tag) + need_facts(tag) + number_facts(tag)
        + abilities_facts(tag) + carried_facts(tag) + other_facts(tag)
}

/// At most the first eight bytes.
pub open spec fn first_bytes(value: Seq<u8>) -> Seq<u8> {
    if value.len() > 8 {
        value.take(8)
    } else {
        value
    }
}

/// What is shown of a player: the label, then the facts, or all of the data, or the first bytes
/// of data that cannot be decoded.
pub open spec fn player_lines(
    label: Seq<char>,
    tag: Option<CompoundView>,
    value: Seq<u8>,
    dump: bool,
) -> Seq<LineView> {
    seq![seq![words("  ─── "@), words(label), words(" ───"@)]] + match tag {
        None => seq![
            seq![words("   无法解析为 NBT, 首字节: "@), PieceView::Bytes(first_bytes(value))],
        ],
        Some(t) => if dump {
            tag_lines(TagView::Compound(t), ""@, margin(1)) + seq![
                seq![
                    words("\n  (完整 NBT 转储，"@),
                    PieceView::Int(value.len() as int),
                    words(" 字节)"@),
                ],
            ]
        } else {
            player_facts(t)
        },
    }
}

fn push_text_fact(out: &mut Vec<Line>, label: &str, value: Option<&str>)
    ensures
        line_views(final(out)@) == line_views(old(out)@) + text_fact(label@, text_of(value)),
{
    let ghost before = line_views(out@);
    if let Some(s) = value {
        let line = Line::new().text(label).text(s);
        assert(line@ =~= seq![words(label@), words(s@)]);
        push_line(out, line);
    }
    assert(line_views(out@) =~= before + text_fact(label@, text_of(value)));
}

fn push_number_fact(out: &mut Vec<Line>, label: &str, value: Option<i64>, unit: &str)
    ensures
        line_views(final(out)@) == line_views(old(out)@) + number_fact(label@, widened_64(value), unit@),
{
    let ghost before = line_views(out@);
    if let Some(v) = value {
        let line = Line::new().text(label).number(v).text(unit);
        assert(line@ =~= seq![words(label@), PieceView::Int(v as int), words(unit@)]);
        push_line(out, line);
    }
    assert(line_views(out@) =~= before + number_fact(label@, widened_64(value), unit@));
}

fn push_real_fact(out: &mut Vec<Line>, label: &str, value: Option<Real>, digits: u8)
    ensures
        line_views(final(out)@) == line_views(old(out)@) + real_fact(label@, value, digits as int),
{
    let ghost before = line_views(out@);
    if let Some(v) = value {
        let line = Line::new().text(label).with(Piece::Fixed(v, digits));
        assert(line@ =~= seq![words(label@), PieceView::Fixed(v, digits as int)]);
        push_line(out, line);
    }
    assert(line_views(out@) =~= before + real_fact(label@, value, digits as int));
}

fn collect_reals(elems: &Vec<Tag>) -> (r: Vec<Real>)
    ensures
        r@ == reals(list_view(elems@)),
{
    let ghost all = list_view(elems@);
    let mut out: Vec<Real> = Vec::new();
    for i in 0..elems.len()
        invariant
            all == list_view(elems@),
            out@ == reals(all.take(i as int)),
    {
        assert(all.take(i + 1).drop_last() =~= all.take(i as int));
        assert(all.take(i + 1).last() == elems@[i as int]@);
        if let Some(r) = tag_to_real(&elems[i]) {
            out.push(r);
        }
    }
    assert(all.take(elems@.len() as int) =~= all);
    out
}

/// A position behind the start of a line.
fn put_position(line: Line, pos: &Tag) -> (r: Line)
    ensures
        r@ == line@ + position_pieces(pos@),
{
    let ghost start = line@;
    let r = match pos {
        Tag::List(l) => {
            let v = collect_reals(l);
            if v.len() >= 3 {
                line.text("(").with(Piece::Fixed(v[0], 1)).text(", ").with(
                    Piece::Fixed(v[1], 1),
                ).text(", ").with(Piece::Fixed(v[2], 1)).text(")")
            } else if v.len() == 2 {
                line.with(Piece::Fixed(v[0], 1)).text(", ").with(Piece::Fixed(v[1], 1))
            } else if v.len() == 1 {
                line.with(Piece::Fixed(v[0], 1))
            } else {
                line
            }
        },
        _ => line.text("?"),
    };
    assert(r@ =~= start + position_pieces(pos@));
    r
}

/// The position in a tag.
pub fn fmt_pos(tag: &Tag) -> (r: Line)
    ensures
        r@ == position_pieces(tag@),
{
    let r = put_position(Line::new(), tag);
    assert(r@ =~= position_pieces(tag@));
    r
}

fn push_position(out: &mut Vec<Line>, tag: &CompoundTag)
    ensures
        line_views(final(out)@) == line_views(old(out)@) + position_fact(tag@),
{
    let ghost before = line_views(out@);
    if let Some(pos) = tag.get("Pos") {
        let start = Line::new().text("  位置: ");
        assert(start@ =~= seq![words("  位置: "@)]);
        push_line(out, put_position(start, pos));
    }
    assert(line_views(out@) =~= before + position_fact(tag@));
}

/// The name of a dimension.
pub fn fmt_dim_id(id: i32) -> (r: &'static str)
    ensures
        r@ == dim_name(id as int),
{
    match id {
        0 => "主世界",
        1 => "下界",
        2 => "末地",
        _ => "?",
    }
}

/// The name of a dimension.
pub fn dim_label(dim: u8) -> (r: &'static str)
    ensures
        r@ == dim_name(dim as int),
{
    fmt_dim_id(dim as i32)
}

/// The name of a game mode.
pub fn fmt_game_type(id: i32) -> (r: &'static str)
    ensures
        r@ == game_type_name(id as int),
{
    match id {
        0 => "生存",
        1 => "创造",
        2 => "冒险",
        3 => "旁观",
        _ => "?",
    }
}

fn push_dimension(out: &mut Vec<Line>, tag: &CompoundTag)
    ensures
        line_views(final(out)@) == line_views(old(out)@) + dimension_fact(tag@),
{
    let ghost before = line_views(out@);
    let dim: Option<i32> = match tag.get_i32("DimensionId") {
        Some(d) => Some(d),
        None => tag.get_i32("Dimension"),
    };
    if let Some(d) = dim {
        let line = Line::new().text("  维度: ").number(d as i64).text(" (").text(
            fmt_dim_id(d),
        ).text(")");
        assert(line@ =~= dimension_fact(tag@)[0]);
        push_line(out, line);
    }
    assert(line_views(out@) =~= before + dimension_fact(tag@));
}

fn angle_piece(tag: &Tag) -> (r: Piece)
    ensures
        r@ == angle(tag@),
{
    match tag_to_real(tag) {
        Some(v) => Piece::Fixed(v, 1),
        None => Piece::Text("0.0".to_owned()),
    }
}

fn push_rotation(out: &mut Vec<Line>, tag: &CompoundTag)
    ensures
        line_views(final(out)@) == line_views(old(out)@) + rotation_fact(tag@),
{
    let ghost before = line_views(out@);
    if let Some(l) = tag.get_list("Rotation") {
        if l.len() >= 2 {
            assert(list_view(l@)[0] == l@[0]@ && list_view(l@)[1] == l@[1]@);
            let line = Line::new().text("  朝向: yaw=").with(angle_piece(&l[0])).text(
                "°, pitch=",
            ).with(angle_piece(&l[1])).text("°");
            assert(line@ =~= rotation_fact(tag@)[0]);
            push_line(out, line);
        }
    }
    assert(line_views(out@) =~= before + rotation_fact(tag@));
}

fn push_health(out: &mut Vec<Line>, tag: &CompoundTag)
    ensures
        line_views(final(out)@) == line_views(old(out)@) + health_fact(tag@),
{
    let ghost before = line_views(out@);
    match tag.get("Health") {
        Some(Tag::Short(v)) => {
            let line = Line::new().text("  生命: ").number(*v as i64).text(".0");
            assert(line@ =~= health_fact(tag@)[0]);
            push_line(out, line);
        },
        Some(Tag::Int(v)) => {
            let line = Line::new().text("  生命: ").number(*v as i64).text(".0");
            assert(line@ =~= health_fact(tag@)[0]);
            push_line(out, line);
        },
        Some(Tag::Float(v)) => {
            let line = Line::new().text("  生命: ").with(Piece::Fixed(Real::Single(*v), 1));
            assert(line@ =~= health_fact(tag@)[0]);
            push_line(out, line);
        },
        _ => {},
    }
    assert(line_views(out@) =~= before + health_fact(tag@));
}

fn push_game_type(out: &mut Vec<Line>, tag: &CompoundTag)
    ensures
        line_views(final(out)@) == line_views(old(out)@) + game_type_fact(tag@),
{
    let ghost before = line_views(out@);
    if let Some(g) = tag.get_i32("playerGameType") {
        let line = Line::new().text("  游戏模式: ").text(fmt_game_type(g));
        assert(line@ =~= game_type_fact(tag@)[0]);
        push_line(out, line);
    }
    assert(line_views(out@) =~= before + game_type_fact(tag@));
}

fn push_level(out: &mut Vec<Line>, tag: &CompoundTag)
    ensures
        line_views(final(out)@) == line_views(old(out)@) + level_fact(tag@),
{
    let ghost before = line_views(out@);
    if let Some(l) = tag.get_i32("Level") {
        let start = Line::new().text("  等级: ").number(l as i64);
        let line = match tag.get_real("XpProgress") {
            Some(p) => start.text(" (").with(Piece::Percent(p)).text("%)"),
            None => start,
        };
        assert(line@ =~= level_fact(tag@)[0]);
        push_line(out, line);
    }
    assert(line_views(out@) =~= before + level_fact(tag@));
}

fn push_ability(out: &mut Vec<Line>, abilities: &CompoundTag, name: &str)
    ensures
        line_views(final(out)@) == line_views(old(out)@) + ability_fact(abilities@, name@),
{
    let ghost before = line_views(out@);
    if let Some(Tag::Byte(v)) = abilities.get(name) {
        if *v != 0 {
            let line = Line::new().text("    ").text(name).text(": 是");
            assert(line@ =~= ability_fact(abilities@, name@)[0]);
            push_line(out, line);
        }
    }
    assert(line_views(out@) =~= before + ability_fact(abilities@, name@));
}

fn push_abilities(out: &mut Vec<Line>, tag: &CompoundTag)
    ensures
        line_views(final(out)@) == line_views(old(out)@) + abilities_facts(tag@),
{
    let ghost before = line_views(out@);
    if let Some(a) = tag.get_compound("abilities") {
        let line = Line::new().text("  能力:");
        assert(line@ =~= seq![words("  能力:"@)]);
        push_line(out, line);
        push_real_fact(out, "    行走速度: ", a.get_real("walkSpeed"), 2);
        push_ability(out, a, "mayfly");
        push_ability(out, a, "instabuild");
        push_ability(out, a, "invulnerable");
        push_ability(out, a, "lightning");
        push_ability(out, a, "flying");
    }
    assert(line_views(out@) =~= before + abilities_facts(tag@));
}

fn carried(elem: &Tag) -> (r: Option<Line>)
    ensures
        match r {
            Some(l) => carried_line(elem@) == Some(l@),
            None => carried_line(elem@) is None,
        },
{
    match elem {
        Tag::Compound(c) => {
            if let Some(name) = c.get_text("Name") {
                if let Some(count) = c.get_i32("Count") {
                    let slot: i32 = match c.get_i32("Slot") {
                        Some(s) => s,
                        None => 0,
                    };
                    let line = Line::new().text("    [Slot ").with(Piece::Wide(slot as i64)).text(
                        "] ",
                    ).text(name).text(" x").number(count as i64);
                    assert(line@ =~= carried_line(elem@).unwrap());
                    return Some(line);
                }
            }
            None
        },
        _ => None,
    }
}

fn carried_eight(elems: &Vec<Tag>) -> (r: Vec<Line>)
    ensures
        line_views(r@) == at_most(carried_lines(list_view(elems@)), 8),
{
    let ghost all = list_view(elems@);
    let mut out: Vec<Line> = Vec::new();
    assert(line_views(out@) =~= at_most(carried_lines(all.take(0)), 8));
    for i in 0..elems.len()
        invariant
            all == list_view(elems@),
            line_views(out@) == at_most(carried_lines(all.take(i as int)), 8),
    {
        let ghost before = carried_lines(all.take(i as int));
        assert(all.take(i + 1).drop_last() =~= all.take(i as int));
        assert(all.take(i + 1).last() == elems@[i as int]@);
        if let Some(line) = carried(&elems[i]) {
            assert(line_views(out@).len() == out@.len());
            let ghost view = line@;
            assert(carried_lines(all.take(i + 1)) == before.push(view));
            if out.len() < 8 {
                push_line(&mut out, line);
                assert(before.len() < 8);
            } else {
                assert(before.push(view).take(8) =~= at_most(before, 8));
            }
        }
    }
    assert(all.take(elems@.len() as int) =~= all);
    out
}

fn push_carried(out: &mut Vec<Line>, tag: &CompoundTag)
    ensures
        line_views(final(out)@) == line_views(old(out)@) + carried_facts(tag@),
{
    let ghost before = line_views(out@);
    if let Some(l) = tag.get_list("Inventory") {
        let line = Line::new().text("  物品栏: ").count(l.len()).text(" 格");
        assert(line@ =~= seq![words("  物品栏: "@), PieceView::Int(l@.len() as int), words(" 格"@)]);
        push_line(out, line);
        push_lines(out, carried_eight(l));
        if l.len() > 8 {
            let more = Line::new().text("    ... 还有 ").count(l.len() - 8).text(" 格");
            assert(more@ =~= seq![
                words("    ... 还有 "@),
                PieceView::Int(l@.len() - 8),
                words(" 格"@),
            ]);
            push_line(out, more);
        }
    }
    assert(line_views(out@) =~= before + carried_facts(tag@));
}

fn kind(tag: &Tag) -> (r: &'static str)
    ensures
        r@ == kind_name(tag@),
{
    match tag {
        Tag::Byte(_) => "byte",
        Tag::Short(_) => "short",
        Tag::Int(_) => "int",
        Tag::Long(_) => "long",
        Tag::Float(_) => "float",
        Tag::Double(_) => "double",
        Tag::Text(_) => "string",
        Tag::Compound(_) => "compound",
        Tag::List(l) => {
            if l.len() == 0 {
                return "[]";
            }
            assert(list_view(l@)[0] == l@[0]@);
            match &l[0] {
                Tag::Compound(_) => "compound[]",
                _ => "list",
            }
        },
        _ => "?",
    }
}

/// The fields of a compound as lines, so many at most.
pub fn show_nbt_keys(tag: &CompoundTag, max_keys: usize) -> (r: Vec<Line>)
    ensures
        line_views(r@) == field_lines(tag@, max_keys as int),
{
    let mut out: Vec<Line> = Vec::new();
    let total: usize = tag.entries.len();
    let shown: usize = if total < max_keys {
        total
    } else {
        max_keys
    };
    let order = places_by_name(tag);
    let ghost all = by_name(tag@);
    for i in 0..shown
        invariant
            shown <= total == tag.entries@.len(),
            all == by_name(tag@),
            order@.len() == total,
            forall|j: int|
                0 <= j < total ==> (#[trigger] order@[j]) < total && order@[j] == nth_by_name(
                    tag@,
                    j,
                ),
            line_views(out@).len() == i,
            forall|j: int|
                0 <= j < i ==> #[trigger] line_views(out@)[j] == field_line(all[j].0, all[j].1),
    {
        let k: usize = order[i];
        let name = tag.entries[k].0.as_str();
        let ghost expected = field_line(all[i as int].0, all[i as int].1);
        let line = match &tag.entries[k].1 {
            Tag::Text(s) => Line::new().text("    ").text(name).text(": \"").text(
                s.as_str(),
            ).text("\""),
            other => Line::new().text("    ").text(name).text(": ").text(kind(other)),
        };
        assert(line@ =~= expected);
        push_line(&mut out, line);
    }
    if total > max_keys {
        let more = Line::new().text("    ... 还有 ").count(total - max_keys).text(" 个字段");
        assert(more@ =~= seq![
            words("    ... 还有 "@),
            PieceView::Int(tag@.len() - max_keys),
            words(" 个字段"@),
        ]);
        push_line(&mut out, more);
    }
    assert(line_views(out@) =~= field_lines(tag@, max_keys as int));
    out
}

fn known_field(name: &str) -> (r: bool)
    ensures
        r == is_known_field(name@),
{
    text_is(name, "identifier") || text_is(name, "Pos") || text_is(name, "DimensionId") || text_is(
        name,
        "Dimension",
    ) || text_is(name, "Rotation") || text_is(name, "Health") || text_is(name, "playerGameType")
        || text_is(name, "Level") || text_is(name, "XpProgress") || text_is(name, "foodLevel")
        || text_is(name, "foodSaturationLevel") || text_is(name, "Air") || text_is(name, "Fire")
        || text_is(name, "PlayerId") || text_is(name, "UniqueID") || text_is(name, "UniqueId")
        || text_is(name, "abilities") || text_is(name, "Inventory") || text_is(name, "MsaId")
        || text_is(name, "SelfSignedId") || text_is(name, "ServerId") || text_is(
        name,
        "InternalComponents",
    )
}

fn has_unknown_field(tag: &CompoundTag) -> (r: bool)
    ensures
        r == exists|i: int| 0 <= i < tag@.len() && !is_known_field((#[trigger] tag@[i]).0),
{
    for i in 0..tag.entries.len()
        invariant
            forall|k: int| 0 <= k < i ==> is_known_field((#[trigger] tag@[k]).0),
    {
        assert(tag@[i as int].0 == tag.entries@[i as int].0@);
        if !known_field(tag.entries[i].0.as_str()) {
            return true;
        }
    }
    false
}

fn push_others(out: &mut Vec<Line>, tag: &CompoundTag)
    ensures
        line_views(final(out)@) == line_views(old(out)@) + other_facts(tag@),
{
    let ghost before = line_views(out@);
    if has_unknown_field(tag) {
        let line = Line::new().text("\n  其他 NBT 字段:");
        assert(line@ =~= seq![words("\n  其他 NBT 字段:"@)]);
        push_line(out, line);
        push_lines(out, show_nbt_keys(tag, 20));
    }
    assert(line_views(out@) =~= before + other_facts(tag@));
}

fn wide(v: Option<i32>) -> (r: Option<i64>)
    ensures
        widened_64(r) == widened(v),
{
    match v {
        Some(n) => Some(n as i64),
        None => None,
    }
}

fn push_identity(out: &mut Vec<Line>, tag: &CompoundTag)
    ensures
        line_views(final(out)@) == line_views(old(out)@) + identity_facts(tag@),
{
    let ghost before = line_views(out@);
    push_text_fact(out, "  类型: ", tag.get_text("identifier"));
    push_text_fact(out, "  MsaId: ", tag.get_text("MsaId"));
    push_text_fact(out, "  SelfSignedId: ", tag.get_text("SelfSignedId"));
    push_text_fact(out, "  ServerId: ", tag.get_text("ServerId"));
    assert(line_views(out@) =~= before + identity_facts(tag@));
}

fn push_state(out: &mut Vec<Line>, tag: &CompoundTag)
    ensures
        line_views(final(out)@) == line_views(old(out)@) + state_facts(tag@),
{
    let ghost before = line_views(out@);
    push_position(out, tag);
    push_dimension(out, tag);
    push_rotation(out, tag);
    push_health(out, tag);
    push_game_type(out, tag);
    push_level(out, tag);
    assert(line_views(out@) =~= before + state_facts(tag@));
}

fn push_needs(out: &mut Vec<Line>, tag: &CompoundTag)
    ensures
        line_views(final(out)@) == line_views(old(out)@) + need_facts(tag@),
{
    let ghost before = line_views(out@);
    push_number_fact(out, "  饱食度: ", wide(tag.get_i32("foodLevel")), "");
    push_real_fact(out, "  饱和度: ", tag.get_real("foodSaturationLevel"), 1);
    let air: Option<i64> = match tag.get_i32("Air") {
        Some(v) => if v < 300 {
            Some(v as i64)
        } else {
            None
        },
        None => None,
    };
    push_number_fact(out, "  氧气: ", air, " ticks");
    let fire: Option<i64> = match tag.get_i32("Fire") {
        Some(v) => if v > 0 {
            Some(v as i64)
        } else {
            None
        },
        None => None,
    };
    push_number_fact(out, "  着火: ", fire, " ticks");
    assert(line_views(out@) =~= before + need_facts(tag@));
}

fn push_numbers(out: &mut Vec<Line>, tag: &CompoundTag)
    ensures
        line_views(final(out)@) == line_views(old(out)@) + number_facts(tag@),
{
    let ghost before = line_views(out@);
    push_text_fact(out, "  XUID: ", tag.get_text("PlayerId"));
    let id: Option<i64> = match tag.get_i64("UniqueID") {
        Some(v) => Some(v),
        None => tag.get_i64("UniqueId"),
    };
    push_number_fact(out, "  UniqueID: ", id, "");
    assert(line_views(out@) =~= before + number_facts(tag@));
}

fn push_facts(out: &mut Vec<Line>, tag: &CompoundTag)
    ensures
        line_views(final(out)@) == line_views(old(out)@) + player_facts(tag@),
{
    let ghost before = line_views(out@);
    push_identity(out, tag);
    push_state(out, tag);
    push_needs(out, tag);
    push_numbers(out, tag);
    push_abilities(out, tag);
    push_carried(out, tag);
    push_others(out, tag);
    assert(line_views(out@) =~= before + player_facts(tag@));
}

/// What is shown of a player, given the decoded data.
pub fn player_info(label: &str, tag: Option<&CompoundTag>, value: &[u8], dump: bool) -> (r: Vec<
    Line,
>)
    ensures
        line_views(r@) == player_lines(label@, compound_of(tag), value@, dump),
{
    let mut out: Vec<Line> = Vec::new();
    let title = Line::new().text("  ─── ").text(label).text(" ───");
    assert(title@ =~= seq![words("  ─── "@), words(label@), words(" ───"@)]);
    push_line(&mut out, title);
    assert(line_views(out@) =~= seq![title@]);
    match tag {
        None => {
            let first = if value.len() > 8 {
                slice_subrange(value, 0, 8)
            } else {
                value
            };
            assert(first@ =~= first_bytes(value@));
            let line = Line::new().text("   无法解析为 NBT, 首字节: ").with(
                Piece::Bytes(copy_bytes(first)),
            );
            assert(line@ =~= seq![
                words("   无法解析为 NBT, 首字节: "@),
                PieceView::Bytes(first_bytes(value@)),
            ]);
            push_line(&mut out, line);
        },
        Some(t) => {
            if dump {
                let whole = Tag::Compound(t.clone());
                assert(whole@ == TagView::Compound(t@));
                push_lines(&mut out, tag_to_lines(&whole, "", 1));
                let line = Line::new().text("\n  (完整 NBT 转储，").count(value.len()).text(
                    " 字节)",
                );
                assert(line@ =~= seq![
                    words("\n  (完整 NBT 转储，"@),
                    PieceView::Int(value@.len() as int),
                    words(" 字节)"@),
                ]);
                push_line(&mut out, line);
            } else {
                push_facts(&mut out, t);
            }
        },
    }
    assert(line_views(out@) =~= player_lines(label@, compound_of(tag), value@, dump));
    out
}

/// What is shown of a player, from an entry of the database.
pub fn show_player_info_full_inner<F: Fn(&[u8]) -> Option<Decoded>>(
    key: &[u8],
    value: &[u8],
    dump: bool,
    decode: &F,
) -> (r: Vec<Line>)
    requires
        is_decoder(*decode),
    ensures
        exists|tag: Option<CompoundView>|
            #[trigger] decodes(*decode, value@, tag) && line_views(r@) == player_lines(
                lossy_text(key@),
                tag,
                value@,
                dump,
            ),
{
    let label = decode_lossy(key);
    match decode_one(decode, value) {
        Some(t) => player_info(label.as_str(), Some(&t), value, dump),
        None => player_info(label.as_str(), None, value, dump),
    }
}

/// A line of any part is one of the lines of a player.
proof fn lemma_shown(label: Seq<char>, tag: CompoundView, value: Seq<u8>, line: LineView)
    ensures
        player_lines(label, Some(tag), value, false).contains(line) <==> {
            ||| line == seq![words("  ─── "@), words(label), words(" ───"@)]
            ||| identity_facts(tag).contains(line)
            ||| state_facts(tag).contains(line)
            ||| need_facts(tag).contains(line)
            ||| number_facts(tag).contains(line)
            ||| abilities_facts(tag).contains(line)
            ||| carried_facts(tag).contains(line)
            ||| other_facts(tag).contains(line)
        },
{
    let title = seq![seq![words("  ─── "@), words(label), words(" ───"@)]];
    let a = identity_facts(tag);
    let b = a + state_facts(tag);
    let c = b + need_facts(tag);
    let d = c + number_facts(tag);
    let e = d + abilities_facts(tag);
    let f = e + carried_facts(tag);
    lemma_joined(a, state_facts(tag), line);
    lemma_joined(b, need_facts(tag), line);
    lemma_joined(c, number_facts(tag), line);
    lemma_joined(d, abilities_facts(tag), line);
    lemma_joined(e, carried_facts(tag), line);
    lemma_joined(f, other_facts(tag), line);
    lemma_joined(title, player_facts(tag), line);
    assert(title[0] == seq![words("  ─── "@), words(label), words(" ───"@)]);
    if title.contains(line) {
        assert(title.index_of(line) == 0);
    }
}

proof fn lemma_one(line: LineView)
    ensures
        seq![line].contains(line),
{
    assert(seq![line][0] == line);
}

/// The texts that say who a player is are shown, each behind its label.
pub proof fn law_identity_is_shown(
    label: Seq<char>,
    tag: CompoundView,
    value: Seq<u8>,
    s: Seq<char>,
)
    ensures
        ({
            let lines = player_lines(label, Some(tag), value, false);
            &&& lines[0] == seq![words("  ─── "@), words(label), words(" ───"@)]
            &&& lookup_text(tag, "identifier"@) == Some(s) ==> lines.contains(
                seq![words("  类型: "@), words(s)],
            )
            &&& lookup_text(tag, "MsaId"@) == Some(s) ==> lines.contains(
                seq![words("  MsaId: "@), words(s)],
            )
            &&& lookup_text(tag, "SelfSignedId"@) == Some(s) ==> lines.contains(
                seq![words("  SelfSignedId: "@), words(s)],
            )
            &&& lookup_text(tag, "ServerId"@) == Some(s) ==> lines.contains(
                seq![words("  ServerId: "@), words(s)],
            )
            &&& lookup_text(tag, "PlayerId"@) == Some(s) ==> lines.contains(
                seq![words("  XUID: "@), words(s)],
            )
        }),
{
    let a = text_fact("  类型: "@, lookup_text(tag, "identifier"@));
    let b = text_fact("  MsaId: "@, lookup_text(tag, "MsaId"@));
    let c = text_fact("  SelfSignedId: "@, lookup_text(tag, "SelfSignedId"@));
    let d = text_fact("  ServerId: "@, lookup_text(tag, "ServerId"@));
    let x = text_fact("  XUID: "@, lookup_text(tag, "PlayerId"@));
    let la = seq![words("  类型: "@), words(s)];
    let lb = seq![words("  MsaId: "@), words(s)];
    let lc = seq![words("  SelfSignedId: "@), words(s)];
    let ld = seq![words("  ServerId: "@), words(s)];
    let lx = seq![words("  XUID: "@), words(s)];
    lemma_one(la);
    lemma_one(lb);
    lemma_one(lc);
    lemma_one(ld);
    lemma_one(lx);
    lemma_joined(a, b, la);
    lemma_joined(a + b, c, la);
    lemma_joined(a + b + c, d, la);
    lemma_joined(a, b, lb);
    lemma_joined(a + b, c, lb);
    lemma_joined(a + b + c, d, lb);
    lemma_joined(a + b, c, lc);
    lemma_joined(a + b + c, d, lc);
    lemma_joined(a + b + c, d, ld);
    lemma_joined(
        x,
        number_fact(
            "  UniqueID: "@,
            widened_64(first_of(lookup_i64(tag, "UniqueID"@), lookup_i64(tag, "UniqueId"@))),
            ""@,
        ),
        lx,
    );
    lemma_shown(label, tag, value, la);
    lemma_shown(label, tag, value, lb);
    lemma_shown(label, tag, value, lc);
    lemma_shown(label, tag, value, ld);
    lemma_shown(label, tag, value, lx);
}

/// A line of the state is one of the lines of a player.
proof fn lemma_state_shown(label: Seq<char>, tag: CompoundView, value: Seq<u8>, line: LineView)
    requires
        position_fact(tag).contains(line) || dimension_fact(tag).contains(line) || rotation_fact(
            tag,
        ).contains(line) || health_fact(tag).contains(line) || game_type_fact(tag).contains(line)
            || level_fact(tag).contains(line),
    ensures
        player_lines(label, Some(tag), value, false).contains(line),
{
    let a = position_fact(tag);
    let b = a + dimension_fact(tag);
    let c = b + rotation_fact(tag);
    let d = c + health_fact(tag);
    let e = d + game_type_fact(tag);
    lemma_joined(a, dimension_fact(tag), line);
    lemma_joined(b, rotation_fact(tag), line);
    lemma_joined(c, health_fact(tag), line);
    lemma_joined(d, game_type_fact(tag), line);
    lemma_joined(e, level_fact(tag), line);
    lemma_shown(label, tag, value, line);
}

/// Where a player stands is shown: the three numbers of `Pos` in their order, and the dimension under
/// `DimensionId`, or else `Dimension`, with its number and its name.
pub proof fn law_place_is_shown(
    label: Seq<char>,
    tag: CompoundView,
    value: Seq<u8>,
    x: Real,
    y: Real,
    z: Real,
    d: i32,
)
    ensures
        ({
            let lines = player_lines(label, Some(tag), value, false);
            &&& (lookup(tag, "Pos"@) matches Some(TagView::List(l)) && l.len() == 3 && tag_real(l[0])
                == Some(x) && tag_real(l[1]) == Some(y) && tag_real(l[2]) == Some(z))
                ==> lines.contains(
                seq![
                    words("  位置: "@),
                    words("("@),
                    PieceView::Fixed(x, 1),
                    words(", "@),
                    PieceView::Fixed(y, 1),
                    words(", "@),
                    PieceView::Fixed(z, 1),
                    words(")"@),
                ],
            )
            &&& lookup_i32(tag, "DimensionId"@) == Some(d) || (lookup_i32(tag, "DimensionId"@) is None
                && lookup_i32(tag, "Dimension"@) == Some(d)) ==> lines.contains(
                seq![
                    words("  维度: "@),
                    PieceView::Int(d as int),
                    words(" ("@),
                    words(dim_name(d as int)),
                    words(")"@),
                ],
            )
        }),
{
    if let Some(TagView::List(l)) = lookup(tag, "Pos"@) {
        if l.len() == 3 && tag_real(l[0]) == Some(x) && tag_real(l[1]) == Some(y) && tag_real(l[2])
            == Some(z) {
            lemma_three_reals(l, x, y, z);
            let line = seq![
                words("  位置: "@),
                words("("@),
                PieceView::Fixed(x, 1),
                words(", "@),
                PieceView::Fixed(y, 1),
                words(", "@),
                PieceView::Fixed(z, 1),
                words(")"@),
            ];
            assert(seq![words("  位置: "@)] + position_pieces(TagView::List(l)) =~= line);
            lemma_one(line);
            lemma_state_shown(label, tag, value, line);
        }
    }
    if lookup_i32(tag, "DimensionId"@) == Some(d) || (lookup_i32(tag, "DimensionId"@) is None
        && lookup_i32(tag, "Dimension"@) == Some(d)) {
        let line = seq![
            words("  维度: "@),
            PieceView::Int(d as int),
            words(" ("@),
            words(dim_name(d as int)),
            words(")"@),
        ];
        lemma_one(line);
        lemma_state_shown(label, tag, value, line);
    }
}

proof fn lemma_three_reals(l: Seq<TagView>, x: Real, y: Real, z: Real)
    requires
        l.len() == 3,
        tag_real(l[0]) == Some(x),
        tag_real(l[1]) == Some(y),
        tag_real(l[2]) == Some(z),
    ensures
        reals(l) == seq![x, y, z],
{
    reveal_with_fuel(reals, 4);
    assert(l.drop_last().drop_last().drop_last() =~= Seq::empty());
    assert(l.drop_last().last() == l[1]);
    assert(l.drop_last().drop_last().last() == l[0]);
    assert(reals(l) =~= seq![x, y, z]);
}

/// The dimensions and the game modes have names of their own.
pub proof fn law_names_of_numbers(n: int)
    ensures
        dim_name(0) == "主世界"@,
        dim_name(1) == "下界"@,
        dim_name(2) == "末地"@,
        n < 0 || n > 2 ==> dim_name(n) == "?"@,
        game_type_name(0) == "生存"@,
        game_type_name(1) == "创造"@,
        game_type_name(2) == "冒险"@,
        game_type_name(3) == "旁观"@,
        n < 0 || n > 3 ==> game_type_name(n) == "?"@,
{
}

/// The state of a player is shown: health as a whole number or with one digit behind the point, the
/// game mode by its name, the direction as yaw and pitch, and the level with the progress to the
/// next.
pub proof fn law_state_is_shown(
    label: Seq<char>,
    tag: CompoundView,
    value: Seq<u8>,
    h: i16,
    bits: u32,
    g: i32,
    yaw: Real,
    pitch: Real,
    v: i32,
    p: Real,
)
    ensures
        ({
            let lines = player_lines(label, Some(tag), value, false);
            &&& lookup(tag, "Health"@) == Some(TagView::Short(h)) || lookup(tag, "Health"@) == Some(
                TagView::Int(h as i32),
            ) ==> lines.contains(seq![words("  生命: "@), PieceView::Int(h as int), words(".0"@)])
            &&& lookup(tag, "Health"@) == Some(TagView::Float(bits)) ==> lines.contains(
                seq![words("  生命: "@), PieceView::Fixed(Real::Single(bits), 1)],
            )
            &&& lookup_i32(tag, "playerGameType"@) == Some(g) ==> lines.contains(
                seq![words("  游戏模式: "@), words(game_type_name(g as int))],
            )
            &&& (lookup_list(tag, "Rotation"@) matches Some(l) && l.len() >= 2 && tag_real(l[0])
                == Some(yaw) && tag_real(l[1]) == Some(pitch)) ==> lines.contains(
                seq![
                    words("  朝向: yaw="@),
                    PieceView::Fixed(yaw, 1),
                    words("°, pitch="@),
                    PieceView::Fixed(pitch, 1),
                    words("°"@),
                ],
            )
            &&& lookup_i32(tag, "Level"@) == Some(v) && lookup_real(tag, "XpProgress"@) == Some(p)
                ==> lines.contains(
                seq![
                    words("  等级: "@),
                    PieceView::Int(v as int),
                    words(" ("@),
                    PieceView::Percent(p),
                    words("%)"@),
                ],
            )
            &&& lookup_i32(tag, "Level"@) == Some(v) && lookup_real(tag, "XpProgress"@) is None
                ==> lines.contains(seq![words("  等级: "@), PieceView::Int(v as int)])
        }),
{
    if lookup(tag, "Health"@) == Some(TagView::Short(h)) || lookup(tag, "Health"@) == Some(
        TagView::Int(h as i32),
    ) {
        let line = seq![words("  生命: "@), PieceView::Int(h as int), words(".0"@)];
        lemma_one(line);
        lemma_state_shown(label, tag, value, line);
    }
    if lookup(tag, "Health"@) == Some(TagView::Float(bits)) {
        let line = seq![words("  生命: "@), PieceView::Fixed(Real::Single(bits), 1)];
        lemma_one(line);
        lemma_state_shown(label, tag, value, line);
    }
    if lookup_i32(tag, "playerGameType"@) == Some(g) {
        let line = seq![words("  游戏模式: "@), words(game_type_name(g as int))];
        lemma_one(line);
        lemma_state_shown(label, tag, value, line);
    }
    if let Some(l) = lookup_list(tag, "Rotation"@) {
        if l.len() >= 2 && tag_real(l[0]) == Some(yaw) && tag_real(l[1]) == Some(pitch) {
            let line = seq![
                words("  朝向: yaw="@),
                PieceView::Fixed(yaw, 1),
                words("°, pitch="@),
                PieceView::Fixed(pitch, 1),
                words("°"@),
            ];
            lemma_one(line);
            lemma_state_shown(label, tag, value, line);
        }
    }
    if lookup_i32(tag, "Level"@) == Some(v) {
        if lookup_real(tag, "XpProgress"@) == Some(p) {
            let line = seq![
                words("  等级: "@),
                PieceView::Int(v as int),
                words(" ("@),
                PieceView::Percent(p),
                words("%)"@),
            ];
            assert(level_fact(tag)[0] =~= line);
            assert(level_fact(tag) =~= seq![line]);
            lemma_one(line);
            lemma_state_shown(label, tag, value, line);
        } else if lookup_real(tag, "XpProgress"@) is None {
            let line = seq![words("  等级: "@), PieceView::Int(v as int)];
            assert(level_fact(tag)[0] =~= line);
            assert(level_fact(tag) =~= seq![line]);
            lemma_one(line);
            lemma_state_shown(label, tag, value, line);
        }
    }
}

/// The needs of a player are shown: food and saturation always, air only below 300 ticks, and fire
/// only above zero. The unique number is that under `UniqueID`, or else `UniqueId`.
pub proof fn law_needs_are_shown(
    label: Seq<char>,
    tag: CompoundView,
    value: Seq<u8>,
    n: i32,
    r: Real,
    u: i64,
)
    ensures
        ({
            let lines = player_lines(label, Some(tag), value, false);
            &&& lookup_i32(tag, "foodLevel"@) == Some(n) ==> lines.contains(
                seq![words("  饱食度: "@), PieceView::Int(n as int), words(""@)],
            )
            &&& lookup_real(tag, "foodSaturationLevel"@) == Some(r) ==> lines.contains(
                seq![words("  饱和度: "@), PieceView::Fixed(r, 1)],
            )
            &&& lookup_i32(tag, "Air"@) == Some(n) && n < 300 ==> lines.contains(
                seq![words("  氧气: "@), PieceView::Int(n as int), words(" ticks"@)],
            )
            &&& lookup_i32(tag, "Fire"@) == Some(n) && n > 0 ==> lines.contains(
                seq![words("  着火: "@), PieceView::Int(n as int), words(" ticks"@)],
            )
            &&& lookup_i64(tag, "UniqueID"@) == Some(u) || (lookup_i64(tag, "UniqueID"@) is None
                && lookup_i64(tag, "UniqueId"@) == Some(u)) ==> lines.contains(
                seq![words("  UniqueID: "@), PieceView::Int(u as int), words(""@)],
            )
        }),
{
    let a = number_fact("  饱食度: "@, widened(lookup_i32(tag, "foodLevel"@)), ""@);
    let b = real_fact("  饱和度: "@, lookup_real(tag, "foodSaturationLevel"@), 1);
    let c = number_fact("  氧气: "@, below(lookup_i32(tag, "Air"@), 300), " ticks"@);
    let d = number_fact("  着火: "@, above(lookup_i32(tag, "Fire"@), 0), " ticks"@);
    let la = seq![words("  饱食度: "@), PieceView::Int(n as int), words(""@)];
    let lb = seq![words("  饱和度: "@), PieceView::Fixed(r, 1)];
    let lc = seq![words("  氧气: "@), PieceView::Int(n as int), words(" ticks"@)];
    let ld = seq![words("  着火: "@), PieceView::Int(n as int), words(" ticks"@)];
    let lu = seq![words("  UniqueID: "@), PieceView::Int(u as int), words(""@)];
    lemma_one(la);
    lemma_one(lb);
    lemma_one(lc);
    lemma_one(ld);
    lemma_one(lu);
    lemma_joined(a, b, la);
    lemma_joined(a + b, c, la);
    lemma_joined(a + b + c, d, la);
    lemma_joined(a, b, lb);
    lemma_joined(a + b, c, lb);
    lemma_joined(a + b + c, d, lb);
    lemma_joined(a + b, c, lc);
    lemma_joined(a + b + c, d, lc);
    lemma_joined(a + b + c, d, ld);
    lemma_joined(
        text_fact("  XUID: "@, lookup_text(tag, "PlayerId"@)),
        number_fact(
            "  UniqueID: "@,
            widened_64(first_of(lookup_i64(tag, "UniqueID"@), lookup_i64(tag, "UniqueId"@))),
            ""@,
        ),
        lu,
    );
    lemma_shown(label, tag, value, la);
    lemma_shown(label, tag, value, lb);
    lemma_shown(label, tag, value, lc);
    lemma_shown(label, tag, value, ld);
    lemma_shown(label, tag, value, lu);
}

/// Of the list `Inventory` the number of elements is shown, and up to eight of its first elements
/// that have a name and a count, each with its slot, its name and its count.
pub proof fn law_carried_is_shown(
    label: Seq<char>,
    tag: CompoundView,
    value: Seq<u8>,
    l: Seq<TagView>,
    c: CompoundView,
    i: int,
    name: Seq<char>,
    count: i32,
    slot: i32,
)
    requires
        lookup_list(tag, "Inventory"@) == Some(l),
        0 <= i < l.len(),
        i < 8,
        l[i] == TagView::Compound(c),
        lookup_text(c, "Name"@) == Some(name),
        lookup_i32(c, "Count"@) == Some(count),
        lookup_i32(c, "Slot"@) == Some(slot) || (lookup_i32(c, "Slot"@) is None && slot == 0),
    ensures
        ({
            let lines = player_lines(label, Some(tag), value, false);
            &&& lines.contains(
                seq![words("  物品栏: "@), PieceView::Int(l.len() as int), words(" 格"@)],
            )
            &&& lines.contains(
                seq![
                    words("    [Slot "@),
                    PieceView::Wide(slot as int),
                    words("] "@),
                    words(name),
                    words(" x"@),
                    PieceView::Int(count as int),
                ],
            )
        }),
{
    let head = seq![words("  物品栏: "@), PieceView::Int(l.len() as int), words(" 格"@)];
    let line = seq![
        words("    [Slot "@),
        PieceView::Wide(slot as int),
        words("] "@),
        words(name),
        words(" x"@),
        PieceView::Int(count as int),
    ];
    let all = carried_lines(l);
    assert(carried_line(l[i])->Some_0 =~= line);
    assert(l.take(l.len() as int) =~= l);
    let k = lemma_carried_place(l, l.len(), i);
    let shown = at_most(all, 8);
    assert(shown[k] == line);
    let front = seq![head] + shown;
    lemma_one(head);
    lemma_joined(seq![head], shown, head);
    lemma_joined(seq![head], shown, line);
    let rest = if l.len() > 8 {
        seq![seq![words("    ... 还有 "@), PieceView::Int(l.len() - 8), words(" 格"@)]]
    } else {
        Seq::empty()
    };
    lemma_joined(front, rest, head);
    lemma_joined(front, rest, line);
    lemma_shown(label, tag, value, head);
    lemma_shown(label, tag, value, line);
}

proof fn lemma_carried_place(l: Seq<TagView>, n: nat, i: int) -> (k: int)
    requires
        0 <= i < n <= l.len(),
        carried_line(l[i]) is Some,
    ensures
        0 <= k <= i,
        k < carried_lines(l.take(n as int)).len(),
        carried_lines(l.take(n as int))[k] == carried_line(l[i])->Some_0,
    decreases n,
{
    let m = n - 1;
    assert(l.take(n as int).drop_last() =~= l.take(m));
    assert(l.take(n as int).last() == l[m]);
    let some = carried_lines(l.take(m));
    let all = carried_lines(l.take(n as int));
    if i < m {
        let k = lemma_carried_place(l, m as nat, i);
        assert(all[k] == some[k]);
        k
    } else {
        lemma_carried_bound(l, m as nat);
        some.len() as int
    }
}

proof fn lemma_carried_bound(l: Seq<TagView>, n: nat)
    requires
        n <= l.len(),
    ensures
        carried_lines(l.take(n as int)).len() <= n,
    decreases n,
{
    if n > 0 {
        lemma_carried_bound(l, (n - 1) as nat);
        assert(l.take(n as int).drop_last() =~= l.take(n - 1));
    }
}

/// Data that cannot be decoded is shown by its first eight bytes, and a dump shows all of the data
/// with its length.
pub proof fn law_raw_is_shown(label: Seq<char>, tag: CompoundView, value: Seq<u8>)
    ensures
        player_lines(label, None, value, true) == player_lines(label, None, value, false),
        player_lines(label, None, value, false).len() == 2,
        value.len() <= 8 ==> player_lines(label, None, value, false)[1].last() == PieceView::Bytes(
            value,
        ),
        value.len() > 8 ==> player_lines(label, None, value, false)[1].last() == PieceView::Bytes(
            value.take(8),
        ),
        ({
            let lines = player_lines(label, Some(tag), value, true);
            let data = tag_lines(TagView::Compound(tag), ""@, margin(1));
            &&& lines.len() == data.len() + 2
            &&& forall|i: int| 0 <= i < data.len() ==> #[trigger] lines[i + 1] == data[i]
            &&& lines.last()[1] == PieceView::Int(value.len() as int)
        }),
{
}

/// An ability that is set is shown.
pub proof fn law_abilities_are_shown(
    label: Seq<char>,
    tag: CompoundView,
    value: Seq<u8>,
    a: CompoundView,
    name: Seq<char>,
    v: i8,
)
    requires
        lookup_compound(tag, "abilities"@) == Some(a),
        name == "mayfly"@ || name == "instabuild"@ || name == "invulnerable"@ || name == "lightning"@
            || name == "flying"@,
        lookup(a, name) == Some(TagView::Byte(v)),
        v != 0,
    ensures
        player_lines(label, Some(tag), value, false).contains(
            seq![words("    "@), words(name), words(": 是"@)],
        ),
{
    let line = seq![words("    "@), words(name), words(": 是"@)];
    lemma_one(line);
    let p = seq![seq![words("  能力:"@)]] + real_fact(
        "    行走速度: "@,
        lookup_real(a, "walkSpeed"@),
        2,
    );
    let q = p + ability_fact(a, "mayfly"@);
    let r = q + ability_fact(a, "instabuild"@);
    let s = r + ability_fact(a, "invulnerable"@);
    let t = s + ability_fact(a, "lightning"@);
    lemma_joined(p, ability_fact(a, "mayfly"@), line);
    lemma_joined(q, ability_fact(a, "instabuild"@), line);
    lemma_joined(r, ability_fact(a, "invulnerable"@), line);
    lemma_joined(s, ability_fact(a, "lightning"@), line);
    lemma_joined(t, ability_fact(a, "flying"@), line);
    lemma_shown(label, tag, value, line);
}

/// The fields of a compound are shown in the order of their names, each with its text or its kind.
pub proof fn law_fields_are_shown(tag: CompoundView, most: int, i: int)
    requires
        0 <= most,
        0 <= i < tag.len(),
        i < most,
    ensures
        ({
            let (name, t) = tag[name_order(tag)[i]];
            &&& t matches TagView::Text(s) ==> field_lines(tag, most)[i] == seq![
                words("    "@),
                words(name),
                words(": \""@),
                words(s),
                words("\""@),
            ]
            &&& !(t is Text) ==> field_lines(tag, most)[i] == seq![
                words("    "@),
                words(name),
                words(": "@),
                words(kind_name(t)),
            ]
        }),
        tag.len() <= most ==> field_lines(tag, most).len() == tag.len(),
        tag.len() > most ==> field_lines(tag, most).len() == most + 1 && field_lines(tag, most).last()[1]
            == PieceView::Int(tag.len() - most),
{
    law_name_order(tag);
    assert(nth_by_name(tag, i) == name_order(tag)[i]);
    assert(by_name(tag)[i] == tag[name_order(tag)[i]]);
}

/// All fields are listed behind the facts, up to 20 of them, exactly if one of them is none of those
/// that have lines of their own or are not worth one.
pub proof fn law_other_fields(tag: CompoundView)
    ensures
        ({
            let unknown = exists|i: int|
                0 <= i < tag.len() && (#[trigger] tag[i]).0 != "identifier"@ && tag[i].0 != "Pos"@
                    && tag[i].0 != "DimensionId"@ && tag[i].0 != "Dimension"@ && tag[i].0
                    != "Rotation"@ && tag[i].0 != "Health"@ && tag[i].0 != "playerGameType"@
                    && tag[i].0 != "Level"@ && tag[i].0 != "XpProgress"@ && tag[i].0 != "foodLevel"@
                    && tag[i].0 != "foodSaturationLevel"@ && tag[i].0 != "Air"@ && tag[i].0
                    != "Fire"@ && tag[i].0 != "PlayerId"@ && tag[i].0 != "UniqueID"@ && tag[i].0
                    != "UniqueId"@ && tag[i].0 != "abilities"@ && tag[i].0 != "Inventory"@
                    && tag[i].0 != "MsaId"@ && tag[i].0 != "SelfSignedId"@ && tag[i].0 != "ServerId"@
                    && tag[i].0 != "InternalComponents"@;
            if unknown {
                other_facts(tag) == seq![seq![words("\n  其他 NBT 字段:"@)]] + field_lines(tag, 20)
            } else {
                other_facts(tag).len() == 0
            }
        }),
{
    if exists|i: int| 0 <= i < tag.len() && !is_known_field((#[trigger] tag[i]).0) {
        let i = choose|i: int| 0 <= i < tag.len() && !is_known_field((#[trigger] tag[i]).0);
        assert(tag[i].0 != "identifier"@);
    }
}

} // verus!
