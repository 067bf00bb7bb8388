//! What is said of a deletion, and of a player who was not found.

use crate::lines::{line_views, push_line, words, Line, LineView, PieceView};
use crate::regions::{area_size, chunk_count, is_area, Area};
use crate::world::{numbers, text_views, ChoiceView, PlayerChoice};
use vstd::prelude::*;

verus! {

/// The lines of the deletion of a rectangle: its extent, what was deleted, and whether anything
/// is left.
pub open spec fn deletion_lines(
    area: Area,
    keys: int,
    chunks: int,
    keys_left: int,
    chunks_left: int,
) -> Seq<LineView> {
    seq![
        seq![
            words("  区块删除完成: 范围 ("@),
            PieceView::Int(area.cx1 as int),
            words(", "@),
            PieceView::Int(area.cz1 as int),
            words(") ~ ("@),
            PieceView::Int(area.cx2 as int),
            words(", "@),
            PieceView::Int(area.cz2 as int),
            words("), 共 "@),
            PieceView::Int(area_size(area)),
            words(" 区块"@),
        ],
        seq![
            words("  删除 "@),
            PieceView::Int(keys),
            words(" 条键值, 涉及 "@),
            PieceView::Int(chunks),
            words(" 区块, "@),
            PieceView::Int(area_size(area) - chunks),
            words(" 区块无数据"@),
        ],
    ] + if keys_left > 0 {
        seq![
            seq![
                words("  验证: "@),
                PieceView::Int(keys_left),
                words(" 条键值在 "@),
                PieceView::Int(chunks_left),
                words(" 个区块中未清除 (仅 WAL 写入, 待 compaction)"@),
            ],
        ]
    } else if chunks > 0 {
        seq![seq![words("  验证: 目标区域数据已全部删除"@)]]
    } else {
        Seq::empty()
    }
}

/// What is said of the deletion of a rectangle.
pub fn describe_deletion(
    area: Area,
    keys: usize,
    chunks: usize,
    keys_left: usize,
    chunks_left: usize,
) -> (r: Vec<Line>)
    requires
        is_area(area),
        chunks <= area_size(area),
    ensures
        line_views(r@) == deletion_lines(
            area,
            keys as int,
            chunks as int,
            keys_left as int,
            chunks_left as int,
        ),
{
    let total: i64 = chunk_count(area);
    let ghost expected = deletion_lines(
        area,
        keys as int,
        chunks as int,
        keys_left as int,
        chunks_left as int,
    );
    let mut out: Vec<Line> = Vec::new();
    let extent = Line::new().text("  区块删除完成: 范围 (").number(area.cx1 as i64).text(", ").number(
        area.cz1 as i64,
    ).text(") ~ (").number(area.cx2 as i64).text(", ").number(area.cz2 as i64).text("), 共 ").number(
        total,
    ).text(" 区块");
    assert(extent@ =~= expected[0]);
    push_line(&mut out, extent);
    let deleted = Line::new().text("  删除 ").count(keys).text(" 条键值, 涉及 ").count(chunks).text(
        " 区块, ",
    ).number(total - chunks as i64).text(" 区块无数据");
    assert(deleted@ =~= expected[1]);
    push_line(&mut out, deleted);
    if keys_left > 0 {
        let line = Line::new().text("  验证: ").count(keys_left).text(" 条键值在 ").count(
            chunks_left,
        ).text(" 个区块中未清除 (仅 WAL 写入, 待 compaction)");
        assert(line@ =~= expected[2]);
        push_line(&mut out, line);
    } else if chunks > 0 {
        let line = Line::new().text("  验证: 目标区域数据已全部删除");
        assert(line@ =~= expected[2]);
        push_line(&mut out, line);
    }
    assert(line_views(out@) =~= expected);
    out
}

/// The lines of labels at places.
pub open spec fn label_lines(labels: Seq<Seq<char>>, places: Seq<int>) -> Seq<LineView> {
    places.map_values(|p: int| seq![words("  "@), words(labels[p])])
}

/// The places before one.
pub open spec fn places_below(n: nat) -> Seq<int> {
    Seq::new(n, |i: int| i)
}

/// The lines of a player who was not found: those whom a text could mean, or else ten of those
/// that there are.
pub open spec fn miss_lines(
    labels: Seq<Seq<char>>,
    wanted: Seq<char>,
    choice: ChoiceView,
) -> Seq<LineView> {
    match choice {
        ChoiceView::Found(_) => Seq::empty(),
        ChoiceView::Ambiguous(l) => seq![
            seq![
                words("错误: '"@),
                words(wanted),
                words("' 匹配 "@),
                PieceView::Int(l.len() as int),
                words(" 位玩家:"@),
            ],
        ] + label_lines(labels, l),
        ChoiceView::Missing => {
            let shown = if labels.len() < 10 {
                labels.len()
            } else {
                10
            };
            seq![
                seq![words("错误: 未找到玩家 '"@), words(wanted), words("'"@)],
                seq![words("可用玩家 (前 "@), PieceView::Int(shown as int), words(" 位):"@)],
            ] + label_lines(labels, places_below(shown)) + if labels.len() > 10 {
                seq![
                    seq![words("  ... 还有 "@), PieceView::Int(labels.len() - 10), words(" 位"@)],
                ]
            } else {
                Seq::empty()
            } + seq![
                seq![words("\n提示: 用 --player <UUID> 搜索，或用 --actors 列出所有实体"@)],
            ]
        },
    }
}

fn push_labels(out: &mut Vec<Line>, labels: &Vec<String>, places: &Vec<usize>)
    requires
        forall|k: int| 0 <= k < places@.len() ==> (#[trigger] places@[k]) < labels@.len(),
    ensures
        line_views(final(out)@) == line_views(old(out)@) + label_lines(
            text_views(labels@),
            numbers(places@),
        ),
{
    let ghost before = line_views(out@);
    let ghost texts = text_views(labels@);
    let ghost all = numbers(places@);
    assert(line_views(out@) =~= before + label_lines(texts, all.take(0)));
    for i in 0..places.len()
        invariant
            texts == text_views(labels@),
            all == numbers(places@),
            forall|k: int| 0 <= k < places@.len() ==> (#[trigger] places@[k]) < labels@.len(),
            line_views(out@) == before + label_lines(texts, all.take(i as int)),
    {
        let p: usize = places[i];
        let ghost so_far = line_views(out@);
        assert(all[i as int] == p);
        assert(texts[p as int] == labels@[p as int]@);
        let line = Line::new().text("  ").text(labels[p].as_str());
        assert(line@ =~= seq![words("  "@), words(texts[p as int])]);
        push_line(out, line);
        assert(line_views(out@) =~= before + label_lines(texts, all.take(i + 1)));
    }
    assert(all.take(places@.len() as int) =~= all);
}

/// What is said of a player who was not found.
pub fn describe_miss(labels: &Vec<String>, wanted: &str, choice: &PlayerChoice) -> (r: Vec<Line>)
    requires
        choice matches PlayerChoice::Ambiguous(l) ==> forall|k: int|
            0 <= k < l@.len() ==> (#[trigger] l@[k]) < labels@.len(),
    ensures
        line_views(r@) == miss_lines(text_views(labels@), wanted@, choice@),
{
    let ghost expected = miss_lines(text_views(labels@), wanted@, choice@);
    let mut out: Vec<Line> = Vec::new();
    match choice {
        PlayerChoice::Found(_) => {},
        PlayerChoice::Ambiguous(l) => {
            let title = Line::new().text("错误: '").text(wanted).text("' 匹配 ").count(l.len()).text(
                " 位玩家:",
            );
            assert(title@ =~= expected[0]);
            push_line(&mut out, title);
            push_labels(&mut out, labels, l);
        },
        PlayerChoice::Missing => {
            let shown: usize = if labels.len() < 10 {
                labels.len()
            } else {
                10
            };
            let title = Line::new().text("错误: 未找到玩家 '").text(wanted).text("'");
            assert(title@ =~= expected[0]);
            push_line(&mut out, title);
            let head = Line::new().text("可用玩家 (前 ").count(shown).text(" 位):");
            assert(head@ =~= expected[1]);
            push_line(&mut out, head);
            let mut places: Vec<usize> = Vec::new();
            for i in 0..shown
                invariant
                    places@.len() == i,
                    forall|k: int| 0 <= k < i ==> #[trigger] places@[k] == k,
            {
                places.push(i);
            }
            assert(numbers(places@) =~= places_below(shown as nat));
            push_labels(&mut out, labels, &places);
            if labels.len() > 10 {
                let more = Line::new().text("  ... 还有 ").count(labels.len() - 10).text(" 位");
                assert(more@ =~= seq![
                    words("  ... 还有 "@),
                    PieceView::Int(labels@.len() - 10),
                    words(" 位"@),
                ]);
                push_line(&mut out, more);
            }
            let hint = Line::new().text(
                "\n提示: 用 --player <UUID> 搜索，或用 --actors 列出所有实体",
            );
            assert(hint@ =~= seq![
                words("\n提示: 用 --player <UUID> 搜索，或用 --actors 列出所有实体"@),
            ]);
            push_line(&mut out, hint);
        },
    }
    assert(line_views(out@) =~= expected);
    out
}

/// What is said of a deletion: the rectangle from its lowest to its highest chunk, x before z, and how
/// many chunks it has, how many keys and chunks were deleted and how many chunks held nothing, and
/// whether anything is left.
pub proof fn law_deletion_is_described(
    area: Area,
    keys: int,
    chunks: int,
    keys_left: int,
    chunks_left: int,
)
    ensures
        ({
            let l = deletion_lines(area, keys, chunks, keys_left, chunks_left);
            let size = (area.cx2 - area.cx1 + 1) * (area.cz2 - area.cz1 + 1);
            &&& l[0][1] == PieceView::Int(area.cx1 as int)
            &&& l[0][3] == PieceView::Int(area.cz1 as int)
            &&& l[0][5] == PieceView::Int(area.cx2 as int)
            &&& l[0][7] == PieceView::Int(area.cz2 as int)
            &&& l[0][9] == PieceView::Int(size)
            &&& l[1][1] == PieceView::Int(keys)
            &&& l[1][3] == PieceView::Int(chunks)
            &&& l[1][5] == PieceView::Int(size - chunks)
            &&& keys_left > 0 ==> l.len() == 3 && l[2][1] == PieceView::Int(keys_left) && l[2][3]
                == PieceView::Int(chunks_left)
            &&& keys_left <= 0 && chunks > 0 ==> l.len() == 3 && l[2] == seq![
                words("  验证: 目标区域数据已全部删除"@),
            ]
            &&& keys_left <= 0 && chunks <= 0 ==> l.len() == 2
        }),
{
}

/// A text that stands in the labels of several players is answered with all of these, and one that
/// stands in none with the first ten players there are.
pub proof fn law_miss_is_described(labels: Seq<Seq<char>>, wanted: Seq<char>, l: Seq<int>, i: int)
    ensures
        miss_lines(labels, wanted, ChoiceView::Ambiguous(l)).len() == l.len() + 1,
        miss_lines(labels, wanted, ChoiceView::Ambiguous(l))[0][1] == words(wanted),
        miss_lines(labels, wanted, ChoiceView::Ambiguous(l))[0][3] == PieceView::Int(
            l.len() as int,
        ),
        0 <= i < l.len() ==> miss_lines(labels, wanted, ChoiceView::Ambiguous(l))[i + 1] == seq![
            words("  "@),
            words(labels[l[i]]),
        ],
        miss_lines(labels, wanted, ChoiceView::Missing)[0][1] == words(wanted),
        0 <= i < 10 && i < labels.len() ==> miss_lines(labels, wanted, ChoiceView::Missing)[i + 2]
            == seq![words("  "@), words(labels[i])],
        labels.len() > 10 ==> miss_lines(labels, wanted, ChoiceView::Missing)[12][1]
            == PieceView::Int(labels.len() - 10),
{
}

} // verus!
