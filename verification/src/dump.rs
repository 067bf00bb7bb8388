//! NBT trees and container contents as lines of text.

use crate::lines::{
    lemma_joined, line_views, push_line, push_lines, words, Line, LineView, Piece, PieceView,
};
use crate::name_order::{law_name_order, name_order, nth_by_name, places_by_name};
use crate::nbt::{
    compound_view, list_view, lookup, lookup_i32, lookup_list, lookup_text, CompoundTag,
    CompoundView, Real, Tag, TagView,
};
use crate::inventory::{elements, or_zero};
use crate::text::chars_of;
use vstd::prelude::*;
use vstd::string::StringExecFns;

verus! {

/// A line that begins with a margin and a label.
pub open spec fn labelled(pad: Seq<char>, label: Seq<char>, rest: Seq<PieceView>) -> LineView {
    seq![words(pad), words(label)] + rest
}

/// The label of a named value.
pub open spec fn name_label(name: Seq<char>) -> Seq<char> {
    "\""@ + name + "\": "@
}

/// Lines of which the last ends in a comma, where one is wanted.
pub open spec fn with_comma(lines: Seq<LineView>, comma: bool) -> Seq<LineView> {
    if comma && lines.len() > 0 {
        lines.drop_last().push(lines.last().push(words(","@)))
    } else {
        lines
    }
}

/// A tag as lines, behind a margin and a label. The entries of a compound come in the order of
/// their names. An array shows its length only, and an end tag nothing.
pub open spec fn tag_lines(t: TagView, label: Seq<char>, pad: Seq<char>) -> Seq<LineView>
    decreases t, 0nat,
{
    match t {
        TagView::End => Seq::empty(),
        TagView::Byte(v) => seq![
            labelled(pad, label, seq![PieceView::Int(v as int), words("b"@)]),
        ],
        TagView::Short(v) => seq![
            labelled(pad, label, seq![PieceView::Int(v as int), words("s"@)]),
        ],
        TagView::Int(v) => seq![labelled(pad, label, seq![PieceView::Int(v as int)])],
        TagView::Long(v) => seq![
            labelled(pad, label, seq![PieceView::Int(v as int), words("L"@)]),
        ],
        TagView::Float(v) => seq![
            labelled(pad, label, seq![PieceView::Real(Real::Single(v)), words("f"@)]),
        ],
        TagView::Double(v) => seq![
            labelled(pad, label, seq![PieceView::Real(Real::Double(v)), words("d"@)]),
        ],
        TagView::Text(s) => seq![labelled(pad, label, seq![words("\""@), words(s), words("\""@)])],
        TagView::ByteArray(a) => seq![
            labelled(pad, label, seq![words("[B; "@), PieceView::Int(a.len() as int), words(" bytes]"@)]),
        ],
        TagView::IntArray(a) => seq![
            labelled(pad, label, seq![words("[I; "@), PieceView::Int(a.len() as int), words(" ints]"@)]),
        ],
        TagView::LongArray(a) => seq![
            labelled(pad, label, seq![words("[L; "@), PieceView::Int(a.len() as int), words(" longs]"@)]),
        ],
        TagView::List(l) => seq![labelled(pad, label, seq![words("["@)])] + element_lines(
            l,
            l.len(),
            pad + "  "@,
        ) + seq![seq![words(pad), words("]"@)]],
        TagView::Compound(c) => seq![labelled(pad, label, seq![words("{"@)])] + entry_lines(
            c,
            c.len(),
            pad + "  "@,
        ) + seq![seq![words(pad), words("}"@)]],
    }
}

/// The first `n` elements of a list as lines. All but the last of the list end in a comma.
pub open spec fn element_lines(l: Seq<TagView>, n: nat, pad: Seq<char>) -> Seq<LineView>
    decreases l, n,
{
    if n == 0 || n > l.len() {
        Seq::empty()
    } else {
        element_lines(l, (n - 1) as nat, pad) + with_comma(
            tag_lines(l[n - 1], ""@, pad),
            n < l.len(),
        )
    }
}

/// The first `n` entries of a compound in the order of their names, as lines. All but the last of
/// the compound end in a comma.
pub open spec fn entry_lines(c: CompoundView, n: nat, pad: Seq<char>) -> Seq<LineView>
    decreases c, n,
{
    if n == 0 || n > c.len() {
        Seq::empty()
    } else {
        let k = nth_by_name(c, n - 1);
        entry_lines(c, (n - 1) as nat, pad) + with_comma(
            tag_lines(c[k].1, name_label(c[k].0), pad),
            n < c.len(),
        )
    }
}

/// A margin two blanks wide for each step.
pub open spec fn margin(steps: nat) -> Seq<char>
    decreases steps,
{
    if steps == 0 {
        Seq::empty()
    } else {
        margin((steps - 1) as nat) + "  "@
    }
}

fn label_of(name: &String) -> (r: String)
    ensures
        r@ == name_label(name@),
{
    let mut out: String = "\"".to_owned();
    out.append(name.as_str());
    out.append("\": ");
    out
}

fn deeper(pad: &str) -> (r: String)
    ensures
        r@ == pad@ + "  "@,
{
    let mut out: String = pad.to_owned();
    out.append("  ");
    out
}

fn push_with_comma(out: &mut Vec<Line>, lines: Vec<Line>, comma: bool)
    ensures
        line_views(final(out)@) == line_views(old(out)@) + with_comma(line_views(lines@), comma),
{
    let mut lines = lines;
    if comma && lines.len() > 0 {
        let ghost before = line_views(lines@);
        let last = lines.pop().unwrap();
        assert(line_views(lines@) =~= before.drop_last());
        push_line(&mut lines, last.text(","));
    }
    push_lines(out, lines);
}

fn label_line(pad: &str, label: &str) -> (r: Line)
    ensures
        r@ == seq![words(pad@), words(label@)],
{
    let r = Line::new().text(pad).text(label);
    assert(r@ =~= seq![words(pad@), words(label@)]);
    r
}

fn one_line(line: Line) -> (r: Vec<Line>)
    ensures
        line_views(r@) == seq![line@],
{
    let mut out: Vec<Line> = Vec::new();
    push_line(&mut out, line);
    assert(line_views(out@) =~= seq![line@]);
    out
}

fn number_line(pad: &str, label: &str, v: i64, unit: &str) -> (r: Vec<Line>)
    ensures
        line_views(r@) == seq![
            labelled(pad@, label@, seq![PieceView::Int(v as int), words(unit@)]),
        ],
{
    let line = label_line(pad, label).number(v).text(unit);
    assert(line@ =~= labelled(pad@, label@, seq![PieceView::Int(v as int), words(unit@)]));
    one_line(line)
}

fn real_line(pad: &str, label: &str, v: Real, unit: &str) -> (r: Vec<Line>)
    ensures
        line_views(r@) == seq![labelled(pad@, label@, seq![PieceView::Real(v), words(unit@)])],
{
    let line = label_line(pad, label).with(Piece::Real(v)).text(unit);
    assert(line@ =~= labelled(pad@, label@, seq![PieceView::Real(v), words(unit@)]));
    one_line(line)
}

fn array_line(pad: &str, label: &str, open: &str, n: usize, close: &str) -> (r: Vec<Line>)
    ensures
        line_views(r@) == seq![
            labelled(pad@, label@, seq![words(open@), PieceView::Int(n as int), words(close@)]),
        ],
{
    let line = label_line(pad, label).text(open).count(n).text(close);
    assert(line@ =~= labelled(
        pad@,
        label@,
        seq![words(open@), PieceView::Int(n as int), words(close@)],
    ));
    one_line(line)
}

fn lines_behind(tag: &Tag, label: &str, pad: &str) -> (r: Vec<Line>)
    ensures
        line_views(r@) == tag_lines(tag@, label@, pad@),
    decreases tag,
{
    match tag {
        Tag::End => {
            let out: Vec<Line> = Vec::new();
            assert(line_views(out@) =~= Seq::empty());
            out
        },
        Tag::Byte(v) => number_line(pad, label, *v as i64, "b"),
        Tag::Short(v) => number_line(pad, label, *v as i64, "s"),
        Tag::Int(v) => {
            let line = label_line(pad, label).number(*v as i64);
            assert(line@ =~= labelled(pad@, label@, seq![PieceView::Int(*v as int)]));
            one_line(line)
        },
        Tag::Long(v) => number_line(pad, label, *v, "L"),
        Tag::Float(v) => real_line(pad, label, Real::Single(*v), "f"),
        Tag::Double(v) => real_line(pad, label, Real::Double(*v), "d"),
        Tag::Text(s) => {
            let line = label_line(pad, label).text("\"").text(s.as_str()).text("\"");
            assert(line@ =~= labelled(
                pad@,
                label@,
                seq![words("\""@), words(s@), words("\""@)],
            ));
            one_line(line)
        },
        Tag::ByteArray(a) => array_line(pad, label, "[B; ", a.len(), " bytes]"),
        Tag::IntArray(a) => array_line(pad, label, "[I; ", a.len(), " ints]"),
        Tag::LongArray(a) => array_line(pad, label, "[L; ", a.len(), " longs]"),
        Tag::List(l) => {
            let first = label_line(pad, label).text("[");
            assert(first@ =~= labelled(pad@, label@, seq![words("["@)]));
            let mut out = one_line(first);
            push_lines(&mut out, lines_of_elements(l, deeper(pad).as_str()));
            let last = Line::new().text(pad).text("]");
            assert(last@ =~= seq![words(pad@), words("]"@)]);
            push_line(&mut out, last);
            assert(line_views(out@) =~= tag_lines(tag@, label@, pad@));
            out
        },
        Tag::Compound(c) => {
            let first = label_line(pad, label).text("{");
            assert(first@ =~= labelled(pad@, label@, seq![words("{"@)]));
            let mut out = one_line(first);
            push_lines(&mut out, lines_of_entries(c, deeper(pad).as_str()));
            let last = Line::new().text(pad).text("}");
            assert(last@ =~= seq![words(pad@), words("}"@)]);
            push_line(&mut out, last);
            assert(line_views(out@) =~= tag_lines(tag@, label@, pad@));
            out
        },
    }
}

fn lines_of_elements(l: &Vec<Tag>, pad: &str) -> (r: Vec<Line>)
    ensures
        line_views(r@) == element_lines(list_view(l@), l@.len(), pad@),
    decreases l,
{
    let ghost all = list_view(l@);
    let mut out: Vec<Line> = Vec::new();
    assert(line_views(out@) =~= Seq::empty());
    for i in 0..l.len()
        invariant
            all == list_view(l@),
            line_views(out@) == element_lines(all, i as nat, pad@),
    {
        let sub = lines_behind(&l[i], "", pad);
        push_with_comma(&mut out, sub, i + 1 < l.len());
    }
    out
}

fn lines_of_entries(c: &CompoundTag, pad: &str) -> (r: Vec<Line>)
    ensures
        line_views(r@) == entry_lines(c@, c@.len(), pad@),
    decreases c,
{
    let ghost all = compound_view(*c);
    let mut out: Vec<Line> = Vec::new();
    assert(line_views(out@) =~= Seq::empty());
    let order = places_by_name(c);
    for i in 0..c.entries.len()
        invariant
            all == compound_view(*c),
            order@.len() == c.entries@.len(),
            forall|j: int|
                0 <= j < order@.len() ==> (#[trigger] order@[j]) < order@.len() && order@[j]
                    == nth_by_name(all, j),
            line_views(out@) == entry_lines(all, i as nat, pad@),
    {
        let k: usize = order[i];
        let label = label_of(&c.entries[k].0);
        let sub = lines_behind(&c.entries[k].1, label.as_str(), pad);
        push_with_comma(&mut out, sub, i + 1 < c.entries.len());
    }
    out
}

/// A tag as lines, behind a label and a margin of so many steps.
pub fn tag_to_lines(tag: &Tag, label: &str, indent: usize) -> (r: Vec<Line>)
    ensures
        line_views(r@) == tag_lines(tag@, label@, margin(indent as nat)),
{
    let mut pad = String::new();
    assert(pad@ =~= margin(0));
    for i in 0..indent
        invariant
            pad@ == margin(i as nat),
    {
        pad.append("  ");
    }
    lines_behind(tag, label, pad.as_str())
}

/// The lines of one item of a container. What is not a compound has none.
pub open spec fn chest_item_lines(elem: TagView) -> Seq<LineView> {
    match elem {
        TagView::Compound(c) => seq![
            seq![words("  "@)] + match lookup_i32(c, "Slot"@) {
                Some(s) => seq![words("[Slot "@), PieceView::Wide(s as int), words("]"@)],
                None => seq![words("[???]   "@)],
            } + seq![
                words(" "@),
                words(
                    match lookup_text(c, "Name"@) {
                        Some(s) => s,
                        None => "unknown"@,
                    },
                ),
                words("  x"@),
                PieceView::Int(or_zero(lookup_i32(c, "Count"@)) as int),
                words("  (damage: "@),
                PieceView::Int(or_zero(lookup_i32(c, "Damage"@)) as int),
                words(")"@),
            ],
        ] + match lookup(c, "tag"@) {
            Some(t) => indented(tag_lines(t, ""@, margin(2))),
            None => Seq::empty(),
        },
        _ => Seq::empty(),
    }
}

/// Lines five blanks further in.
pub open spec fn indented(lines: Seq<LineView>) -> Seq<LineView> {
    lines.map_values(|l: LineView| seq![words("     "@)] + l)
}

/// The lines of the items of a container.
pub open spec fn chest_lines(elems: Seq<TagView>) -> Seq<LineView>
    decreases elems.len(),
{
    if elems.len() == 0 {
        Seq::empty()
    } else {
        chest_lines(elems.drop_last()) + chest_item_lines(elems.last())
    }
}

/// The content of a container as lines: its items, or that it is empty.
pub open spec fn container_lines(be: CompoundView) -> Seq<LineView> {
    let lines = chest_lines(elements(be, "Items"@));
    if lines.len() == 0 {
        seq![seq![words("  (empty)"@)]]
    } else {
        lines
    }
}

fn indent_line(line: Line) -> (r: Line)
    ensures
        r@ == seq![words("     "@)] + line@,
{
    let ghost rest = line@;
    let mut pieces: Vec<Piece> = Vec::new();
    pieces.push(Piece::Text("     ".to_owned()));
    let mut old_pieces = line.pieces;
    pieces.append(&mut old_pieces);
    let r = Line { pieces };
    assert(r@ =~= seq![words("     "@)] + rest);
    r
}

fn push_indented(out: &mut Vec<Line>, lines: Vec<Line>)
    ensures
        line_views(final(out)@) == line_views(old(out)@) + indented(line_views(lines@)),
{
    let ghost all = lines@;
    let ghost before = line_views(out@);
    assert(line_views(out@) =~= before + indented(line_views(all.take(0))));
    for line in it: lines.into_iter()
        invariant
            it.seq() == all,
            line_views(out@) == before + indented(line_views(all.take(it.index() as int))),
    {
        let ghost i = it.index() as int;
        assert(all[i] == line);
        push_line(out, indent_line(line));
        assert(line_views(out@) =~= before + indented(line_views(all.take(i + 1))));
    }
    assert(all.take(all.len() as int) =~= all);
}

fn push_chest_item(out: &mut Vec<Line>, tag: &CompoundTag)
    ensures
        line_views(final(out)@) == line_views(old(out)@) + chest_item_lines(
            TagView::Compound(tag@),
        ),
{
    let ghost before = line_views(out@);
    let start = Line::new().text("  ");
    let slotted = match tag.get_i32("Slot") {
        Some(s) => start.text("[Slot ").with(Piece::Wide(s as i64)).text("]"),
        None => start.text("[???]   "),
    };
    let name: &str = match tag.get_text("Name") {
        Some(s) => s,
        None => "unknown",
    };
    let count: i32 = match tag.get_i32("Count") {
        Some(v) => v,
        None => 0,
    };
    let damage: i32 = match tag.get_i32("Damage") {
        Some(v) => v,
        None => 0,
    };
    let line = slotted.text(" ").text(name).text("  x").number(count as i64).text(
        "  (damage: ",
    ).number(damage as i64).text(")");
    let ghost first = chest_item_lines(TagView::Compound(tag@))[0];
    assert(line@ =~= first);
    push_line(out, line);
    match tag.get("tag") {
        Some(t) => {
            push_indented(out, tag_to_lines(t, "", 2));
        },
        None => {},
    }
    assert(line_views(out@) =~= before + chest_item_lines(TagView::Compound(tag@)));
}

/// The content of a container as lines.
pub fn format_chest_items(be: &CompoundTag) -> (r: Vec<Line>)
    ensures
        line_views(r@) == container_lines(be@),
{
    let mut out: Vec<Line> = Vec::new();
    assert(line_views(out@) =~= Seq::empty());
    if let Some(list) = be.get_list("Items") {
        let ghost all = list_view(list@);
        assert(line_views(out@) =~= chest_lines(all.take(0)));
        for i in 0..list.len()
            invariant
                all == list_view(list@),
                line_views(out@) == chest_lines(all.take(i as int)),
        {
            assert(all.take(i + 1).drop_last() =~= all.take(i as int));
            assert(all.take(i + 1).last() == list@[i as int]@);
            match &list[i] {
                Tag::Compound(tag) => {
                    push_chest_item(&mut out, tag);
                },
                _ => {
                    assert(line_views(out@) =~= chest_lines(all.take(i + 1)));
                },
            }
        }
        assert(all.take(list@.len() as int) =~= all);
    }
    if out.len() == 0 {
        let line = Line::new().text("  (empty)");
        assert(line@ =~= seq![words("  (empty)"@)]);
        return one_line(line);
    }
    out
}

/// A name without the quotation marks around it, where it stands in such.
pub open spec fn unquoted(name: Seq<char>) -> Seq<char> {
    if name.len() >= 2 && name[0] == '"' && name.last() == '"' {
        name.subrange(1, name.len() - 1)
    } else {
        name
    }
}

/// The custom name of a container, without the quotation marks around it.
pub open spec fn custom_name(be: CompoundView) -> Option<Seq<char>> {
    match lookup_text(be, "CustomName"@) {
        Some(s) => Some(unquoted(s)),
        None => None,
    }
}

/// The custom name of a container, without the quotation marks around it.
pub fn container_name(be: &CompoundTag) -> (r: Option<String>)
    ensures
        match r {
            Some(s) => custom_name(be@) == Some(s@),
            None => custom_name(be@) is None,
        },
{
    match be.get_text("CustomName") {
        Some(name) => {
            let chars = chars_of(name);
            if chars.len() >= 2 && chars[0] == '"' && chars[chars.len() - 1] == '"' {
                let mut out = String::new();
                let mut i: usize = 1;
                assert(out@ =~= chars@.subrange(1, 1));
                while i < chars.len() - 1
                    invariant
                        2 <= chars.len(),
                        1 <= i <= chars.len() - 1,
                        out@ == chars@.subrange(1, i as int),
                    decreases chars.len() - i,
                {
                    out.push(chars[i]);
                    i += 1;
                    assert(out@ =~= chars@.subrange(1, i as int));
                }
                Some(out)
            } else {
                Some(name.to_owned())
            }
        },
        None => None,
    }
}

/// Every item of a container has a line with its slot, its name, its count and its damage.
pub proof fn law_items_are_shown(
    be: CompoundView,
    l: Seq<TagView>,
    i: int,
    c: CompoundView,
    slot: i32,
    name: Seq<char>,
    count: i32,
    damage: i32,
)
    requires
        lookup_list(be, "Items"@) == Some(l),
        0 <= i < l.len(),
        l[i] == TagView::Compound(c),
        lookup_i32(c, "Slot"@) == Some(slot),
        lookup_text(c, "Name"@) == Some(name),
        lookup_i32(c, "Count"@) == Some(count),
        lookup_i32(c, "Damage"@) == Some(damage),
    ensures
        container_lines(be).contains(
            seq![
                words("  "@),
                words("[Slot "@),
                PieceView::Wide(slot as int),
                words("]"@),
                words(" "@),
                words(name),
                words("  x"@),
                PieceView::Int(count as int),
                words("  (damage: "@),
                PieceView::Int(damage as int),
                words(")"@),
            ],
        ),
{
    let line = seq![
        words("  "@),
        words("[Slot "@),
        PieceView::Wide(slot as int),
        words("]"@),
        words(" "@),
        words(name),
        words("  x"@),
        PieceView::Int(count as int),
        words("  (damage: "@),
        PieceView::Int(damage as int),
        words(")"@),
    ];
    assert(chest_item_lines(l[i])[0] =~= line);
    assert(chest_item_lines(l[i]).contains(line));
    lemma_item_lines(l, l.len(), i, line);
    assert(l.take(l.len() as int) =~= l);
}

proof fn lemma_item_lines(l: Seq<TagView>, n: nat, i: int, line: LineView)
    requires
        0 <= i < n <= l.len(),
        chest_item_lines(l[i]).contains(line),
    ensures
        chest_lines(l.take(n as int)).contains(line),
    decreases n,
{
    assert(l.take(n as int).drop_last() =~= l.take(n - 1));
    assert(l.take(n as int).last() == l[n - 1]);
    lemma_joined(chest_lines(l.take(n - 1)), chest_item_lines(l[n - 1]), line);
    if i < n - 1 {
        lemma_item_lines(l, (n - 1) as nat, i, line);
    }
}

/// A container without a list of items, or with an empty one, is said to be empty.
pub proof fn law_empty_container(be: CompoundView)
    requires
        lookup_list(be, "Items"@) matches Some(l) ==> l.len() == 0,
    ensures
        container_lines(be) == seq![seq![words("  (empty)"@)]],
{
}

/// The name of a container is its `CustomName`, without quotation marks around it.
pub proof fn law_container_name(be: CompoundView, name: Seq<char>)
    ensures
        lookup_text(be, "CustomName"@) == Some(seq!['"'] + name + seq!['"']) ==> custom_name(be)
            == Some(name),
        lookup_text(be, "CustomName"@) == Some(name) && (name.len() == 0 || name[0] != '"')
            ==> custom_name(be) == Some(name),
        lookup_text(be, "CustomName"@) is None ==> custom_name(be) is None,
{
    let quoted = seq!['"'] + name + seq!['"'];
    assert(quoted.subrange(1, quoted.len() - 1) =~= name);
}

/// The lines of a compound begin with an opening brace behind the label and end with a closing one.
/// Between them every entry has its lines, two blanks further in and behind its name in quotation
/// marks, in the order of the names and with a comma behind all but the last.
pub proof fn law_compound_lines(c: CompoundView, label: Seq<char>, pad: Seq<char>, i: int) -> (at: int)
    requires
        0 <= i < c.len(),
    ensures
        ({
            let lines = tag_lines(TagView::Compound(c), label, pad);
            let (name, t) = c[name_order(c)[i]];
            let own = tag_lines(t, "\""@ + name + "\": "@, pad + "  "@);
            &&& lines[0] == seq![words(pad), words(label), words("{"@)]
            &&& lines.last() == seq![words(pad), words("}"@)]
            &&& 1 <= at && at + own.len() < lines.len()
            &&& forall|k: int|
                0 <= k < own.len() ==> #[trigger] lines[at + k] == if k == own.len() - 1 && i + 1
                    < c.len() {
                    own[k].push(words(","@))
                } else {
                    own[k]
                }
        }),
{
    law_name_order(c);
    assert(nth_by_name(c, i) == name_order(c)[i]);
    let inside = entry_lines(c, c.len(), pad + "  "@);
    let lines = tag_lines(TagView::Compound(c), label, pad);
    assert(lines[0] =~= seq![words(pad), words(label), words("{"@)]);
    let at = lemma_entry_lines(c, c.len(), pad + "  "@, i);
    let (name, t) = c[name_order(c)[i]];
    let own = tag_lines(t, name_label(name), pad + "  "@);
    assert forall|k: int| 0 <= k < own.len() implies #[trigger] lines[at + 1 + k] == if k == own.len()
        - 1 && i + 1 < c.len() {
        own[k].push(words(","@))
    } else {
        own[k]
    } by {
        assert(lines[at + 1 + k] == inside[at + k]);
    }
    at + 1
}

proof fn lemma_entry_lines(c: CompoundView, n: nat, pad: Seq<char>, i: int) -> (at: int)
    requires
        0 <= i < n <= c.len(),
    ensures
        ({
            let lines = entry_lines(c, n, pad);
            let k = nth_by_name(c, i);
            let own = tag_lines(c[k].1, name_label(c[k].0), pad);
            &&& 0 <= at && at + own.len() <= lines.len()
            &&& forall|k: int|
                0 <= k < own.len() ==> #[trigger] lines[at + k] == if k == own.len() - 1 && i + 1
                    < c.len() {
                    own[k].push(words(","@))
                } else {
                    own[k]
                }
        }),
    decreases n,
{
    let rest = entry_lines(c, (n - 1) as nat, pad);
    let lines = entry_lines(c, n, pad);
    let j = nth_by_name(c, n - 1);
    let last = with_comma(tag_lines(c[j].1, name_label(c[j].0), pad), n < c.len());
    assert(lines == rest + last);
    if i < n - 1 {
        let at = lemma_entry_lines(c, (n - 1) as nat, pad, i);
        let own = tag_lines(c[nth_by_name(c, i)].1, name_label(c[nth_by_name(c, i)].0), pad);
        assert forall|k: int| 0 <= k < own.len() implies #[trigger] lines[at + k] == if k
            == own.len() - 1 && i + 1 < c.len() {
            own[k].push(words(","@))
        } else {
            own[k]
        } by {
            assert(lines[at + k] == rest[at + k]);
        }
        at
    } else {
        let own = tag_lines(c[j].1, name_label(c[j].0), pad);
        let at = rest.len() as int;
        assert forall|k: int| 0 <= k < own.len() implies #[trigger] lines[at + k] == if k
            == own.len() - 1 && i + 1 < c.len() {
            own[k].push(words(","@))
        } else {
            own[k]
        } by {
            assert(lines[at + k] == last[k]);
        }
        at
    }
}

/// The lines of plain values: a number with the letter of its width, a text in quotation marks, and an
/// array by its length.
pub proof fn law_plain_lines(
    label: Seq<char>,
    pad: Seq<char>,
    a: i8,
    b: i16,
    c: i32,
    d: i64,
    f: u32,
    g: u64,
    s: Seq<char>,
)
    ensures
        tag_lines(TagView::Byte(a), label, pad)[0] == seq![
            words(pad),
            words(label),
            PieceView::Int(a as int),
            words("b"@),
        ],
        tag_lines(TagView::Short(b), label, pad)[0] == seq![
            words(pad),
            words(label),
            PieceView::Int(b as int),
            words("s"@),
        ],
        tag_lines(TagView::Int(c), label, pad)[0] == seq![
            words(pad),
            words(label),
            PieceView::Int(c as int),
        ],
        tag_lines(TagView::Long(d), label, pad)[0] == seq![
            words(pad),
            words(label),
            PieceView::Int(d as int),
            words("L"@),
        ],
        tag_lines(TagView::Float(f), label, pad)[0] == seq![
            words(pad),
            words(label),
            PieceView::Real(Real::Single(f)),
            words("f"@),
        ],
        tag_lines(TagView::Double(g), label, pad)[0] == seq![
            words(pad),
            words(label),
            PieceView::Real(Real::Double(g)),
            words("d"@),
        ],
        tag_lines(TagView::Text(s), label, pad)[0] == seq![
            words(pad),
            words(label),
            words("\""@),
            words(s),
            words("\""@),
        ],
{
    assert(tag_lines(TagView::Byte(a), label, pad)[0] =~= seq![
        words(pad),
        words(label),
        PieceView::Int(a as int),
        words("b"@),
    ]);
    assert(tag_lines(TagView::Short(b), label, pad)[0] =~= seq![
        words(pad),
        words(label),
        PieceView::Int(b as int),
        words("s"@),
    ]);
    assert(tag_lines(TagView::Int(c), label, pad)[0] =~= seq![
        words(pad),
        words(label),
        PieceView::Int(c as int),
    ]);
    assert(tag_lines(TagView::Long(d), label, pad)[0] =~= seq![
        words(pad),
        words(label),
        PieceView::Int(d as int),
        words("L"@),
    ]);
    assert(tag_lines(TagView::Float(f), label, pad)[0] =~= seq![
        words(pad),
        words(label),
        PieceView::Real(Real::Single(f)),
        words("f"@),
    ]);
    assert(tag_lines(TagView::Double(g), label, pad)[0] =~= seq![
        words(pad),
        words(label),
        PieceView::Real(Real::Double(g)),
        words("d"@),
    ]);
    assert(tag_lines(TagView::Text(s), label, pad)[0] =~= seq![
        words(pad),
        words(label),
        words("\""@),
        words(s),
        words("\""@),
    ]);
}

} // verus!
