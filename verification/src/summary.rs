//! How many keys of each kind a database holds.

use crate::keys::{
    block_entity_key_bytes, chunk_prefix, key_starts, key_starts_with, subchunk_key_bytes,
};
use crate::lines::{line_views, push_line, words, Line, LineView, PieceView};
use crate::selection::{lemma_select_next, lemma_select_none, selects};
use crate::store::{entry_views, DbEntry, EntryView};
use vstd::prelude::*;

verus! {

/// The kinds of keys, in the order of their names.
#[derive(Clone, Copy, PartialEq, Eq, Structural, Debug)]
pub enum KeyKind {
    BiomeState,
    BlockEntities,
    BlockExtra,
    ChunkVersion,
    Entities,
    Other,
    PendingTicks,
    PlayerData,
    Subchunks,
}

/// The name of a kind of keys.
pub open spec fn kind_label(kind: KeyKind) -> Seq<char> {
    match kind {
        KeyKind::BiomeState => "biome_state"@,
        KeyKind::BlockEntities => "block_entities"@,
        KeyKind::BlockExtra => "block_extra"@,
        KeyKind::ChunkVersion => "chunk_version"@,
        KeyKind::Entities => "entities"@,
        KeyKind::Other => "other"@,
        KeyKind::PendingTicks => "pending_ticks"@,
        KeyKind::PlayerData => "player_data"@,
        KeyKind::Subchunks => "subchunks"@,
    }
}

/// The kind of a key. One of at least nine bytes is told by the tag behind the chunk
/// coordinates.
pub open spec fn key_kind(key: Seq<u8>) -> KeyKind {
    if key.len() >= 9 {
        match key[8] {
            0x2f => KeyKind::Subchunks,
            0x31 => KeyKind::BlockEntities,
            0x32 => KeyKind::Entities,
            0x33 => KeyKind::PendingTicks,
            0x34 => KeyKind::BlockExtra,
            0x36 => KeyKind::BiomeState,
            0x38 => KeyKind::ChunkVersion,
            _ => KeyKind::Other,
        }
    } else if key_starts(key, "~"@) || key_starts(key, "player_"@) {
        KeyKind::PlayerData
    } else {
        KeyKind::Other
    }
}

/// The name of a kind of keys.
pub fn kind_name(kind: KeyKind) -> (r: &'static str)
    ensures
        r@ == kind_label(kind),
{
    match kind {
        KeyKind::BiomeState => "biome_state",
        KeyKind::BlockEntities => "block_entities",
        KeyKind::BlockExtra => "block_extra",
        KeyKind::ChunkVersion => "chunk_version",
        KeyKind::Entities => "entities",
        KeyKind::Other => "other",
        KeyKind::PendingTicks => "pending_ticks",
        KeyKind::PlayerData => "player_data",
        KeyKind::Subchunks => "subchunks",
    }
}

/// The kind of a key.
pub fn kind_of_key(key: &[u8]) -> (r: KeyKind)
    ensures
        r == key_kind(key@),
{
    if key.len() >= 9 {
        match key[8] {
            0x2f => KeyKind::Subchunks,
            0x31 => KeyKind::BlockEntities,
            0x32 => KeyKind::Entities,
            0x33 => KeyKind::PendingTicks,
            0x34 => KeyKind::BlockExtra,
            0x36 => KeyKind::BiomeState,
            0x38 => KeyKind::ChunkVersion,
            _ => KeyKind::Other,
        }
    } else if key_starts_with(key, "~") || key_starts_with(key, "player_") {
        KeyKind::PlayerData
    } else {
        KeyKind::Other
    }
}

/// How many of the first `n` entries are of a kind.
pub open spec fn kind_count(entries: Seq<EntryView>, n: nat, kind: KeyKind) -> nat
    decreases n,
{
    if n == 0 {
        0
    } else if key_kind(entries[n - 1].key) == kind {
        kind_count(entries, (n - 1) as nat, kind) + 1
    } else {
        kind_count(entries, (n - 1) as nat, kind)
    }
}

/// The number of entries that are looked at.
pub const SUMMARY_LIMIT: usize = 200_000;

/// The number of entries that are counted by their kind.
pub open spec fn counted(entries: Seq<EntryView>) -> nat {
    if entries.len() <= SUMMARY_LIMIT {
        entries.len()
    } else {
        SUMMARY_LIMIT as nat
    }
}

/// The number of entries that is shown. It is one over the limit where there are more.
pub open spec fn shown_total(entries: Seq<EntryView>) -> int {
    if entries.len() <= SUMMARY_LIMIT {
        entries.len() as int
    } else {
        SUMMARY_LIMIT + 1
    }
}

/// The line of a kind, where there are keys of it.
pub open spec fn kind_line(entries: Seq<EntryView>, kind: KeyKind) -> Seq<LineView> {
    let n = kind_count(entries, counted(entries), kind);
    if n > 0 {
        seq![
            seq![
                words("    "@),
                words(kind_label(kind)),
                words(": "@),
                PieceView::Int(n as int),
            ],
        ]
    } else {
        Seq::empty()
    }
}

/// The lines of a summary.
pub open spec fn summary_lines(entries: Seq<EntryView>) -> Seq<LineView> {
    seq![
        seq![words("  DB 键: "@), PieceView::Int(shown_total(entries)), words(" 条"@)],
    ] + kind_line(entries, KeyKind::BiomeState) + kind_line(entries, KeyKind::BlockEntities)
        + kind_line(entries, KeyKind::BlockExtra) + kind_line(entries, KeyKind::ChunkVersion)
        + kind_line(entries, KeyKind::Entities) + kind_line(entries, KeyKind::Other) + kind_line(
        entries,
        KeyKind::PendingTicks,
    ) + kind_line(entries, KeyKind::PlayerData) + kind_line(entries, KeyKind::Subchunks)
}

fn count_kind(entries: &Vec<DbEntry>, n: usize, kind: KeyKind) -> (r: usize)
    requires
        n <= entries@.len(),
    ensures
        r == kind_count(entry_views(entries@), n as nat, kind),
        r <= n,
{
    let mut count: usize = 0;
    for i in 0..n
        invariant
            n <= entries@.len(),
            count <= i,
            count == kind_count(entry_views(entries@), i as nat, kind),
    {
        assert(entry_views(entries@)[i as int].key == entries@[i as int].key@);
        if kind_of_key(entries[i].key.as_slice()) == kind {
            count += 1;
        }
    }
    count
}

fn push_kind(out: &mut Vec<Line>, entries: &Vec<DbEntry>, kind: KeyKind)
    ensures
        line_views(final(out)@) == line_views(old(out)@) + kind_line(
            entry_views(entries@),
            kind,
        ),
{
    let ghost before = line_views(out@);
    let n: usize = if entries.len() <= SUMMARY_LIMIT {
        entries.len()
    } else {
        SUMMARY_LIMIT
    };
    let count: usize = count_kind(entries, n, kind);
    assert(entry_views(entries@).len() == entries@.len());
    if count > 0 {
        let line = Line::new().text("    ").text(kind_name(kind)).text(": ").count(count);
        assert(line@ =~= kind_line(entry_views(entries@), kind)[0]);
        push_line(out, line);
    }
    assert(line_views(out@) =~= before + kind_line(entry_views(entries@), kind));
}

/// How many keys of each kind there are, as lines.
pub fn db_summary(entries: &Vec<DbEntry>) -> (r: Vec<Line>)
    ensures
        line_views(r@) == summary_lines(entry_views(entries@)),
{
    let mut out: Vec<Line> = Vec::new();
    let total: usize = if entries.len() <= SUMMARY_LIMIT {
        entries.len()
    } else {
        SUMMARY_LIMIT + 1
    };
    let title = Line::new().text("  DB 键: ").count(total).text(" 条");
    assert(title@ =~= seq![
        words("  DB 键: "@),
        PieceView::Int(shown_total(entry_views(entries@))),
        words(" 条"@),
    ]);
    push_line(&mut out, title);
    assert(line_views(out@) =~= seq![title@]);
    push_kind(&mut out, entries, KeyKind::BiomeState);
    push_kind(&mut out, entries, KeyKind::BlockEntities);
    push_kind(&mut out, entries, KeyKind::BlockExtra);
    push_kind(&mut out, entries, KeyKind::ChunkVersion);
    push_kind(&mut out, entries, KeyKind::Entities);
    push_kind(&mut out, entries, KeyKind::Other);
    push_kind(&mut out, entries, KeyKind::PendingTicks);
    push_kind(&mut out, entries, KeyKind::PlayerData);
    push_kind(&mut out, entries, KeyKind::Subchunks);
    out
}

/// The sum over all kinds of how many entries are of that kind.
pub open spec fn all_kinds(entries: Seq<EntryView>, n: nat) -> nat {
    kind_count(entries, n, KeyKind::BiomeState) + kind_count(entries, n, KeyKind::BlockEntities)
        + kind_count(entries, n, KeyKind::BlockExtra) + kind_count(
        entries,
        n,
        KeyKind::ChunkVersion,
    ) + kind_count(entries, n, KeyKind::Entities) + kind_count(entries, n, KeyKind::Other)
        + kind_count(entries, n, KeyKind::PendingTicks) + kind_count(
        entries,
        n,
        KeyKind::PlayerData,
    ) + kind_count(entries, n, KeyKind::Subchunks)
}

/// Every key that is counted is of exactly one kind.
pub proof fn law_kinds_add_up(entries: Seq<EntryView>, n: nat)
    ensures
        all_kinds(entries, n) == n,
    decreases n,
{
    if n > 0 {
        law_kinds_add_up(entries, (n - 1) as nat);
    }
}

/// The data of a chunk counts by the tag behind its coordinates, a shorter key that begins with `~`
/// or `player_` counts as player data, and any other key as something else.
pub proof fn law_key_kinds(cx: i32, cz: i32, cy: i8, tag: u8, rest: Seq<u8>)
    ensures
        kind_label(key_kind(subchunk_key_bytes(cx, cz, cy))) == "subchunks"@,
        kind_label(key_kind(block_entity_key_bytes(cx, cz))) == "block_entities"@,
        ({
            let label = kind_label(key_kind(chunk_prefix(cx, cz) + seq![tag] + rest));
            &&& tag == 0x2f ==> label == "subchunks"@
            &&& tag == 0x31 ==> label == "block_entities"@
            &&& tag == 0x32 ==> label == "entities"@
            &&& tag == 0x33 ==> label == "pending_ticks"@
            &&& tag == 0x34 ==> label == "block_extra"@
            &&& tag == 0x36 ==> label == "biome_state"@
            &&& tag == 0x38 ==> label == "chunk_version"@
            &&& !(tag == 0x2f || 0x31 <= tag <= 0x34 || tag == 0x36 || tag == 0x38) ==> label
                == "other"@
        }),
        rest.len() < 9 ==> {
            let label = kind_label(key_kind(rest));
            if key_starts(rest, "~"@) || key_starts(rest, "player_"@) {
                label == "player_data"@
            } else {
                label == "other"@
            }
        },
{
    let key = chunk_prefix(cx, cz) + seq![tag] + rest;
    assert(chunk_prefix(cx, cz).len() == 8);
    assert(key[8] == tag);
    assert(subchunk_key_bytes(cx, cz, cy)[8] == 0x2f);
    assert(block_entity_key_bytes(cx, cz)[8] == 0x31);
}

/// A kind counts as many keys as it has among the first 200000.
pub proof fn law_kind_count(entries: Seq<EntryView>, kind: KeyKind) -> (places: Seq<int>)
    ensures
        ({
            let n = if entries.len() < 200000 { entries.len() as int } else { 200000 };
            &&& selects(places, n, |i: int| key_kind(entries[i].key) == kind)
            &&& places.len() == kind_count(entries, counted(entries), kind)
        }),
{
    lemma_kind_places(entries, kind, counted(entries))
}

proof fn lemma_kind_places(entries: Seq<EntryView>, kind: KeyKind, n: nat) -> (places: Seq<int>)
    requires
        n <= entries.len(),
    ensures
        selects(places, n as int, |i: int| key_kind(entries[i].key) == kind),
        places.len() == kind_count(entries, n, kind),
    decreases n,
{
    let wanted = |i: int| key_kind(entries[i].key) == kind;
    if n == 0 {
        lemma_select_none(wanted);
        Seq::empty()
    } else {
        let m = n - 1;
        let before = lemma_kind_places(entries, kind, m as nat);
        lemma_select_next(before, m, wanted);
        if wanted(m) {
            before.push(m)
        } else {
            before
        }
    }
}

/// A summary begins with the number of keys, and where all of them were counted that is how many
/// there are.
pub proof fn law_summary_total(entries: Seq<EntryView>)
    ensures
        summary_lines(entries).len() >= 1,
        summary_lines(entries)[0].len() == 3,
        entries.len() <= 200000 ==> summary_lines(entries)[0][1] == PieceView::Int(
            entries.len() as int,
        ),
        entries.len() > 200000 ==> summary_lines(entries)[0][1] == PieceView::Int(200001),
{
}

/// A kind with keys has a line with its label and their number, one without has none.
pub proof fn law_kind_line(entries: Seq<EntryView>, kind: KeyKind)
    ensures
        ({
            let n = kind_count(entries, counted(entries), kind);
            let lines = kind_line(entries, kind);
            if n == 0 {
                lines.len() == 0
            } else {
                lines.len() == 1 && lines[0][1] == words(kind_label(kind)) && lines[0][3]
                    == PieceView::Int(n as int)
            }
        }),
{
}

} // verus!
