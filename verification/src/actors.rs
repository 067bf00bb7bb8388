//! Actors and players of a world: listing and wiping.

use crate::bytes::{copy_bytes, has_prefix};
use crate::codec::{decode_one, decodes, is_decoder, Decoded};
use crate::encoding::{hex_encode, hex_text};
use crate::keys::{identity_key, is_identity_key, key_starts, lemma_server_prefix};
use crate::lines::{line_views, push_line, words, Line, LineView, PieceView};
use crate::nbt::{lookup_text, CompoundTag, CompoundView};
use crate::ranking::{is_ranking, rank_names, tally_views, Tally, TallyView};
use crate::selection::{lemma_select_next, lemma_select_none, selects};
use crate::store::{
    entry_views, lemma_filter_exact, lemma_filter_step, with_prefix, DbEntry, EntryView, Snapshot,
};
use crate::text::text_is;
use vstd::prelude::*;
use vstd::string::StringExecFns;
use vstd::utf8::encode_utf8;

verus! {

/// The entries of actors.
pub open spec fn actor_entries(entries: Seq<EntryView>) -> Seq<EntryView> {
    with_prefix(entries, encode_utf8("actorprefix"@))
}

/// The entries of actors.
pub fn scan_actor_keys(db: &Snapshot) -> (r: Vec<DbEntry>)
    requires
        db.wf(),
    ensures
        entry_views(r@) == actor_entries(db@),
{
    db.scan_prefix("actorprefix".as_bytes())
}

/// The entries of identities: `player_`, but not `player_server_`.
pub open spec fn identity_entries(entries: Seq<EntryView>) -> Seq<EntryView> {
    with_prefix(entries, encode_utf8("player_"@)).filter(
        |e: EntryView| is_identity_key(e.key),
    )
}

/// The entries of players, full data on a server aside, kind by kind.
pub open spec fn grouped_players(entries: Seq<EntryView>) -> Seq<EntryView> {
    with_prefix(entries, encode_utf8("~local_player"@)) + with_prefix(
        entries,
        encode_utf8("~player_"@),
    ) + identity_entries(entries)
}

/// The entries of all player data, kind by kind.
pub open spec fn all_grouped_players(entries: Seq<EntryView>) -> Seq<EntryView> {
    grouped_players(entries) + with_prefix(entries, encode_utf8("player_server_"@))
}

fn keep_identities(entries: Vec<DbEntry>) -> (r: Vec<DbEntry>)
    ensures
        entry_views(r@) == entry_views(entries@).filter(|e: EntryView| is_identity_key(e.key)),
{
    let ghost all = entry_views(entries@);
    let ghost source = entries@;
    let ghost keep = |e: EntryView| is_identity_key(e.key);
    let mut out: Vec<DbEntry> = Vec::new();
    assert(all.take(0).filter(keep) =~= Seq::empty()) by {
        reveal(Seq::filter);
    }
    assert(entry_views(out@) =~= all.take(0).filter(keep));
    for e in it: entries.into_iter()
        invariant
            it.seq() == source,
            all == entry_views(source),
            keep == (|e: EntryView| is_identity_key(e.key)),
            entry_views(out@) == all.take(it.index() as int).filter(keep),
    {
        let ghost i = it.index() as int;
        assert(all[i] == e@);
        proof {
            lemma_filter_step(all, keep, i);
        }
        if identity_key(e.key.as_slice()) {
            let ghost before = entry_views(out@);
            out.push(e);
            assert(entry_views(out@) =~= before.push(all[i]));
        }
    }
    assert(all.take(all.len() as int) =~= all);
    out
}

fn append_entries(out: &mut Vec<DbEntry>, more: Vec<DbEntry>)
    ensures
        entry_views(final(out)@) == entry_views(old(out)@) + entry_views(more@),
{
    let ghost before = entry_views(out@);
    let mut more = more;
    let ghost added = entry_views(more@);
    out.append(&mut more);
    assert(entry_views(out@) =~= before + added);
}

/// The entries of players, full data on a server aside, kind by kind.
pub fn scan_grouped_players(db: &Snapshot) -> (r: Vec<DbEntry>)
    requires
        db.wf(),
    ensures
        entry_views(r@) == grouped_players(db@),
{
    let mut out = db.scan_prefix("~local_player".as_bytes());
    append_entries(&mut out, db.scan_prefix("~player_".as_bytes()));
    append_entries(&mut out, keep_identities(db.scan_prefix("player_".as_bytes())));
    out
}

/// The entries of all player data, kind by kind.
pub fn scan_all_grouped_players(db: &Snapshot) -> (r: Vec<DbEntry>)
    requires
        db.wf(),
    ensures
        entry_views(r@) == all_grouped_players(db@),
{
    let mut out = scan_grouped_players(db);
    append_entries(&mut out, db.scan_prefix("player_server_".as_bytes()));
    out
}

/// What decoded compounds hold.
pub open spec fn decoded_tags(tags: Seq<Option<CompoundTag>>) -> Seq<Option<CompoundView>> {
    tags.map_values(
        |t: Option<CompoundTag>|
            match t {
                Some(c) => Some(c@),
                None => None,
            },
    )
}

/// Whether compounds are what a decoder returns on the values of entries, one for one.
pub open spec fn decodes_all<F: Fn(&[u8]) -> Option<Decoded>>(
    decode: F,
    entries: Seq<EntryView>,
    tags: Seq<Option<CompoundView>>,
) -> bool {
    &&& tags.len() == entries.len()
    &&& forall|i: int|
        0 <= i < tags.len() ==> decodes(decode, entries[i].value, #[trigger] tags[i])
}

/// Decodes the values of entries, one for one.
pub fn decode_values<F: Fn(&[u8]) -> Option<Decoded>>(entries: &Vec<DbEntry>, decode: &F) -> (r:
    Vec<Option<CompoundTag>>)
    requires
        is_decoder(*decode),
    ensures
        decodes_all(*decode, entry_views(entries@), decoded_tags(r@)),
{
    let ghost views = entry_views(entries@);
    let mut out: Vec<Option<CompoundTag>> = Vec::new();
    for i in 0..entries.len()
        invariant
            is_decoder(*decode),
            views == entry_views(entries@),
            out@.len() == i,
            forall|k: int|
                0 <= k < i ==> decodes(*decode, views[k].value, #[trigger] decoded_tags(out@)[k]),
    {
        let ghost before = decoded_tags(out@);
        let tag = decode_one(decode, entries[i].value.as_slice());
        out.push(tag);
        assert(decoded_tags(out@) =~= before.push(decoded_tags(out@)[i as int]));
    }
    out
}

/// The type of an actor, under one of two names.
pub open spec fn actor_type(tag: Option<CompoundView>) -> Seq<char> {
    match tag {
        Some(c) => match lookup_text(c, "identifier"@) {
            Some(s) => s,
            None => match lookup_text(c, "id"@) {
                Some(s) => s,
                None => "unknown"@,
            },
        },
        None => "unknown"@,
    }
}

/// Whether an actor is a player.
pub open spec fn is_player_actor(tag: Option<CompoundView>) -> bool {
    match tag {
        Some(c) => lookup_text(c, "identifier"@) == Some("minecraft:player"@),
        None => false,
    }
}

/// The type of an actor.
pub fn type_of_actor(tag: &Option<CompoundTag>) -> (r: String)
    ensures
        r@ == actor_type(
            match *tag {
                Some(c) => Some(c@),
                None => None,
            },
        ),
{
    match tag {
        Some(c) => match c.get_text("identifier") {
            Some(s) => s.to_owned(),
            None => match c.get_text("id") {
                Some(s) => s.to_owned(),
                None => "unknown".to_owned(),
            },
        },
        None => "unknown".to_owned(),
    }
}

/// Whether an actor is a player.
pub fn player_actor(tag: &Option<CompoundTag>) -> (r: bool)
    ensures
        r == is_player_actor(
            match *tag {
                Some(c) => Some(c@),
                None => None,
            },
        ),
{
    match tag {
        Some(c) => match c.get_text("identifier") {
            Some(s) => text_is(s, "minecraft:player"),
            None => false,
        },
        None => false,
    }
}

/// The types of actors.
pub open spec fn actor_types(tags: Seq<Option<CompoundView>>) -> Seq<Seq<char>> {
    tags.map_values(|t: Option<CompoundView>| actor_type(t))
}

/// The keys of the actors that are players by their type.
pub open spec fn player_actor_keys(
    actors: Seq<EntryView>,
    tags: Seq<Option<CompoundView>>,
) -> Seq<Seq<u8>>
    decreases actors.len(),
{
    if actors.len() == 0 || actors.len() != tags.len() {
        Seq::empty()
    } else {
        let rest = player_actor_keys(actors.drop_last(), tags.drop_last());
        if actor_type(tags.last()) == "minecraft:player"@ {
            rest.push(actors.last().key)
        } else {
            rest
        }
    }
}

/// Bytes in hexadecimal with a blank between each two.
pub open spec fn spaced_hex(bytes: Seq<u8>) -> Seq<char>
    decreases bytes.len(),
{
    if bytes.len() == 0 {
        Seq::empty()
    } else if bytes.len() == 1 {
        hex_text(bytes)
    } else {
        spaced_hex(bytes.drop_last()) + " "@ + hex_text(seq![bytes.last()])
    }
}

fn spaced_hex_of(bytes: &[u8]) -> (r: String)
    ensures
        r@ == spaced_hex(bytes@),
{
    let mut out = String::new();
    for i in 0..bytes.len()
        invariant
            out@ == spaced_hex(bytes@.take(i as int)),
    {
        assert(bytes@.take(i + 1).drop_last() =~= bytes@.take(i as int));
        let mut one: Vec<u8> = Vec::new();
        one.push(bytes[i]);
        assert(one@ =~= seq![bytes@[i as int]]);
        let hex = hex_encode(one.as_slice());
        if i > 0 {
            out.append(" ");
        } else {
            assert(bytes@.take(1) =~= seq![bytes@[0]]);
        }
        out.append(hex.as_str());
        assert(out@ =~= spaced_hex(bytes@.take(i + 1)));
    }
    assert(bytes@.take(bytes@.len() as int) =~= bytes@);
    out
}

/// The line of one type of actor.
pub open spec fn type_line(t: TallyView) -> LineView {
    seq![
        words("    "@),
        words(t.name),
        words(": "@),
        PieceView::Int(t.count as int),
        words(
            if t.name == "minecraft:player"@ {
                " ←"@
            } else {
                ""@
            },
        ),
    ]
}

/// The lines of the first types of a ranking, so many at most.
pub open spec fn type_lines(ranking: Seq<TallyView>, most: int) -> Seq<LineView> {
    Seq::new(
        if ranking.len() < most {
            ranking.len()
        } else {
            most as nat
        },
        |i: int| type_line(ranking[i]),
    )
}

/// The lines of the actors that are players: twenty keys, and how many are not shown.
pub open spec fn player_key_lines(keys: Seq<Seq<u8>>) -> Seq<LineView> {
    if keys.len() == 0 {
        Seq::empty()
    } else {
        seq![
            seq![words("\n  玩家实体 ("@), PieceView::Int(keys.len() as int), words("):"@)],
        ] + Seq::new(
            if keys.len() < 20 {
                keys.len()
            } else {
                20
            },
            |i: int| player_key_line(keys[i], i),
        ) + if keys.len() > 20 {
            seq![
                seq![words("    ... 还有 "@), PieceView::Int(keys.len() - 20), words(" 个"@)],
            ]
        } else {
            Seq::empty()
        }
    }
}

/// The line of one actor that is a player.
pub open spec fn player_key_line(key: Seq<u8>, i: int) -> LineView {
    seq![
        words("    ["@),
        PieceView::Int(i + 1),
        words("] key="@),
        words(spaced_hex(key)),
    ]
}

/// The lines of a list of actors: thirty types in the order of a ranking, then the players.
pub open spec fn actor_lines(
    actors: Seq<EntryView>,
    tags: Seq<Option<CompoundView>>,
    ranking: Seq<TallyView>,
) -> Seq<LineView> {
    seq![seq![words("\n═══ 实体列表 ("@), PieceView::Int(actors.len() as int), words(" 个) ═══"@)]]
        + if actors.len() == 0 {
        seq![seq![words("  未找到实体"@)]]
    } else {
        seq![seq![words("\n  实体类型分布 (前 30):"@)]] + type_lines(ranking, 30)
            + player_key_lines(player_actor_keys(actors, tags)) + seq![
            seq![words("\n  使用 --player <key> 查看玩家数据"@)],
        ]
    }
}

/// Keys by their bytes.
pub open spec fn key_views(keys: Seq<Vec<u8>>) -> Seq<Seq<u8>> {
    keys.map_values(|k: Vec<u8>| k@)
}

fn types_of(tags: &Vec<Option<CompoundTag>>) -> (r: Vec<String>)
    ensures
        r@.map_values(|s: String| s@) == actor_types(decoded_tags(tags@)),
{
    let mut out: Vec<String> = Vec::new();
    for i in 0..tags.len()
        invariant
            out@.len() == i,
            forall|k: int|
                0 <= k < i ==> (#[trigger] out@[k])@ == actor_type(decoded_tags(tags@)[k]),
    {
        out.push(type_of_actor(&tags[i]));
    }
    assert(out@.map_values(|s: String| s@) =~= actor_types(decoded_tags(tags@)));
    out
}

fn keys_of_players(actors: &Vec<DbEntry>, types: &Vec<String>, tags: &Vec<Option<CompoundTag>>)
    -> (r: Vec<Vec<u8>>)
    requires
        actors@.len() == tags@.len(),
        types@.map_values(|s: String| s@) == actor_types(decoded_tags(tags@)),
    ensures
        key_views(r@) == player_actor_keys(entry_views(actors@), decoded_tags(tags@)),
{
    let ghost views = entry_views(actors@);
    let ghost ts = decoded_tags(tags@);
    let ghost names = types@.map_values(|s: String| s@);
    assert(names.len() == types@.len());
    let mut out: Vec<Vec<u8>> = Vec::new();
    assert(key_views(out@) =~= player_actor_keys(views.take(0), ts.take(0)));
    for i in 0..actors.len()
        invariant
            views == entry_views(actors@),
            ts == decoded_tags(tags@),
            names == types@.map_values(|s: String| s@),
            names == actor_types(ts),
            actors@.len() == tags@.len() == types@.len(),
            key_views(out@) == player_actor_keys(views.take(i as int), ts.take(i as int)),
    {
        assert(views.take(i + 1).drop_last() =~= views.take(i as int));
        assert(ts.take(i + 1).drop_last() =~= ts.take(i as int));
        assert(names[i as int] == types@[i as int]@);
        if text_is(types[i].as_str(), "minecraft:player") {
            let ghost before = key_views(out@);
            out.push(copy_bytes(actors[i].key.as_slice()));
            assert(key_views(out@) =~= before.push(views[i as int].key));
        }
    }
    assert(views.take(actors@.len() as int) =~= views);
    assert(ts.take(actors@.len() as int) =~= ts);
    out
}

fn push_types(out: &mut Vec<Line>, ranking: &Vec<Tally>)
    ensures
        line_views(final(out)@) == line_views(old(out)@) + type_lines(tally_views(ranking@), 30),
{
    let ghost before = line_views(out@);
    let ghost r = tally_views(ranking@);
    let shown: usize = if ranking.len() < 30 {
        ranking.len()
    } else {
        30
    };
    for i in 0..shown
        invariant
            r == tally_views(ranking@),
            shown <= ranking@.len(),
            line_views(out@).len() == before.len() + i,
            forall|k: int| 0 <= k < before.len() ==> line_views(out@)[k] == #[trigger] before[k],
            forall|k: int|
                0 <= k < i ==> line_views(out@)[before.len() + k] == type_line(#[trigger] r[k]),
    {
        let t = &ranking[i];
        assert(r[i as int] == t@);
        let mark: &str = if text_is(t.name.as_str(), "minecraft:player") {
            " ←"
        } else {
            ""
        };
        let line = Line::new().text("    ").text(t.name.as_str()).text(": ").count(t.count).text(
            mark,
        );
        assert(line@ =~= type_line(r[i as int]));
        push_line(out, line);
    }
    assert(line_views(out@) =~= before + type_lines(r, 30));
}

fn push_player_keys(out: &mut Vec<Line>, keys: &Vec<Vec<u8>>)
    ensures
        line_views(final(out)@) == line_views(old(out)@) + player_key_lines(key_views(keys@)),
{
    let ghost before = line_views(out@);
    let ghost ks = key_views(keys@);
    if keys.len() > 0 {
        let title = Line::new().text("\n  玩家实体 (").count(keys.len()).text("):");
        assert(title@ =~= seq![
            words("\n  玩家实体 ("@),
            PieceView::Int(ks.len() as int),
            words("):"@),
        ]);
        push_line(out, title);
        let ghost start = line_views(out@);
        let shown: usize = if keys.len() < 20 {
            keys.len()
        } else {
            20
        };
        for i in 0..shown
            invariant
                ks == key_views(keys@),
                shown <= keys@.len(),
                line_views(out@).len() == start.len() + i,
                forall|k: int| 0 <= k < start.len() ==> line_views(out@)[k] == #[trigger] start[k],
                forall|k: int|
                    0 <= k < i ==> line_views(out@)[start.len() + k] == player_key_line(
                        #[trigger] ks[k],
                        k,
                    ),
        {
            assert(ks[i as int] == keys@[i as int]@);
            let hex = spaced_hex_of(keys[i].as_slice());
            let line = Line::new().text("    [").count(i + 1).text("] key=").text(hex.as_str());
            assert(line@ =~= player_key_line(ks[i as int], i as int));
            push_line(out, line);
        }
        let ghost shown_lines = Seq::new(shown as nat, |i: int| player_key_line(ks[i], i));
        assert(line_views(out@) =~= start + shown_lines);
        assert(line_views(out@) =~= before + seq![title@] + shown_lines);
        if keys.len() > 20 {
            let more = Line::new().text("    ... 还有 ").count(keys.len() - 20).text(" 个");
            assert(more@ =~= seq![
                words("    ... 还有 "@),
                PieceView::Int(ks.len() - 20),
                words(" 个"@),
            ]);
            push_line(out, more);
        }
    }
    assert(line_views(out@) =~= before + player_key_lines(ks));
}

/// The actors of a world as lines, given their decoded data.
pub fn list_actors(actors: &Vec<DbEntry>, tags: &Vec<Option<CompoundTag>>) -> (r: Vec<Line>)
    requires
        actors@.len() == tags@.len(),
    ensures
        exists|ranking: Seq<TallyView>|
            #[trigger] is_ranking(actor_types(decoded_tags(tags@)), ranking) && line_views(r@)
                == actor_lines(entry_views(actors@), decoded_tags(tags@), ranking),
{
    let mut out: Vec<Line> = Vec::new();
    let title = Line::new().text("\n═══ 实体列表 (").count(actors.len()).text(" 个) ═══");
    assert(title@ =~= seq![
        words("\n═══ 实体列表 ("@),
        PieceView::Int(actors@.len() as int),
        words(" 个) ═══"@),
    ]);
    push_line(&mut out, title);
    let types = types_of(tags);
    let ranking = rank_names(&types);
    if actors.len() == 0 {
        let line = Line::new().text("  未找到实体");
        assert(line@ =~= seq![words("  未找到实体"@)]);
        push_line(&mut out, line);
    } else {
        let head = Line::new().text("\n  实体类型分布 (前 30):");
        assert(head@ =~= seq![words("\n  实体类型分布 (前 30):"@)]);
        push_line(&mut out, head);
        push_types(&mut out, &ranking);
        let keys = keys_of_players(actors, &types, tags);
        push_player_keys(&mut out, &keys);
        let foot = Line::new().text("\n  使用 --player <key> 查看玩家数据");
        assert(foot@ =~= seq![words("\n  使用 --player <key> 查看玩家数据"@)]);
        push_line(&mut out, foot);
    }
    assert(line_views(out@) =~= actor_lines(
        entry_views(actors@),
        decoded_tags(tags@),
        tally_views(ranking@),
    ));
    out
}

/// The keys of the actors that a wipe takes: all of them, or those that are no players.
pub open spec fn wiped_actors(
    actors: Seq<EntryView>,
    tags: Seq<Option<CompoundView>>,
    include_players: bool,
) -> Seq<Seq<u8>>
    decreases actors.len(),
{
    if actors.len() == 0 || actors.len() != tags.len() {
        Seq::empty()
    } else {
        let rest = wiped_actors(actors.drop_last(), tags.drop_last(), include_players);
        if include_players || !is_player_actor(tags.last()) {
            rest.push(actors.last().key)
        } else {
            rest
        }
    }
}

/// The keys of entries.
pub open spec fn keys_of(entries: Seq<EntryView>) -> Seq<Seq<u8>> {
    entries.map_values(|e: EntryView| e.key)
}

/// The keys that a wipe takes: those of actors and, where players are included, of all player
/// data.
pub open spec fn wiped_keys(
    entries: Seq<EntryView>,
    tags: Seq<Option<CompoundView>>,
    include_players: bool,
) -> Seq<Seq<u8>> {
    wiped_actors(actor_entries(entries), tags, include_players) + if include_players {
        keys_of(all_grouped_players(entries))
    } else {
        Seq::empty()
    }
}

/// The keys that a wipe takes, given the decoded data of the actors.
pub fn wipe_keys(
    db: &Snapshot,
    actors: &Vec<DbEntry>,
    tags: &Vec<Option<CompoundTag>>,
    include_players: bool,
) -> (r: Vec<Vec<u8>>)
    requires
        db.wf(),
        entry_views(actors@) == actor_entries(db@),
        actors@.len() == tags@.len(),
    ensures
        key_views(r@) == wiped_keys(db@, decoded_tags(tags@), include_players),
{
    let ghost views = entry_views(actors@);
    let ghost ts = decoded_tags(tags@);
    let mut out: Vec<Vec<u8>> = Vec::new();
    assert(key_views(out@) =~= wiped_actors(views.take(0), ts.take(0), include_players));
    for i in 0..actors.len()
        invariant
            views == entry_views(actors@),
            ts == decoded_tags(tags@),
            actors@.len() == tags@.len(),
            key_views(out@) == wiped_actors(
                views.take(i as int),
                ts.take(i as int),
                include_players,
            ),
    {
        assert(views.take(i + 1).drop_last() =~= views.take(i as int));
        assert(ts.take(i + 1).drop_last() =~= ts.take(i as int));
        if include_players || !player_actor(&tags[i]) {
            let ghost before = key_views(out@);
            out.push(copy_bytes(actors[i].key.as_slice()));
            assert(key_views(out@) =~= before.push(views[i as int].key));
        }
    }
    assert(views.take(actors@.len() as int) =~= views);
    assert(ts.take(actors@.len() as int) =~= ts);
    if include_players {
        let players = scan_all_grouped_players(db);
        let ghost all = entry_views(players@);
        let ghost front = key_views(out@);
        assert(key_views(out@) =~= front + keys_of(all.take(0)));
        for i in 0..players.len()
            invariant
                all == entry_views(players@),
                key_views(out@) == front + keys_of(all.take(i as int)),
        {
            let ghost before = key_views(out@);
            out.push(copy_bytes(players[i].key.as_slice()));
            assert(key_views(out@) =~= before.push(all[i as int].key));
            assert(key_views(out@) =~= front + keys_of(all.take(i + 1)));
        }
        assert(all.take(players@.len() as int) =~= all);
    }
    assert(key_views(out@) =~= wiped_keys(db@, ts, include_players));
    out
}

/// What a wipe takes: decodes the actors and chooses the keys.
pub fn plan_wipe<F: Fn(&[u8]) -> Option<Decoded>>(
    db: &Snapshot,
    include_players: bool,
    decode: &F,
) -> (r: Vec<Vec<u8>>)
    requires
        db.wf(),
        is_decoder(*decode),
    ensures
        exists|tags: Seq<Option<CompoundView>>|
            #[trigger] decodes_all(*decode, actor_entries(db@), tags) && key_views(r@)
                == wiped_keys(db@, tags, include_players),
{
    let actors = scan_actor_keys(db);
    let tags = decode_values(&actors, decode);
    assert(actors@.len() == entry_views(actors@).len());
    assert(tags@.len() == decoded_tags(tags@).len());
    wipe_keys(db, &actors, &tags, include_players)
}

proof fn lemma_wiped_actors(
    actors: Seq<EntryView>,
    tags: Seq<Option<CompoundView>>,
    include_players: bool,
    key: Seq<u8>,
)
    requires
        actors.len() == tags.len(),
    ensures
        wiped_actors(actors, tags, include_players).contains(key) <==> exists|i: int|
            0 <= i < actors.len() && (#[trigger] actors[i]).key == key && (include_players
                || !is_player_actor(tags[i])),
    decreases actors.len(),
{
    let found = wiped_actors(actors, tags, include_players);
    if actors.len() > 0 {
        let a = actors.drop_last();
        let t = tags.drop_last();
        let rest = wiped_actors(a, t, include_players);
        lemma_wiped_actors(a, t, include_players, key);
        let n = actors.len() - 1;
        if found.contains(key) {
            let j = choose|j: int| 0 <= j < found.len() && found[j] == key;
            if j < rest.len() {
                assert(rest[j] == key);
                assert(rest.contains(key));
                let i = choose|i: int|
                    0 <= i < a.len() && (#[trigger] a[i]).key == key && (include_players
                        || !is_player_actor(t[i]));
                assert(actors[i].key == key);
            } else {
                assert(actors[n].key == key);
            }
        }
        if exists|i: int|
            0 <= i < actors.len() && (#[trigger] actors[i]).key == key && (include_players
                || !is_player_actor(tags[i])) {
            let i = choose|i: int|
                0 <= i < actors.len() && (#[trigger] actors[i]).key == key && (include_players
                    || !is_player_actor(tags[i]));
            if i < n {
                assert(a[i].key == key);
                let j = choose|j: int| 0 <= j < rest.len() && rest[j] == key;
                assert(found[j] == key);
            } else {
                assert(found[rest.len() as int] == key);
            }
        }
    }
}

/// A wipe that spares players takes the actors that are no players, and nothing else.
pub proof fn law_wipe_spares_players(
    entries: Seq<EntryView>,
    tags: Seq<Option<CompoundView>>,
    key: Seq<u8>,
)
    requires
        tags.len() == actor_entries(entries).len(),
    ensures
        wiped_keys(entries, tags, false).contains(key) <==> exists|i: int|
            0 <= i < tags.len() && (#[trigger] actor_entries(entries)[i]).key == key
                && !is_player_actor(tags[i]),
        wiped_keys(entries, tags, false).contains(key) ==> key_starts(key, "actorprefix"@),
{
    let actors = actor_entries(entries);
    lemma_wiped_actors(actors, tags, false, key);
    assert(wiped_keys(entries, tags, false) =~= wiped_actors(actors, tags, false));
    if exists|i: int|
        0 <= i < tags.len() && (#[trigger] actors[i]).key == key && !is_player_actor(tags[i]) {
        let i = choose|i: int|
            0 <= i < tags.len() && (#[trigger] actors[i]).key == key && !is_player_actor(tags[i]);
        entries.lemma_filter_pred(
            |e: EntryView| has_prefix(e.key, encode_utf8("actorprefix"@)),
            i,
        );
    }
}

proof fn lemma_prefixed_is_found(entries: Seq<EntryView>, prefix: Seq<u8>, e: EntryView)
    requires
        entries.contains(e),
        has_prefix(e.key, prefix),
    ensures
        with_prefix(entries, prefix).contains(e),
{
    let f = |x: EntryView| has_prefix(x.key, prefix);
    let i = choose|i: int| 0 <= i < entries.len() && entries[i] == e;
    entries.lemma_filter_contains(f, i);
}

/// A wipe that includes players takes every actor and all player data.
pub proof fn law_wipe_takes_all(
    entries: Seq<EntryView>,
    tags: Seq<Option<CompoundView>>,
    e: EntryView,
)
    requires
        tags.len() == actor_entries(entries).len(),
        entries.contains(e),
        key_starts(e.key, "actorprefix"@) || key_starts(e.key, "~local_player"@) || key_starts(
            e.key,
            "~player_"@,
        ) || key_starts(e.key, "player_"@),
    ensures
        wiped_keys(entries, tags, true).contains(e.key),
{
    let all = wiped_keys(entries, tags, true);
    let actors = actor_entries(entries);
    let front = wiped_actors(actors, tags, true);
    if key_starts(e.key, "actorprefix"@) {
        lemma_prefixed_is_found(entries, encode_utf8("actorprefix"@), e);
        let i = choose|i: int| 0 <= i < actors.len() && actors[i] == e;
        assert(actors[i].key == e.key);
        lemma_wiped_actors(actors, tags, true, e.key);
        let j = choose|j: int| 0 <= j < front.len() && front[j] == e.key;
        assert(all[j] == e.key);
    } else {
        let local = with_prefix(entries, encode_utf8("~local_player"@));
        let other = with_prefix(entries, encode_utf8("~player_"@));
        let named = with_prefix(entries, encode_utf8("player_"@));
        let identities = identity_entries(entries);
        let server = with_prefix(entries, encode_utf8("player_server_"@));
        let players = all_grouped_players(entries);
        let at = if key_starts(e.key, "~local_player"@) {
            lemma_prefixed_is_found(entries, encode_utf8("~local_player"@), e);
            choose|i: int| 0 <= i < local.len() && local[i] == e
        } else if key_starts(e.key, "~player_"@) {
            lemma_prefixed_is_found(entries, encode_utf8("~player_"@), e);
            let i = choose|i: int| 0 <= i < other.len() && other[i] == e;
            local.len() + i
        } else if is_identity_key(e.key) {
            lemma_prefixed_is_found(entries, encode_utf8("player_"@), e);
            let k = choose|i: int| 0 <= i < named.len() && named[i] == e;
            named.lemma_filter_contains(|x: EntryView| is_identity_key(x.key), k);
            let i = choose|i: int| 0 <= i < identities.len() && identities[i] == e;
            local.len() + other.len() + i
        } else {
            lemma_prefixed_is_found(entries, encode_utf8("player_server_"@), e);
            let i = choose|i: int| 0 <= i < server.len() && server[i] == e;
            local.len() + other.len() + identities.len() + i
        };
        assert(players[at] == e);
        assert(keys_of(players)[at] == e.key);
        assert(all[front.len() + at] == e.key);
    }
}

/// The type of an actor is its `identifier`, or else its `id`.
pub proof fn law_type_of_actor(c: CompoundView, name: Seq<char>)
    ensures
        lookup_text(c, "identifier"@) == Some(name) ==> actor_type(Some(c)) == name,
        lookup_text(c, "identifier"@) is None && lookup_text(c, "id"@) == Some(name) ==> actor_type(
            Some(c),
        ) == name,
        lookup_text(c, "identifier"@) is None && lookup_text(c, "id"@) is None ==> actor_type(
            Some(c),
        ) == "unknown"@,
        actor_type(None) == "unknown"@,
{
}

/// What a wipe takes. Without players it takes the actors whose identifier is not that of a
/// player, and those that cannot be decoded. With players it takes the entries under the keys of
/// actors and of players. It takes nothing else.
pub proof fn law_wipe(entries: Seq<EntryView>, tags: Seq<Option<CompoundView>>, key: Seq<u8>)
    requires
        tags.len() == actor_entries(entries).len(),
    ensures
        wiped_keys(entries, tags, false).contains(key) <==> exists|i: int|
            0 <= i < tags.len() && (#[trigger] actor_entries(entries)[i]).key == key && (
            tags[i] matches Some(c) ==> lookup_text(c, "identifier"@) != Some(
                "minecraft:player"@,
            )),
        wiped_keys(entries, tags, true).contains(key) <==> exists|k: int|
            0 <= k < entries.len() && (#[trigger] entries[k]).key == key && (key_starts(
                key,
                "actorprefix"@,
            ) || key_starts(key, "~local_player"@) || key_starts(key, "~player_"@) || key_starts(
                key,
                "player_"@,
            )),
{
    law_wipe_spares_players(entries, tags, key);
    let actors = actor_entries(entries);
    if exists|i: int|
        0 <= i < tags.len() && (#[trigger] actors[i]).key == key && (tags[i] matches Some(c)
            ==> lookup_text(c, "identifier"@) != Some("minecraft:player"@)) {
        let i = choose|i: int|
            0 <= i < tags.len() && (#[trigger] actors[i]).key == key && (tags[i] matches Some(c)
                ==> lookup_text(c, "identifier"@) != Some("minecraft:player"@));
        assert(!is_player_actor(tags[i]));
    }
    if exists|k: int|
        0 <= k < entries.len() && (#[trigger] entries[k]).key == key && (key_starts(
            key,
            "actorprefix"@,
        ) || key_starts(key, "~local_player"@) || key_starts(key, "~player_"@) || key_starts(
            key,
            "player_"@,
        )) {
        let k = choose|k: int|
            0 <= k < entries.len() && (#[trigger] entries[k]).key == key && (key_starts(
                key,
                "actorprefix"@,
            ) || key_starts(key, "~local_player"@) || key_starts(key, "~player_"@) || key_starts(
                key,
                "player_"@,
            ));
        assert(entries.contains(entries[k]));
        law_wipe_takes_all(entries, tags, entries[k]);
    }
    if wiped_keys(entries, tags, true).contains(key) {
        lemma_wiped_is_there(entries, tags, key);
    }
}

/// What a prefix scan finds is an entry under a key with the prefix.
proof fn lemma_found_is_prefixed(entries: Seq<EntryView>, prefix: Seq<u8>, i: int)
    requires
        0 <= i < with_prefix(entries, prefix).len(),
    ensures
        entries.contains(with_prefix(entries, prefix)[i]),
        has_prefix(with_prefix(entries, prefix)[i].key, prefix),
{
    let f = |x: EntryView| has_prefix(x.key, prefix);
    entries.lemma_filter_pred(f, i);
    let e = with_prefix(entries, prefix)[i];
    assert(entries.filter(f).contains(e));
    lemma_filter_exact(entries, f, e);
}

proof fn lemma_wiped_is_there(
    entries: Seq<EntryView>,
    tags: Seq<Option<CompoundView>>,
    key: Seq<u8>,
)
    requires
        tags.len() == actor_entries(entries).len(),
        wiped_keys(entries, tags, true).contains(key),
    ensures
        exists|k: int|
            0 <= k < entries.len() && (#[trigger] entries[k]).key == key && (key_starts(
                key,
                "actorprefix"@,
            ) || key_starts(key, "~local_player"@) || key_starts(key, "~player_"@) || key_starts(
                key,
                "player_"@,
            )),
{
    let all = wiped_keys(entries, tags, true);
    let actors = actor_entries(entries);
    let front = wiped_actors(actors, tags, true);
    let players = all_grouped_players(entries);
    let at = all.index_of(key);
    let e = if at < front.len() {
        assert(front[at] == key);
        assert(front.contains(key));
        lemma_wiped_actors(actors, tags, true, key);
        let i = choose|i: int| 0 <= i < actors.len() && (#[trigger] actors[i]).key == key;
        lemma_found_is_prefixed(entries, encode_utf8("actorprefix"@), i);
        actors[i]
    } else {
        let p = at - front.len();
        assert(keys_of(players)[p] == key);
        let local = with_prefix(entries, encode_utf8("~local_player"@));
        let other = with_prefix(entries, encode_utf8("~player_"@));
        let named = with_prefix(entries, encode_utf8("player_"@));
        let identities = identity_entries(entries);
        let server = with_prefix(entries, encode_utf8("player_server_"@));
        if p < local.len() {
            lemma_found_is_prefixed(entries, encode_utf8("~local_player"@), p);
        } else if p < local.len() + other.len() {
            lemma_found_is_prefixed(entries, encode_utf8("~player_"@), p - local.len());
        } else if p < local.len() + other.len() + identities.len() {
            let i = p - local.len() - other.len();
            let f = |x: EntryView| is_identity_key(x.key);
            named.lemma_filter_pred(f, i);
            assert(named.filter(f).contains(identities[i]));
            lemma_filter_exact(named, f, identities[i]);
            let j = named.index_of(identities[i]);
            lemma_found_is_prefixed(entries, encode_utf8("player_"@), j);
        } else {
            let i = p - local.len() - other.len() - identities.len();
            lemma_found_is_prefixed(entries, encode_utf8("player_server_"@), i);
            lemma_server_prefix(server[i].key);
        }
        players[p]
    };
    let k = entries.index_of(e);
    assert(entries[k].key == key);
}

/// The actors that are listed as players are those whose type is that of a player, all of them, in
/// their order.
pub proof fn law_player_actors_are_listed(
    actors: Seq<EntryView>,
    tags: Seq<Option<CompoundView>>,
) -> (places: Seq<int>)
    requires
        actors.len() == tags.len(),
    ensures
        selects(
            places,
            actors.len() as int,
            |i: int|
                tags[i] matches Some(c) && (lookup_text(c, "identifier"@) == Some(
                    "minecraft:player"@,
                ) || (lookup_text(c, "identifier"@) is None && lookup_text(c, "id"@) == Some(
                    "minecraft:player"@,
                ))),
        ),
        places.len() == player_actor_keys(actors, tags).len(),
        forall|k: int|
            0 <= k < places.len() ==> #[trigger] player_actor_keys(actors, tags)[k]
                == actors[places[k]].key,
{
    assert(actors.take(actors.len() as int) =~= actors);
    assert(tags.take(actors.len() as int) =~= tags);
    lemma_player_places(actors, tags, actors.len())
}

proof fn lemma_player_places(
    actors: Seq<EntryView>,
    tags: Seq<Option<CompoundView>>,
    n: nat,
) -> (places: Seq<int>)
    requires
        actors.len() == tags.len(),
        n <= actors.len(),
    ensures
        selects(
            places,
            n as int,
            |i: int|
                tags[i] matches Some(c) && (lookup_text(c, "identifier"@) == Some(
                    "minecraft:player"@,
                ) || (lookup_text(c, "identifier"@) is None && lookup_text(c, "id"@) == Some(
                    "minecraft:player"@,
                ))),
        ),
        places.len() == player_actor_keys(actors.take(n as int), tags.take(n as int)).len(),
        forall|k: int|
            0 <= k < places.len() ==> #[trigger] player_actor_keys(
                actors.take(n as int),
                tags.take(n as int),
            )[k] == actors[places[k]].key,
    decreases n,
{
    let wanted = |i: int|
        tags[i] matches Some(c) && (lookup_text(c, "identifier"@) == Some("minecraft:player"@) || (
        lookup_text(c, "identifier"@) is None && lookup_text(c, "id"@) == Some(
            "minecraft:player"@,
        )));
    if n == 0 {
        lemma_select_none(wanted);
        Seq::empty()
    } else {
        let m = n - 1;
        let before = lemma_player_places(actors, tags, m as nat);
        lemma_select_next(before, m, wanted);
        let some = player_actor_keys(actors.take(m), tags.take(m));
        let all = player_actor_keys(actors.take(n as int), tags.take(n as int));
        assert(actors.take(n as int).drop_last() =~= actors.take(m));
        assert(tags.take(n as int).drop_last() =~= tags.take(m));
        assert(tags.take(n as int).last() == tags[m]);
        assert(actors.take(n as int).last() == actors[m]);
        reveal_strlit("unknown");
        reveal_strlit("minecraft:player");
        assert("unknown"@.len() != "minecraft:player"@.len());
        if wanted(m) {
            assert(all == some.push(actors[m].key));
            let places = before.push(m);
            assert forall|k: int| 0 <= k < places.len() implies #[trigger] all[k]
                == actors[places[k]].key by {
                if k < some.len() {
                    assert(all[k] == some[k]);
                    assert(places[k] == before[k]);
                }
            }
            places
        } else {
            assert(all == some);
            before
        }
    }
}

/// The list of types shows the first 30 of their ranking, each with its name and its number.
pub proof fn law_type_lines(ranking: Seq<TallyView>, i: int)
    requires
        0 <= i < ranking.len(),
        i < 30,
    ensures
        type_lines(ranking, 30).len() == if ranking.len() < 30 { ranking.len() } else { 30 },
        type_lines(ranking, 30)[i][1] == words(ranking[i].name),
        type_lines(ranking, 30)[i][3] == PieceView::Int(ranking[i].count as int),
{
}

/// Bytes are shown by two hexadecimal digits each, with a blank between one and the next.
pub proof fn law_spaced_hex(bytes: Seq<u8>, i: int)
    requires
        0 <= i < bytes.len(),
    ensures
        spaced_hex(bytes).len() == 3 * bytes.len() - 1,
        spaced_hex(bytes).subrange(3 * i, 3 * i + 2) == hex_text(seq![bytes[i]]),
        i + 1 < bytes.len() ==> spaced_hex(bytes)[3 * i + 2] == ' ',
    decreases bytes.len(),
{
    reveal_strlit(" ");
    let s = spaced_hex(bytes);
    if bytes.len() == 1 {
        assert(bytes =~= seq![bytes[0]]);
        assert(s.subrange(0, 2) =~= s);
    } else {
        let front = bytes.drop_last();
        let last = hex_text(seq![bytes.last()]);
        law_spaced_hex(front, front.len() - 1);
        if i < front.len() {
            law_spaced_hex(front, i);
            assert(front[i] == bytes[i]);
            assert(s.subrange(3 * i, 3 * i + 2) =~= spaced_hex(front).subrange(3 * i, 3 * i + 2));
        } else {
            assert(s.subrange(3 * i, 3 * i + 2) =~= last);
        }
    }
}

} // verus!
