//! Players of a world: their keys, the choice of one by name, and their items.

use crate::bytes::bytes_equal;
use crate::codec::{decode_one, decodes, is_decoder, is_encoder, Decoded};
use crate::inventory::{
    all_items, are_encoded, build_player_inventory, collect_player_encoded_items, inventory_of,
    EncodedItem, InventoryView, PlayerInventory,
};
use crate::keys::{
    identity_key, is_identity_key, is_player_key, is_server_player_key, key_starts, key_starts_with,
    lemma_server_prefix, player_key,
};
use crate::nbt::{lookup_text, CompoundTag, CompoundView};
use crate::selection::{lemma_select_next, lemma_select_none, selects};
use crate::store::{entry_views, lemma_filter_exact, lemma_filter_step, DbEntry, EntryView};
use crate::text::{contains_text, decode_lossy, lossy_text, occurs_in};
use vstd::prelude::*;
use vstd::string::StringExecFns;
use vstd::utf8::encode_utf8;

verus! {

/// The entries of players, full data on a server aside.
pub open spec fn player_entries(entries: Seq<EntryView>) -> Seq<EntryView> {
    entries.filter(|e: EntryView| is_player_key(e.key))
}

/// The entries of players' full data on a server.
pub open spec fn server_entries(entries: Seq<EntryView>) -> Seq<EntryView> {
    entries.filter(|e: EntryView| is_server_player_key(e.key))
}

/// The entries of all player data, that on a server last.
pub open spec fn all_player_entries(entries: Seq<EntryView>) -> Seq<EntryView> {
    player_entries(entries) + server_entries(entries)
}

/// The entries of players, full data on a server aside, in the order of the database.
pub fn scan_player_keys(entries: &Vec<DbEntry>) -> (r: Vec<DbEntry>)
    ensures
        entry_views(r@) == player_entries(entry_views(entries@)),
{
    let ghost all = entry_views(entries@);
    let ghost keep = |e: EntryView| is_player_key(e.key);
    let mut out: Vec<DbEntry> = Vec::new();
    assert(all.take(0).filter(keep) =~= Seq::empty()) by {
        reveal(Seq::filter);
    }
    assert(entry_views(out@) =~= all.take(0).filter(keep));
    for i in 0..entries.len()
        invariant
            all == entry_views(entries@),
            keep == (|e: EntryView| is_player_key(e.key)),
            entry_views(out@) == all.take(i as int).filter(keep),
    {
        proof {
            lemma_filter_step(all, keep, i as int);
        }
        if player_key(entries[i].key.as_slice()) {
            let ghost before = entry_views(out@);
            out.push(entries[i].clone());
            assert(entry_views(out@) =~= before.push(all[i as int]));
        }
    }
    assert(all.take(entries@.len() as int) =~= all);
    out
}

/// The entries of all player data, that on a server last.
pub fn scan_all_player_keys(entries: &Vec<DbEntry>) -> (r: Vec<DbEntry>)
    ensures
        entry_views(r@) == all_player_entries(entry_views(entries@)),
{
    let mut out = scan_player_keys(entries);
    let ghost front = entry_views(out@);
    let ghost all = entry_views(entries@);
    let ghost keep = |e: EntryView| is_server_player_key(e.key);
    assert(all.take(0).filter(keep) =~= Seq::empty()) by {
        reveal(Seq::filter);
    }
    assert(entry_views(out@) =~= front + all.take(0).filter(keep));
    for i in 0..entries.len()
        invariant
            all == entry_views(entries@),
            keep == (|e: EntryView| is_server_player_key(e.key)),
            entry_views(out@) == front + all.take(i as int).filter(keep),
    {
        proof {
            lemma_filter_step(all, keep, i as int);
        }
        if key_starts_with(entries[i].key.as_slice(), "player_server_") {
            let ghost before = entry_views(out@);
            out.push(entries[i].clone());
            assert(entry_views(out@) =~= before.push(all[i as int]));
            assert(entry_views(out@) =~= front + all.take(i + 1).filter(keep));
        }
    }
    assert(all.take(entries@.len() as int) =~= all);
    out
}

/// The places at which flags are set, in order.
pub open spec fn places(flags: Seq<bool>) -> Seq<int>
    decreases flags.len(),
{
    if flags.len() == 0 {
        Seq::empty()
    } else if flags.last() {
        places(flags.drop_last()).push(flags.len() - 1)
    } else {
        places(flags.drop_last())
    }
}

/// The places of the entries with a key.
pub open spec fn places_of_key(players: Seq<EntryView>, key: Seq<u8>) -> Seq<int> {
    places(players.map_values(|e: EntryView| e.key == key))
}

/// The places of the labels in which a text occurs.
pub open spec fn places_of_text(labels: Seq<Seq<char>>, text: Seq<char>) -> Seq<int> {
    places(labels.map_values(|l: Seq<char>| occurs_in(l, text)))
}

/// Which player a text means.
pub enum ChoiceView {
    /// The player at a place.
    Found(int),
    /// Several players: the text occurs in the labels at these places.
    Ambiguous(Seq<int>),
    /// No player.
    Missing,
}

/// Which player a text means: the one with that key, else the only one in whose label it occurs.
pub open spec fn choice(players: Seq<EntryView>, labels: Seq<Seq<char>>, wanted: Seq<char>) -> ChoiceView {
    let exact = places_of_key(players, encode_utf8(wanted));
    let partial = places_of_text(labels, wanted);
    if exact.len() > 0 {
        ChoiceView::Found(exact[0])
    } else if partial.len() == 1 {
        ChoiceView::Found(partial[0])
    } else if partial.len() > 1 {
        ChoiceView::Ambiguous(partial)
    } else {
        ChoiceView::Missing
    }
}

/// Which player a text means, the first one where it means several.
pub open spec fn first_choice(
    players: Seq<EntryView>,
    labels: Seq<Seq<char>>,
    wanted: Seq<char>,
) -> Option<int> {
    match choice(players, labels, wanted) {
        ChoiceView::Found(i) => Some(i),
        ChoiceView::Ambiguous(l) => Some(l[0]),
        ChoiceView::Missing => None,
    }
}

/// Which player a text means.
pub enum PlayerChoice {
    /// The player at a place.
    Found(usize),
    /// Several players: the text occurs in the labels at these places.
    Ambiguous(Vec<usize>),
    /// No player.
    Missing,
}

/// Places as numbers.
pub open spec fn numbers(places: Seq<usize>) -> Seq<int> {
    places.map_values(|p: usize| p as int)
}

impl View for PlayerChoice {
    type V = ChoiceView;

    open spec fn view(&self) -> ChoiceView {
        match *self {
            PlayerChoice::Found(i) => ChoiceView::Found(i as int),
            PlayerChoice::Ambiguous(l) => ChoiceView::Ambiguous(numbers(l@)),
            PlayerChoice::Missing => ChoiceView::Missing,
        }
    }
}

/// Texts by what they hold.
pub open spec fn text_views(texts: Seq<String>) -> Seq<Seq<char>> {
    texts.map_values(|s: String| s@)
}

proof fn lemma_places_step(flags: Seq<bool>, i: int)
    requires
        0 <= i < flags.len(),
    ensures
        places(flags.take(i + 1)) == if flags[i] {
            places(flags.take(i)).push(i)
        } else {
            places(flags.take(i))
        },
{
    assert(flags.take(i + 1).drop_last() =~= flags.take(i));
}

/// A place that was found stays the first one.
proof fn lemma_first_place_stays(flags: Seq<bool>, i: int)
    requires
        0 <= i <= flags.len(),
        places(flags.take(i)).len() > 0,
    ensures
        places(flags).len() > 0,
        places(flags)[0] == places(flags.take(i))[0],
    decreases flags.len() - i,
{
    if i < flags.len() {
        lemma_places_step(flags, i);
        lemma_first_place_stays(flags, i + 1);
    } else {
        assert(flags.take(i) =~= flags);
    }
}

/// Places are places of the flags that are set.
proof fn lemma_places_bounds(flags: Seq<bool>)
    ensures
        forall|k: int|
            0 <= k < places(flags).len() ==> 0 <= #[trigger] places(flags)[k] < flags.len()
                && flags[places(flags)[k]],
    decreases flags.len(),
{
    if flags.len() > 0 {
        let front = flags.drop_last();
        lemma_places_bounds(front);
        assert forall|k: int| 0 <= k < places(flags).len() implies 0 <= #[trigger] places(flags)[k]
            < flags.len() && flags[places(flags)[k]] by {
            if k < places(front).len() {
                assert(places(flags)[k] == places(front)[k]);
                assert(front[places(front)[k]]);
            }
        }
    }
}

/// The first entry with a key.
pub fn find_key(players: &Vec<DbEntry>, key: &[u8]) -> (r: Option<usize>)
    ensures
        match r {
            Some(i) => {
                &&& i < players@.len()
                &&& places_of_key(entry_views(players@), key@).len() > 0
                &&& places_of_key(entry_views(players@), key@)[0] == i
            },
            None => places_of_key(entry_views(players@), key@).len() == 0,
        },
{
    let ghost flags = entry_views(players@).map_values(|e: EntryView| e.key == key@);
    for i in 0..players.len()
        invariant
            flags == entry_views(players@).map_values(|e: EntryView| e.key == key@),
            places(flags.take(i as int)).len() == 0,
    {
        proof {
            lemma_places_step(flags, i as int);
        }
        if bytes_equal(players[i].key.as_slice(), key) {
            proof {
                lemma_first_place_stays(flags, i + 1);
            }
            return Some(i);
        }
    }
    assert(flags.take(players@.len() as int) =~= flags);
    None
}

/// The places of the labels in which a text occurs.
pub fn find_text(labels: &Vec<String>, text: &str) -> (r: Vec<usize>)
    ensures
        numbers(r@) == places_of_text(text_views(labels@), text@),
        forall|k: int| 0 <= k < r@.len() ==> (#[trigger] r@[k]) < labels@.len(),
{
    let ghost flags = text_views(labels@).map_values(|l: Seq<char>| occurs_in(l, text@));
    let mut out: Vec<usize> = Vec::new();
    assert(numbers(out@) =~= places(flags.take(0)));
    for i in 0..labels.len()
        invariant
            flags == text_views(labels@).map_values(|l: Seq<char>| occurs_in(l, text@)),
            numbers(out@) == places(flags.take(i as int)),
            forall|k: int| 0 <= k < out@.len() ==> (#[trigger] out@[k]) < labels@.len(),
    {
        proof {
            lemma_places_step(flags, i as int);
        }
        if contains_text(labels[i].as_str(), text) {
            let ghost before = numbers(out@);
            out.push(i);
            assert(numbers(out@) =~= before.push(i as int));
        }
    }
    assert(flags.take(labels@.len() as int) =~= flags);
    out
}

/// Which player a text means, given the labels of the players.
pub fn choose_player(players: &Vec<DbEntry>, labels: &Vec<String>, wanted: &str) -> (r:
    PlayerChoice)
    requires
        players@.len() == labels@.len(),
    ensures
        r@ == choice(entry_views(players@), text_views(labels@), wanted@),
        r matches PlayerChoice::Found(i) ==> i < players@.len(),
        r matches PlayerChoice::Ambiguous(l) ==> forall|k: int|
            0 <= k < l@.len() ==> (#[trigger] l@[k]) < labels@.len(),
{
    if let Some(i) = find_key(players, wanted.as_bytes()) {
        return PlayerChoice::Found(i);
    }
    let partial = find_text(labels, wanted);
    let ghost found = numbers(partial@);
    assert(found == places_of_text(text_views(labels@), wanted@));
    if partial.len() == 1 {
        assert(found[0] == partial@[0]);
        return PlayerChoice::Found(partial[0]);
    }
    if partial.len() > 1 {
        return PlayerChoice::Ambiguous(partial);
    }
    PlayerChoice::Missing
}

/// The labels of entries: their keys as text.
pub open spec fn labels_of(players: Seq<EntryView>) -> Seq<Seq<char>> {
    players.map_values(|e: EntryView| lossy_text(e.key))
}

/// The labels of entries: their keys as text.
pub fn player_labels(players: &Vec<DbEntry>) -> (r: Vec<String>)
    ensures
        text_views(r@) == labels_of(entry_views(players@)),
{
    let mut out: Vec<String> = Vec::new();
    for i in 0..players.len()
        invariant
            out@.len() == i,
            forall|k: int| 0 <= k < i ==> (#[trigger] out@[k])@ == lossy_text(players@[k].key@),
    {
        out.push(decode_lossy(players[i].key.as_slice()));
    }
    assert(text_views(out@) =~= labels_of(entry_views(players@)));
    out
}

/// The place of the full data that a player's own data points to. Only an identity points to
/// other data, by the key under `ServerId`.
pub open spec fn link(players: Seq<EntryView>, i: int, own: CompoundView) -> Option<int> {
    match lookup_text(own, "ServerId"@) {
        Some(id) => if is_identity_key(players[i].key) && places_of_key(
            players,
            encode_utf8(id),
        ).len() > 0 {
            Some(places_of_key(players, encode_utf8(id))[0])
        } else {
            None
        },
        None => None,
    }
}

/// The place of the full data that a player's own data points to.
pub fn linked_player(players: &Vec<DbEntry>, i: usize, own: &CompoundTag) -> (r: Option<usize>)
    requires
        i < players@.len(),
    ensures
        match r {
            Some(j) => j < players@.len() && link(entry_views(players@), i as int, own@) == Some(
                j as int,
            ),
            None => link(entry_views(players@), i as int, own@) is None,
        },
{
    if identity_key(players[i].key.as_slice()) {
        if let Some(id) = own.get_text("ServerId") {
            return find_key(players, id.as_bytes());
        }
    }
    None
}

/// Whether the data of the player at a place is that at another place, with given content: what
/// the player's own data points to, or the own data where it points nowhere. Where the data that
/// it points to cannot be decoded the own data stands in.
pub open spec fn loads<F: Fn(&[u8]) -> Option<Decoded>>(
    decode: F,
    players: Seq<EntryView>,
    i: int,
    from: int,
    data: CompoundView,
) -> bool {
    exists|own: CompoundView|
        #![trigger decodes(decode, players[i].value, Some(own))]
        decodes(decode, players[i].value, Some(own)) && match link(players, i, own) {
            Some(j) => from == j && (decodes(decode, players[j].value, Some(data)) || (decodes(
                decode,
                players[j].value,
                None,
            ) && data == own)),
            None => from == i && data == own,
        }
}

/// The data of the player at a place, and the place where it stands. There is none where the
/// player's own data cannot be decoded.
pub fn load_player<F: Fn(&[u8]) -> Option<Decoded>>(
    players: &Vec<DbEntry>,
    i: usize,
    decode: &F,
) -> (r: Option<(usize, CompoundTag)>)
    requires
        is_decoder(*decode),
        i < players@.len(),
    ensures
        match r {
            Some((j, data)) => j < players@.len() && loads(
                *decode,
                entry_views(players@),
                i as int,
                j as int,
                data@,
            ),
            None => decodes(*decode, players@[i as int].value@, None),
        },
{
    let ghost views = entry_views(players@);
    let own = match decode_one(decode, players[i].value.as_slice()) {
        Some(t) => t,
        None => {
            return None;
        },
    };
    assert(decodes(*decode, views[i as int].value, Some(own@)));
    match linked_player(players, i, &own) {
        Some(j) => {
            assert(views[j as int].value == players@[j as int].value@);
            match decode_one(decode, players[j].value.as_slice()) {
                Some(t) => Some((j, t)),
                None => Some((j, own)),
            }
        },
        None => Some((i, own)),
    }
}

/// Whether an inventory is that of the player at a place, under the label of the entry that its
/// data comes from.
pub open spec fn yields_inventory<F: Fn(&[u8]) -> Option<Decoded>>(
    decode: F,
    players: Seq<EntryView>,
    i: int,
    inv: InventoryView,
) -> bool {
    exists|from: int, data: CompoundView|
        #[trigger] loads(decode, players, i, from, data) && inv == inventory_of(
            lossy_text(players[from].key),
            data,
        )
}

/// Whether items are those of the player at a place, as the encoder writes them.
pub open spec fn yields_items<F: Fn(&[u8]) -> Option<Decoded>, E: Fn(&CompoundTag) -> Vec<u8>>(
    decode: F,
    encode: E,
    players: Seq<EntryView>,
    i: int,
    items: Seq<EncodedItem>,
) -> bool {
    exists|from: int, data: CompoundView|
        #[trigger] loads(decode, players, i, from, data) && are_encoded(
            encode,
            items,
            all_items(data),
        )
}

/// How a database was found.
pub enum Database {
    /// There is none.
    Absent,
    /// It could not be opened, for a reason.
    Unreadable(String),
    /// It was opened and holds these entries.
    Opened(Vec<DbEntry>),
}

/// An opened Bedrock world: the entries of its players.
pub struct WorldHandle {
    players: Vec<DbEntry>,
}

impl View for WorldHandle {
    type V = Seq<EntryView>;

    closed spec fn view(&self) -> Seq<EntryView> {
        entry_views(self.players@)
    }
}

impl WorldHandle {
    /// Opens a world, given how its database was found.
    pub fn open(database: Database) -> (r: Result<WorldHandle, String>)
        ensures
            match (database, r) {
                (Database::Absent, Err(e)) => e@ == "LevelDB directory not found"@,
                (Database::Unreadable(reason), Err(e)) => e@ == "Failed to open DB: "@ + reason@,
                (Database::Opened(entries), Ok(h)) => h@ == all_player_entries(
                    entry_views(entries@),
                ),
                _ => false,
            },
    {
        match database {
            Database::Absent => Err("LevelDB directory not found".to_owned()),
            Database::Unreadable(reason) => {
                let mut e: String = "Failed to open DB: ".to_owned();
                e.append(reason.as_str());
                Err(e)
            },
            Database::Opened(entries) => Ok(
                WorldHandle { players: scan_all_player_keys(&entries) },
            ),
        }
    }

    /// Gets a player's inventory by their player key, which can be `player_<UUID>`,
    /// `player_server_<UUID>`, or just `<UUID>` where it means one player only.
    pub fn get_player_inventory<F: Fn(&[u8]) -> Option<Decoded>>(
        &self,
        player_key: &str,
        decode: &F,
    ) -> (r: Result<PlayerInventory, String>)
        requires
            is_decoder(*decode),
        ensures
            match choice(self@, labels_of(self@), player_key@) {
                ChoiceView::Found(i) => match r {
                    Ok(inv) => yields_inventory(*decode, self@, i, inv@),
                    Err(e) => e@ == "Failed to parse NBT"@ && decodes(
                        *decode,
                        self@[i].value,
                        None,
                    ),
                },
                _ => r matches Err(e) && e@ == "Player not found"@,
            },
    {
        let labels = player_labels(&self.players);
        assert(labels@.len() == text_views(labels@).len());
        let chosen = choose_player(&self.players, &labels, player_key);
        assert(chosen@ == choice(self@, labels_of(self@), player_key@));
        match chosen {
            PlayerChoice::Found(i) => match load_player(&self.players, i, decode) {
                Some((from, data)) => {
                    assert(loads(*decode, self@, i as int, from as int, data@));
                    assert(text_views(labels@)[from as int] == labels@[from as int]@);
                    let inv = build_player_inventory(labels[from].as_str(), &data);
                    assert(yields_inventory(*decode, self@, i as int, inv@));
                    Ok(inv)
                },
                None => {
                    assert(self@[i as int].value == self.players@[i as int].value@);
                    Err("Failed to parse NBT".to_owned())
                },
            },
            _ => Err("Player not found".to_owned()),
        }
    }

    /// Gets a player's items with their tags as the encoder writes them. Where the key means
    /// several players it is the first.
    pub fn get_player_encoded_items<
        F: Fn(&[u8]) -> Option<Decoded>,
        E: Fn(&CompoundTag) -> Vec<u8>,
    >(&self, player_key: &str, decode: &F, encode: &E) -> (r: Result<Vec<EncodedItem>, String>)
        requires
            is_decoder(*decode),
            is_encoder(*encode),
        ensures
            match first_choice(self@, labels_of(self@), player_key@) {
                Some(i) => match r {
                    Ok(items) => yields_items(*decode, *encode, self@, i, items@),
                    Err(e) => e@ == "Failed to parse NBT"@ && decodes(
                        *decode,
                        self@[i].value,
                        None,
                    ),
                },
                None => r matches Err(e) && e@ == "Player not found"@,
            },
    {
        let labels = player_labels(&self.players);
        assert(labels@.len() == text_views(labels@).len());
        let chosen = choose_player(&self.players, &labels, player_key);
        assert(chosen@ == choice(self@, labels_of(self@), player_key@));
        let i: usize = match chosen {
            PlayerChoice::Found(i) => i,
            PlayerChoice::Ambiguous(l) => {
                proof {
                    let flags = labels_of(self@).map_values(
                        |t: Seq<char>| occurs_in(t, player_key@),
                    );
                    lemma_places_bounds(flags);
                    assert(numbers(l@)[0] == places(flags)[0]);
                    assert(l@[0] as int == numbers(l@)[0]);
                }
                l[0]
            },
            PlayerChoice::Missing => {
                return Err("Player not found".to_owned());
            },
        };
        match load_player(&self.players, i, decode) {
            Some((from, data)) => {
                assert(loads(*decode, self@, i as int, from as int, data@));
                let items = collect_player_encoded_items(&data, encode);
                assert(yields_items(*decode, *encode, self@, i as int, items@));
                Ok(items)
            },
            None => {
                assert(self@[i as int].value == self.players@[i as int].value@);
                Err("Failed to parse NBT".to_owned())
            },
        }
    }

    /// Lists all player keys of the world.
    pub fn list_player_keys(&self) -> (r: Vec<String>)
        ensures
            text_views(r@) == labels_of(self@),
    {
        player_labels(&self.players)
    }
}

/// The players are found by their keys: every entry whose key begins in one of the three ways,
/// and no other.
pub proof fn law_players_found(entries: Seq<EntryView>, e: EntryView)
    ensures
        all_player_entries(entries).contains(e) <==> entries.contains(e) && (key_starts(
            e.key,
            "~local_player"@,
        ) || key_starts(e.key, "~player_"@) || key_starts(e.key, "player_"@)),
{
    let a = player_entries(entries);
    let b = server_entries(entries);
    lemma_filter_exact(entries, |x: EntryView| is_player_key(x.key), e);
    lemma_filter_exact(entries, |x: EntryView| is_server_player_key(x.key), e);
    if is_server_player_key(e.key) {
        lemma_server_prefix(e.key);
    }
    if a.contains(e) {
        let i = choose|i: int| 0 <= i < a.len() && a[i] == e;
        assert((a + b)[i] == e);
    }
    if b.contains(e) {
        let i = choose|i: int| 0 <= i < b.len() && b[i] == e;
        assert((a + b)[a.len() + i] == e);
    }
    if (a + b).contains(e) {
        let i = choose|i: int| 0 <= i < (a + b).len() && (a + b)[i] == e;
        if i < a.len() {
            assert(a[i] == e);
        } else {
            assert(b[i - a.len()] == e);
        }
    }
}

/// A player's full key always means that player, whatever else it occurs in.
pub proof fn law_full_key(players: Seq<EntryView>, labels: Seq<Seq<char>>, wanted: Seq<char>, i: int)
    requires
        0 <= i < players.len(),
        players[i].key == encode_utf8(wanted),
        forall|j: int| 0 <= j < i ==> (#[trigger] players[j]).key != encode_utf8(wanted),
    ensures
        choice(players, labels, wanted) == ChoiceView::Found(i),
        first_choice(players, labels, wanted) == Some(i),
{
    let flags = players.map_values(|e: EntryView| e.key == encode_utf8(wanted));
    lemma_no_places(flags, i);
    lemma_places_step(flags, i);
    lemma_first_place_stays(flags, i + 1);
}

/// A part of a label that occurs in no other means its player, where it is no full key.
pub proof fn law_part_of_key(
    players: Seq<EntryView>,
    labels: Seq<Seq<char>>,
    wanted: Seq<char>,
    i: int,
)
    requires
        players.len() == labels.len(),
        0 <= i < labels.len(),
        forall|j: int| 0 <= j < players.len() ==> (#[trigger] players[j]).key != encode_utf8(wanted),
        forall|j: int|
            0 <= j < labels.len() ==> (occurs_in(#[trigger] labels[j], wanted) <==> j == i),
    ensures
        choice(players, labels, wanted) == ChoiceView::Found(i),
{
    let exact = players.map_values(|e: EntryView| e.key == encode_utf8(wanted));
    lemma_no_places(exact, exact.len() as int);
    assert(exact.take(exact.len() as int) =~= exact);
    let partial = labels.map_values(|l: Seq<char>| occurs_in(l, wanted));
    lemma_no_places(partial, i);
    lemma_places_step(partial, i);
    lemma_places_end(partial, i + 1);
}

proof fn lemma_no_places(flags: Seq<bool>, n: int)
    requires
        0 <= n <= flags.len(),
        forall|j: int| 0 <= j < n ==> !(#[trigger] flags[j]),
    ensures
        places(flags.take(n)) == Seq::<int>::empty(),
    decreases n,
{
    if n > 0 {
        lemma_no_places(flags, n - 1);
        lemma_places_step(flags, n - 1);
    } else {
        assert(flags.take(0) =~= Seq::empty());
    }
}

proof fn lemma_places_end(flags: Seq<bool>, n: int)
    requires
        0 <= n <= flags.len(),
        forall|j: int| n <= j < flags.len() ==> !(#[trigger] flags[j]),
    ensures
        places(flags) == places(flags.take(n)),
    decreases flags.len() - n,
{
    if n < flags.len() {
        lemma_places_step(flags, n);
        lemma_places_end(flags, n + 1);
    } else {
        assert(flags.take(n) =~= flags);
    }
}

proof fn lemma_places_select(flags: Seq<bool>, n: nat)
    requires
        n <= flags.len(),
    ensures
        selects(places(flags.take(n as int)), n as int, |i: int| flags[i]),
    decreases n,
{
    let wanted = |i: int| flags[i];
    if n == 0 {
        lemma_select_none(wanted);
        assert(places(flags.take(0)) =~= Seq::empty());
    } else {
        lemma_places_select(flags, (n - 1) as nat);
        lemma_select_next(places(flags.take(n - 1)), n - 1, wanted);
        lemma_places_step(flags, n - 1);
    }
}

/// The choice of a player by a text. The first player whose key is the text is chosen. Where there
/// is none, the only player in whose label the text stands is. Where it stands in several, they
/// are all named, in their order, and where in none, there is no choice.
pub proof fn law_choice(players: Seq<EntryView>, labels: Seq<Seq<char>>, wanted: Seq<char>)
    requires
        players.len() == labels.len(),
    ensures
        ({
            let is_key = exists|j: int|
                0 <= j < players.len() && (#[trigger] players[j]).key == encode_utf8(wanted);
            match choice(players, labels, wanted) {
                ChoiceView::Found(i) => 0 <= i < players.len() && if is_key {
                    players[i].key == encode_utf8(wanted) && forall|j: int|
                        0 <= j < i ==> (#[trigger] players[j]).key != encode_utf8(wanted)
                } else {
                    occurs_in(labels[i], wanted) && forall|j: int|
                        0 <= j < labels.len() && j != i ==> !occurs_in(
                            #[trigger] labels[j],
                            wanted,
                        )
                },
                ChoiceView::Ambiguous(l) => !is_key && l.len() > 1 && selects(
                    l,
                    labels.len() as int,
                    |i: int| occurs_in(labels[i], wanted),
                ) && first_choice(players, labels, wanted) == Some(l[0]),
                ChoiceView::Missing => !is_key && forall|j: int|
                    0 <= j < labels.len() ==> !occurs_in(#[trigger] labels[j], wanted),
            }
        }),
{
    let key = encode_utf8(wanted);
    let exact = players.map_values(|e: EntryView| e.key == key);
    let partial = labels.map_values(|l: Seq<char>| occurs_in(l, wanted));
    lemma_places_select(exact, exact.len());
    lemma_places_select(partial, partial.len());
    assert(exact.take(exact.len() as int) =~= exact);
    assert(partial.take(partial.len() as int) =~= partial);
    let e = places(exact);
    let p = places(partial);
    let in_label = |i: int| partial[i];
    let is_text = |i: int| occurs_in(labels[i], wanted);
    let is_full = |i: int| exact[i];
    assert(selects(e, exact.len() as int, is_full));
    assert(selects(p, partial.len() as int, in_label));
    assert(selects(p, labels.len() as int, is_text)) by {
        assert forall|i: int| 0 <= i < labels.len() && #[trigger] is_text(i) implies p.contains(i) by {
            assert(in_label(i));
        }
    }
    assert forall|j: int| 0 <= j < players.len() && (#[trigger] players[j]).key == key implies e.len()
        > 0 && e[0] <= j by {
        assert(is_full(j));
        assert(e.contains(j));
        let q = e.index_of(j);
        if q > 0 {
            assert(e[0] < e[q]);
        }
    }
    if e.len() > 0 {
        assert(is_full(e[0]));
        assert(players[e[0]].key == key);
    } else if p.len() == 1 {
        assert(is_text(p[0]));
        assert forall|j: int| 0 <= j < labels.len() && j != p[0] implies !occurs_in(
            #[trigger] labels[j],
            wanted,
        ) by {
            if is_text(j) {
                assert(p.contains(j));
            }
        }
    } else if p.len() == 0 {
        assert forall|j: int| 0 <= j < labels.len() implies !occurs_in(
            #[trigger] labels[j],
            wanted,
        ) by {
            if is_text(j) {
                assert(p.contains(j));
            }
        }
    }
}

/// The link of a player leads from an identity to the first player whose key is the `ServerId` of
/// the identity, wherever there is one, and from nothing else.
pub proof fn law_link(players: Seq<EntryView>, i: int, own: CompoundView, id: Seq<char>)
    requires
        0 <= i < players.len(),
        lookup_text(own, "ServerId"@) == Some(id),
    ensures
        match link(players, i, own) {
            Some(j) => {
                &&& 0 <= j < players.len()
                &&& players[j].key == encode_utf8(id)
                &&& key_starts(players[i].key, "player_"@)
                &&& !key_starts(players[i].key, "player_server_"@)
                &&& forall|k: int| 0 <= k < j ==> (#[trigger] players[k]).key != encode_utf8(id)
            },
            None => !key_starts(players[i].key, "player_"@) || key_starts(
                players[i].key,
                "player_server_"@,
            ) || forall|k: int|
                0 <= k < players.len() ==> (#[trigger] players[k]).key != encode_utf8(id),
        },
{
    let key = encode_utf8(id);
    let exact = players.map_values(|e: EntryView| e.key == key);
    lemma_places_select(exact, exact.len());
    assert(exact.take(exact.len() as int) =~= exact);
    let e = places(exact);
    let is_full = |i: int| exact[i];
    assert(selects(e, exact.len() as int, is_full));
    assert forall|j: int| 0 <= j < players.len() && (#[trigger] players[j]).key == key implies e.len()
        > 0 && e[0] <= j by {
        assert(is_full(j));
        assert(e.contains(j));
        let q = e.index_of(j);
        if q > 0 {
            assert(e[0] < e[q]);
        }
    }
    if e.len() > 0 {
        assert(is_full(e[0]));
    }
}

/// A player's data is that of the player whom the link leads to, where the link leads anywhere and
/// the data there can be decoded, and else the player's own.
pub proof fn law_linked_data<F: Fn(&[u8]) -> Option<Decoded>>(
    decode: F,
    players: Seq<EntryView>,
    i: int,
    from: int,
    data: CompoundView,
    own: CompoundView,
    other: Option<CompoundView>,
)
    requires
        loads(decode, players, i, from, data),
        forall|t: Option<CompoundView>| #[trigger]
            decodes(decode, players[i].value, t) ==> t == Some(own),
        link(players, i, own) matches Some(j) ==> forall|t: Option<CompoundView>| #[trigger]
            decodes(decode, players[j].value, t) ==> t == other,
    ensures
        match link(players, i, own) {
            Some(j) => from == j && data == match other {
                Some(t) => t,
                None => own,
            },
            None => from == i && data == own,
        },
{
}

} // verus!
