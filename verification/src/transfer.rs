//! Moving entries between worlds: documents that hold them, and their import.

use crate::actors::{is_player_actor, player_actor};
use crate::bytes::copy_bytes;
use crate::codec::{decode_one, decodes, is_decoder, Decoded};
use crate::compress::{content_view, restored};
use crate::encoding::{
    base64_bytes, base64_decode, base64_encode, base64_text, hex_bytes, hex_decode, hex_encode,
    hex_text, law_hex_round_trip, HexError,
};
use crate::import::{imported, law_migration, lemma_key_tells_entry, Content};
use crate::json::{
    as_i64, as_list, as_text, as_u64, ascending_names, field, is_document, json_list_view,
    json_object_view, json_text, member, parse_json, pretty_text, render_json, text_before,
    text_differs_at, Json, JsonView,
};
use crate::keys::{is_chunk_key_bytes, is_player_data_key, key_starts, key_starts_with, player_data_key};
use crate::nbt_json::int_json;
use crate::nbt::{lookup_text, CompoundTag, CompoundView};
use crate::selection::{lemma_select_next, lemma_select_none, selects};
use crate::store::{entry_views, in_key_order, DbEntry, EntryView};
use crate::world::text_views;
use vstd::prelude::*;

verus! {

/// What an exported entry holds: a key, a value and, for an actor, the name of its type where it
/// has one.
pub struct ExportView {
    pub key: Seq<u8>,
    pub value: Seq<u8>,
    pub identifier: Option<Option<Seq<char>>>,
}

/// The name of the type of an actor in an export.
pub enum Label {
    /// The entry is not that of an actor.
    Absent,
    /// The actor's type is not known.
    Unknown,
    /// The actor's type.
    Named(String),
}

/// What a label holds.
pub open spec fn label_view(l: Label) -> Option<Option<Seq<char>>> {
    match l {
        Label::Absent => None,
        Label::Unknown => Some(None),
        Label::Named(s) => Some(Some(s@)),
    }
}

/// An exported entry in a document.
pub open spec fn entry_json(x: ExportView) -> JsonView {
    let pair = seq![
        ("key_hex"@, JsonView::Text(hex_text(x.key))),
        ("value_base64"@, JsonView::Text(base64_text(x.value))),
    ];
    JsonView::Object(
        match x.identifier {
            None => pair,
            Some(None) => seq![("identifier"@, JsonView::Null)] + pair,
            Some(Some(s)) => seq![("identifier"@, JsonView::Text(s))] + pair,
        },
    )
}

/// What is said of an entry that cannot be imported.
pub enum ImportErrorView {
    Json(Seq<char>),
    NoEntries,
    NoKey,
    NoValue,
    Key(Seq<char>, HexError),
    Value(Seq<char>),
}

/// Why an import stops.
pub enum ImportError {
    /// The text is not JSON, for a reason.
    Json(String),
    /// The document has no list of entries.
    NoEntries,
    /// An entry has no key.
    NoKey,
    /// An entry has no value.
    NoValue,
    /// A key is not hexadecimal.
    Key(String, HexError),
    /// A value is not base64, for a reason.
    Value(String),
}

impl View for ImportError {
    type V = ImportErrorView;

    open spec fn view(&self) -> ImportErrorView {
        match *self {
            ImportError::Json(s) => ImportErrorView::Json(s@),
            ImportError::NoEntries => ImportErrorView::NoEntries,
            ImportError::NoKey => ImportErrorView::NoKey,
            ImportError::NoValue => ImportErrorView::NoValue,
            ImportError::Key(s, e) => ImportErrorView::Key(s@, e),
            ImportError::Value(s) => ImportErrorView::Value(s@),
        }
    }
}

/// The entry with a key in hexadecimal and a value as it was decoded.
pub open spec fn entry_of(key_hex: Seq<char>, value: Result<Seq<u8>, Seq<char>>) -> Result<
    EntryView,
    ImportErrorView,
> {
    match (hex_bytes(key_hex), value) {
        (Err(e), _) => Err(ImportErrorView::Key(key_hex, e)),
        (_, Err(e)) => Err(ImportErrorView::Value(e)),
        (Ok(key), Ok(value)) => Ok(EntryView { key, value }),
    }
}

/// The entry with a key in hexadecimal and a value as it was decoded.
pub fn make_entry(key_hex: &str, value: Result<Vec<u8>, String>) -> (r: Result<
    DbEntry,
    ImportError,
>)
    ensures
        match r {
            Ok(e) => entry_of(key_hex@, content_view(value)) == Ok::<EntryView, ImportErrorView>(
                e@,
            ),
            Err(e) => entry_of(key_hex@, content_view(value)) == Err::<EntryView, ImportErrorView>(
                e@,
            ),
        },
{
    let key = match hex_decode(key_hex) {
        Ok(k) => k,
        Err(e) => {
            return Err(ImportError::Key(key_hex.to_owned(), e));
        },
    };
    match value {
        Ok(value) => Ok(DbEntry { key, value }),
        Err(e) => Err(ImportError::Value(e)),
    }
}

/// The entry that an element of a document holds.
pub open spec fn import_entry(j: JsonView) -> Result<EntryView, ImportErrorView> {
    match (as_text(member(j, "key_hex"@)), as_text(member(j, "value_base64"@))) {
        (None, _) => Err(ImportErrorView::NoKey),
        (_, None) => Err(ImportErrorView::NoValue),
        (Some(k), Some(v)) => entry_of(k, base64_bytes(v)),
    }
}

/// What an import writes, in order, and why it stops before the end, where it does.
pub struct PlanView {
    pub total: u64,
    pub entries: Seq<EntryView>,
    pub error: Option<ImportErrorView>,
}

/// What an import writes, in order, and why it stops before the end, where it does.
pub struct ImportPlan {
    /// The number of entries that the document claims to hold.
    pub total: u64,
    pub entries: Vec<DbEntry>,
    pub error: Option<ImportError>,
}

impl View for ImportPlan {
    type V = PlanView;

    open spec fn view(&self) -> PlanView {
        PlanView {
            total: self.total,
            entries: entry_views(self.entries@),
            error: match self.error {
                Some(e) => Some(e@),
                None => None,
            },
        }
    }
}

/// The entries of the first `n` elements, up to the first that cannot be imported.
pub open spec fn import_entries(list: Seq<JsonView>, n: nat) -> (
    Seq<EntryView>,
    Option<ImportErrorView>,
)
    decreases n,
{
    if n == 0 {
        (Seq::empty(), None)
    } else {
        let (done, error) = import_entries(list, (n - 1) as nat);
        match error {
            Some(_) => (done, error),
            None => match import_entry(list[n - 1]) {
                Ok(e) => (done.push(e), None),
                Err(e) => (done, Some(e)),
            },
        }
    }
}

/// What the import of a document writes.
pub open spec fn import_plan(data: JsonView) -> PlanView {
    let total = match as_u64(member(data, "total"@)) {
        Some(t) => t,
        None => 0,
    };
    match as_list(member(data, "entries"@)) {
        None => PlanView { total, entries: Seq::empty(), error: Some(ImportErrorView::NoEntries) },
        Some(l) => {
            let (entries, error) = import_entries(l, l.len());
            PlanView { total, entries, error }
        },
    }
}

/// What the import of a text writes.
pub open spec fn import_text_plan(text: Seq<char>) -> PlanView {
    match json_text(text) {
        Ok(data) => import_plan(data),
        Err(e) => PlanView {
            total: 0,
            entries: Seq::empty(),
            error: Some(ImportErrorView::Json(e)),
        },
    }
}

fn read_entry(j: &Json) -> (r: Result<DbEntry, ImportError>)
    ensures
        match r {
            Ok(e) => import_entry(j@) == Ok::<EntryView, ImportErrorView>(e@),
            Err(e) => import_entry(j@) == Err::<EntryView, ImportErrorView>(e@),
        },
{
    let key_hex = match j.get_text("key_hex") {
        Some(s) => s,
        None => {
            return Err(ImportError::NoKey);
        },
    };
    let value_base64 = match j.get_text("value_base64") {
        Some(s) => s,
        None => {
            return Err(ImportError::NoValue);
        },
    };
    make_entry(key_hex.as_str(), base64_decode(value_base64.as_str()))
}

/// The first element that cannot be imported decides, however many follow.
proof fn lemma_import_error_stays(list: Seq<JsonView>, n: nat, m: nat)
    requires
        n <= m,
        import_entries(list, n).1 is Some,
    ensures
        import_entries(list, m) == import_entries(list, n),
    decreases m,
{
    if n < m {
        lemma_import_error_stays(list, n, (m - 1) as nat);
    }
}

/// What the import of a document writes.
pub fn plan_import(data: &Json) -> (r: ImportPlan)
    ensures
        r@ == import_plan(data@),
{
    let total: u64 = match data.get_u64("total") {
        Some(t) => t,
        None => 0,
    };
    let mut entries: Vec<DbEntry> = Vec::new();
    assert(entry_views(entries@) =~= Seq::empty());
    let list = match data.get_list("entries") {
        Some(l) => l,
        None => {
            return ImportPlan { total, entries, error: Some(ImportError::NoEntries) };
        },
    };
    let ghost all = json_list_view(list@);
    for i in 0..list.len()
        invariant
            all == json_list_view(list@),
            as_list(member(data@, "entries"@)) == Some(all),
            total == import_plan(data@).total,
            import_entries(all, i as nat) == (
                entry_views(entries@),
                None::<ImportErrorView>,
            ),
    {
        assert(all[i as int] == list@[i as int]@);
        match read_entry(&list[i]) {
            Ok(e) => {
                let ghost before = entry_views(entries@);
                entries.push(e);
                assert(entry_views(entries@) =~= before.push(e@));
            },
            Err(e) => {
                proof {
                    lemma_import_error_stays(all, (i + 1) as nat, all.len());
                }
                return ImportPlan { total, entries, error: Some(e) };
            },
        }
    }
    ImportPlan { total, entries, error: None }
}

/// What the import of a text writes.
pub fn plan_text_import(text: &str) -> (r: ImportPlan)
    ensures
        r@ == import_text_plan(text@),
{
    match parse_json(text) {
        Ok(data) => plan_import(&data),
        Err(e) => {
            let entries: Vec<DbEntry> = Vec::new();
            assert(entry_views(entries@) =~= Seq::empty());
            ImportPlan { total: 0, entries, error: Some(ImportError::Json(e)) }
        },
    }
}

/// An entry to be exported.
pub struct Export {
    pub key: Vec<u8>,
    pub value: Vec<u8>,
    pub label: Label,
}

impl View for Export {
    type V = ExportView;

    open spec fn view(&self) -> ExportView {
        ExportView {
            key: self.key@,
            value: self.value@,
            identifier: label_view(self.label),
        }
    }
}

/// What exports hold.
pub open spec fn export_views(xs: Seq<Export>) -> Seq<ExportView> {
    xs.map_values(|x: Export| x@)
}

/// The entries of exports.
pub open spec fn exported_entries(xs: Seq<ExportView>) -> Seq<EntryView> {
    xs.map_values(|x: ExportView| EntryView { key: x.key, value: x.value })
}

/// Exports in a document.
pub open spec fn entries_json(xs: Seq<ExportView>) -> Seq<JsonView> {
    xs.map_values(|x: ExportView| entry_json(x))
}

/// The document of exported actors.
pub open spec fn actor_document(xs: Seq<ExportView>) -> JsonView {
    JsonView::Object(
        seq![
            ("entries"@, JsonView::List(entries_json(xs))),
            ("total"@, JsonView::Unsigned(xs.len() as u64)),
        ],
    )
}

/// The lowest block of an exported rectangle.
pub struct OriginView {
    pub x: int,
    pub z: int,
}

/// The document of exported chunks: the chunks, the entries, and the lowest block.
pub open spec fn chunk_document(
    chunks: Seq<Seq<char>>,
    origin: OriginView,
    xs: Seq<ExportView>,
) -> JsonView {
    JsonView::Object(
        seq![
            ("chunks"@, JsonView::List(chunks.map_values(|c: Seq<char>| JsonView::Text(c)))),
            ("entries"@, JsonView::List(entries_json(xs))),
            (
                "origin"@,
                JsonView::Object(
                    seq![
                        ("x"@, int_json(origin.x as i64)),
                        ("z"@, int_json(origin.z as i64)),
                    ],
                ),
            ),
            ("total"@, JsonView::Unsigned(xs.len() as u64)),
        ],
    )
}

/// The plan that imports exports.
pub open spec fn plan_of(xs: Seq<ExportView>) -> PlanView {
    PlanView { total: xs.len() as u64, entries: exported_entries(xs), error: None }
}

proof fn lemma_first_letters_order(a: Seq<char>, b: Seq<char>)
    requires
        a.len() > 0,
        b.len() > 0,
        (a[0] as u32) < (b[0] as u32),
    ensures
        text_before(a, b),
{
    assert(a.take(0) =~= b.take(0));
    assert(text_differs_at(a, b, 0));
}

proof fn lemma_names()
    ensures
        text_before("identifier"@, "key_hex"@),
        text_before("key_hex"@, "value_base64"@),
        text_before("entries"@, "total"@),
        text_before("chunks"@, "entries"@),
        text_before("entries"@, "origin"@),
        text_before("origin"@, "total"@),
        text_before("x"@, "z"@),
        "identifier"@ != "key_hex"@,
        "identifier"@ != "value_base64"@,
        "key_hex"@ != "value_base64"@,
        "entries"@ != "total"@,
        "chunks"@ != "entries"@,
        "chunks"@ != "origin"@,
        "chunks"@ != "total"@,
        "entries"@ != "origin"@,
        "origin"@ != "total"@,
        "x"@ != "z"@,
{
    reveal_strlit("identifier");
    reveal_strlit("key_hex");
    reveal_strlit("value_base64");
    reveal_strlit("entries");
    reveal_strlit("total");
    reveal_strlit("chunks");
    reveal_strlit("origin");
    reveal_strlit("x");
    reveal_strlit("z");
    lemma_first_letters_order("identifier"@, "key_hex"@);
    lemma_first_letters_order("key_hex"@, "value_base64"@);
    lemma_first_letters_order("entries"@, "total"@);
    lemma_first_letters_order("chunks"@, "entries"@);
    lemma_first_letters_order("entries"@, "origin"@);
    lemma_first_letters_order("origin"@, "total"@);
    lemma_first_letters_order("x"@, "z"@);
    assert("identifier"@[0] != "key_hex"@[0]);
    assert("identifier"@[0] != "value_base64"@[0]);
    assert("key_hex"@[0] != "value_base64"@[0]);
    assert("entries"@[0] != "total"@[0]);
    assert("chunks"@[0] != "entries"@[0]);
    assert("chunks"@[0] != "origin"@[0]);
    assert("chunks"@[0] != "total"@[0]);
    assert("entries"@[0] != "origin"@[0]);
    assert("origin"@[0] != "total"@[0]);
    assert("x"@[0] != "z"@[0]);
}

/// The first entry of an object that does not have a name can be passed over.
proof fn lemma_field_next(o: Seq<(Seq<char>, JsonView)>, name: Seq<char>)
    requires
        o.len() > 0,
        o[0].0 != name,
    ensures
        field(o, name) == field(o.skip(1), name),
{
}

/// An exported entry is a document, and imports as the entry.
proof fn lemma_entry_json(x: ExportView, depth: nat)
    requires
        depth > 0,
        base64_bytes(base64_text(x.value)) == restored(x.value),
    ensures
        is_document(entry_json(x), depth),
        import_entry(entry_json(x)) == Ok::<EntryView, ImportErrorView>(
            EntryView { key: x.key, value: x.value },
        ),
{
    lemma_names();
    law_hex_round_trip(x.key);
    let pair = seq![
        ("key_hex"@, JsonView::Text(hex_text(x.key))),
        ("value_base64"@, JsonView::Text(base64_text(x.value))),
    ];
    assert(field(pair, "key_hex"@) == Some(JsonView::Text(hex_text(x.key))));
    lemma_field_next(pair, "value_base64"@);
    assert(pair.skip(1)[0] == pair[1]);
    assert(field(pair, "value_base64"@) == Some(JsonView::Text(base64_text(x.value))));
    let o = entry_json(x)->Object_0;
    if x.identifier is Some {
        assert(o.skip(1) =~= pair);
        lemma_field_next(o, "key_hex"@);
        lemma_field_next(o, "value_base64"@);
    }
    let names = o.map_values(|e: (Seq<char>, JsonView)| e.0);
    assert forall|i: int| 0 <= i < names.len() - 1 implies text_before(
        #[trigger] names[i],
        names[i + 1],
    ) by {
        if x.identifier is Some {
            assert(names[0] == "identifier"@ && names[1] == "key_hex"@ && names[2]
                == "value_base64"@);
        } else {
            assert(names[0] == "key_hex"@ && names[1] == "value_base64"@);
        }
    }
    assert forall|i: int| 0 <= i < o.len() implies is_document(
        (#[trigger] o[i]).1,
        (depth - 1) as nat,
    ) by {
    }
}

/// Whether the values of exports survive base64.
spec fn values_survive(xs: Seq<ExportView>) -> bool {
    forall|k: int|
        0 <= k < xs.len() ==> base64_bytes(base64_text((#[trigger] xs[k]).value)) == restored(
            xs[k].value,
        )
}

proof fn lemma_entries_import(xs: Seq<ExportView>, n: nat)
    requires
        n <= xs.len(),
        values_survive(xs),
    ensures
        import_entries(entries_json(xs), n) == (
            exported_entries(xs.take(n as int)),
            None::<ImportErrorView>,
        ),
    decreases n,
{
    if n > 0 {
        lemma_entries_import(xs, (n - 1) as nat);
        lemma_entry_json(xs[n - 1], 1);
        assert(entries_json(xs)[n - 1] == entry_json(xs[n - 1]));
        assert(exported_entries(xs.take(n as int)) =~= exported_entries(xs.take(n - 1)).push(
            EntryView { key: xs[n - 1].key, value: xs[n - 1].value },
        ));
    } else {
        assert(exported_entries(xs.take(0)) =~= Seq::empty());
    }
}

proof fn lemma_entries_document(xs: Seq<ExportView>, depth: nat)
    requires
        depth > 1,
        values_survive(xs),
    ensures
        is_document(JsonView::List(entries_json(xs)), depth),
{
    let l = entries_json(xs);
    assert forall|i: int| 0 <= i < l.len() implies is_document(
        #[trigger] l[i],
        (depth - 1) as nat,
    ) by {
        lemma_entry_json(xs[i], (depth - 1) as nat);
    }
}

/// The document of exported actors is one, and imports as the exports.
proof fn lemma_actor_document(xs: Seq<ExportView>)
    requires
        values_survive(xs),
        xs.len() <= u64::MAX,
    ensures
        is_document(actor_document(xs), 100),
        import_plan(actor_document(xs)) == plan_of(xs),
{
    lemma_names();
    lemma_entries_document(xs, 99);
    let doc = actor_document(xs);
    let o = doc->Object_0;
    let names = o.map_values(|e: (Seq<char>, JsonView)| e.0);
    assert(names[0] == "entries"@ && names[1] == "total"@);
    assert(ascending_names(names));
    assert forall|i: int| 0 <= i < o.len() implies is_document((#[trigger] o[i]).1, 99) by {
    }
    assert(field(o, "entries"@) == Some(JsonView::List(entries_json(xs))));
    lemma_field_next(o, "total"@);
    assert(o.skip(1)[0] == o[1]);
    assert(field(o, "total"@) == Some(JsonView::Unsigned(xs.len() as u64)));
    lemma_entries_import(xs, xs.len());
    assert(xs.take(xs.len() as int) =~= xs);
    assert(entries_json(xs).len() == xs.len());
}

fn label_json(label: &Label) -> (r: Option<Json>)
    ensures
        match (label_view(*label), r) {
            (None, None) => true,
            (Some(None), Some(j)) => j@ == JsonView::Null,
            (Some(Some(s)), Some(j)) => j@ == JsonView::Text(s),
            _ => false,
        },
{
    match label {
        Label::Absent => None,
        Label::Unknown => Some(Json::Null),
        Label::Named(s) => Some(Json::Text(s.clone())),
    }
}

fn entry_to_json(x: &Export) -> (r: Json)
    ensures
        r@ == entry_json(x@),
        base64_bytes(base64_text(x@.value)) == restored(x@.value),
{
    let mut o: Vec<(String, Json)> = Vec::new();
    if let Some(j) = label_json(&x.label) {
        o.push(("identifier".to_owned(), j));
    }
    o.push(("key_hex".to_owned(), Json::Text(hex_encode(x.key.as_slice()))));
    o.push(("value_base64".to_owned(), Json::Text(base64_encode(x.value.as_slice()))));
    assert(json_object_view(o@) =~= entry_json(x@)->Object_0);
    Json::Object(o)
}

fn entries_to_json(xs: &Vec<Export>) -> (r: Vec<Json>)
    ensures
        json_list_view(r@) == entries_json(export_views(xs@)),
        values_survive(export_views(xs@)),
{
    let ghost views = export_views(xs@);
    let mut out: Vec<Json> = Vec::new();
    for i in 0..xs.len()
        invariant
            views == export_views(xs@),
            out@.len() == i,
            forall|k: int| 0 <= k < i ==> (#[trigger] out@[k])@ == entry_json(views[k]),
            forall|k: int|
                0 <= k < i ==> base64_bytes(base64_text((#[trigger] views[k]).value)) == restored(
                    views[k].value,
                ),
    {
        out.push(entry_to_json(&xs[i]));
        assert(views[i as int] == xs@[i as int]@);
    }
    assert(json_list_view(out@) =~= entries_json(views));
    out
}

/// The text of the document of exported actors. Its import writes the exports.
pub fn render_actors(xs: &Vec<Export>) -> (r: String)
    ensures
        pretty_text(actor_document(export_views(xs@))) == Ok::<Seq<char>, Seq<char>>(r@),
        import_text_plan(r@) == plan_of(export_views(xs@)),
{
    let ghost views = export_views(xs@);
    let list = entries_to_json(xs);
    let mut o: Vec<(String, Json)> = Vec::new();
    o.push(("entries".to_owned(), Json::List(list)));
    o.push(("total".to_owned(), Json::Unsigned(xs.len() as u64)));
    assert(json_object_view(o@) =~= actor_document(views)->Object_0);
    let doc = Json::Object(o);
    proof {
        lemma_actor_document(views);
    }
    match render_json(doc) {
        Ok(s) => s,
        Err(e) => e,
    }
}

/// The document of exported chunks is one, and imports as the exports.
proof fn lemma_chunk_document(chunks: Seq<Seq<char>>, origin: OriginView, xs: Seq<ExportView>)
    requires
        values_survive(xs),
        xs.len() <= u64::MAX,
    ensures
        is_document(chunk_document(chunks, origin, xs), 100),
        import_plan(chunk_document(chunks, origin, xs)) == plan_of(xs),
{
    lemma_names();
    lemma_entries_document(xs, 99);
    let doc = chunk_document(chunks, origin, xs);
    let o = doc->Object_0;
    let names = o.map_values(|e: (Seq<char>, JsonView)| e.0);
    assert(names[0] == "chunks"@ && names[1] == "entries"@ && names[2] == "origin"@ && names[3]
        == "total"@);
    assert(ascending_names(names));
    let place = o[2].1;
    let corner = place->Object_0;
    let axes = corner.map_values(|e: (Seq<char>, JsonView)| e.0);
    assert(axes[0] == "x"@ && axes[1] == "z"@);
    assert(ascending_names(axes));
    assert(is_document(place, 99)) by {
        assert forall|i: int| 0 <= i < corner.len() implies is_document(
            (#[trigger] corner[i]).1,
            98,
        ) by {
        }
    }
    assert(is_document(o[0].1, 99)) by {
        let l = o[0].1->List_0;
        assert forall|i: int| 0 <= i < l.len() implies is_document(#[trigger] l[i], 98) by {
        }
    }
    assert forall|i: int| 0 <= i < o.len() implies is_document((#[trigger] o[i]).1, 99) by {
    }
    lemma_field_next(o, "entries"@);
    assert(o.skip(1)[0] == o[1]);
    assert(field(o, "entries"@) == Some(JsonView::List(entries_json(xs))));
    lemma_field_next(o, "total"@);
    lemma_field_next(o.skip(1), "total"@);
    assert(o.skip(1).skip(1)[0] == o[2]);
    lemma_field_next(o.skip(1).skip(1), "total"@);
    assert(o.skip(1).skip(1).skip(1)[0] == o[3]);
    assert(field(o, "total"@) == Some(JsonView::Unsigned(xs.len() as u64)));
    lemma_entries_import(xs, xs.len());
    assert(xs.take(xs.len() as int) =~= xs);
    assert(entries_json(xs).len() == xs.len());
}

fn number_json(v: i64) -> (r: Json)
    ensures
        r@ == int_json(v),
{
    if v >= 0 {
        Json::Unsigned(v as u64)
    } else {
        Json::Negative(v)
    }
}

/// The text of the document of exported chunks. Its import writes the exports.
pub fn render_chunks(chunks: &Vec<String>, x: i64, z: i64, xs: &Vec<Export>) -> (r: String)
    ensures
        pretty_text(
            chunk_document(
                text_views(chunks@),
                (OriginView { x: x as int, z: z as int }),
                export_views(xs@),
            ),
        ) == Ok::<Seq<char>, Seq<char>>(r@),
        json_text(r@) == Ok::<JsonView, Seq<char>>(
            chunk_document(
                text_views(chunks@),
                (OriginView { x: x as int, z: z as int }),
                export_views(xs@),
            ),
        ),
        import_text_plan(r@) == plan_of(export_views(xs@)),
{
    let ghost views = export_views(xs@);
    let ghost origin = OriginView { x: x as int, z: z as int };
    let ghost names = text_views(chunks@);
    let ghost doc_view = chunk_document(names, origin, views);
    let list = entries_to_json(xs);
    let mut texts: Vec<Json> = Vec::new();
    for i in 0..chunks.len()
        invariant
            texts@.len() == i,
            forall|k: int| 0 <= k < i ==> (#[trigger] texts@[k])@ == JsonView::Text(chunks@[k]@),
    {
        texts.push(Json::Text(chunks[i].clone()));
    }
    assert(json_list_view(texts@) =~= names.map_values(|c: Seq<char>| JsonView::Text(c)));
    let mut corner: Vec<(String, Json)> = Vec::new();
    corner.push(("x".to_owned(), number_json(x)));
    corner.push(("z".to_owned(), number_json(z)));
    assert(json_object_view(corner@) =~= doc_view->Object_0[2].1->Object_0);
    let mut o: Vec<(String, Json)> = Vec::new();
    o.push(("chunks".to_owned(), Json::List(texts)));
    o.push(("entries".to_owned(), Json::List(list)));
    o.push(("origin".to_owned(), Json::Object(corner)));
    o.push(("total".to_owned(), Json::Unsigned(xs.len() as u64)));
    assert(json_object_view(o@) =~= doc_view->Object_0);
    let doc = Json::Object(o);
    proof {
        lemma_chunk_document(names, origin, views);
    }
    match render_json(doc) {
        Ok(s) => s,
        Err(e) => e,
    }
}

/// What kind of data an exported entry holds.
#[derive(Clone, Copy, PartialEq, Eq, Structural, Debug)]
pub enum ExportKind {
    Actor,
    Digest,
    Player,
}

/// Whether an entry is exported with the actors of a world, and as what.
pub open spec fn export_kind(e: EntryView, tag: Option<CompoundView>, no_players: bool) -> Option<
    ExportKind,
> {
    if key_starts(e.key, "actorprefix"@) {
        if no_players && is_player_actor(tag) {
            None
        } else {
            Some(ExportKind::Actor)
        }
    } else if key_starts(e.key, "digp"@) {
        Some(ExportKind::Digest)
    } else if is_player_data_key(e.key) && !no_players {
        Some(ExportKind::Player)
    } else {
        None
    }
}

/// The name of the type of an actor, where it has one.
pub open spec fn identifier_of(tag: Option<CompoundView>) -> Option<Seq<char>> {
    match tag {
        Some(c) => match lookup_text(c, "identifier"@) {
            Some(s) => Some(s),
            None => lookup_text(c, "id"@),
        },
        None => None,
    }
}

/// An entry as it is exported with the actors of a world.
pub open spec fn export_of(e: EntryView, tag: Option<CompoundView>) -> ExportView {
    ExportView {
        key: e.key,
        value: e.value,
        identifier: if key_starts(e.key, "actorprefix"@) {
            Some(identifier_of(tag))
        } else {
            None
        },
    }
}

/// What is exported of the first `n` entries with the actors of a world.
pub open spec fn exports(
    entries: Seq<EntryView>,
    tags: Seq<Option<CompoundView>>,
    no_players: bool,
    n: nat,
) -> Seq<ExportView>
    decreases n,
{
    if n == 0 {
        Seq::empty()
    } else {
        let rest = exports(entries, tags, no_players, (n - 1) as nat);
        if export_kind(entries[n - 1], tags[n - 1], no_players) is Some {
            rest.push(export_of(entries[n - 1], tags[n - 1]))
        } else {
            rest
        }
    }
}

/// How many of the first `n` entries are exported as a kind of data.
pub open spec fn kind_total(
    entries: Seq<EntryView>,
    tags: Seq<Option<CompoundView>>,
    no_players: bool,
    kind: ExportKind,
    n: nat,
) -> nat
    decreases n,
{
    if n == 0 {
        0
    } else {
        kind_total(entries, tags, no_players, kind, (n - 1) as nat) + if export_kind(
            entries[n - 1],
            tags[n - 1],
            no_players,
        ) == Some(kind) {
            1nat
        } else {
            0nat
        }
    }
}

/// Whether compounds are what a decoder returns on the values of the actors among entries. There
/// is none for any other entry.
pub open spec fn decodes_actors<F: Fn(&[u8]) -> Option<Decoded>>(
    decode: F,
    entries: Seq<EntryView>,
    tags: Seq<Option<CompoundView>>,
) -> bool {
    &&& tags.len() == entries.len()
    &&& forall|i: int|
        0 <= i < tags.len() ==> if key_starts(entries[i].key, "actorprefix"@) {
            decodes(decode, entries[i].value, #[trigger] tags[i])
        } else {
            tags[i] is None
        }
}

/// The actors of a world, exported.
pub struct ActorExport {
    /// The text of the document.
    pub text: String,
    /// The number of entries.
    pub total: usize,
    pub actors: usize,
    pub digests: usize,
    pub players: usize,
}

fn label_of_actor(tag: &Option<CompoundTag>) -> (r: Label)
    ensures
        label_view(r) == Some(identifier_of(optional_view(*tag))),
{
    match tag {
        Some(c) => match c.get_text("identifier") {
            Some(s) => Label::Named(s.to_owned()),
            None => match c.get_text("id") {
                Some(s) => Label::Named(s.to_owned()),
                None => Label::Unknown,
            },
        },
        None => Label::Unknown,
    }
}

/// What an optional compound holds.
pub open spec fn optional_view(tag: Option<CompoundTag>) -> Option<CompoundView> {
    match tag {
        Some(c) => Some(c@),
        None => None,
    }
}

/// Exports the actors of a world with their digests and, unless they are left out, the players.
pub fn export_actors<F: Fn(&[u8]) -> Option<Decoded>>(
    entries: &Vec<DbEntry>,
    no_players: bool,
    decode: &F,
) -> (r: ActorExport)
    requires
        is_decoder(*decode),
    ensures
        exists|tags: Seq<Option<CompoundView>>|
            #[trigger] decodes_actors(*decode, entry_views(entries@), tags) && exports_as(
                entry_views(entries@),
                tags,
                no_players,
                r,
            ),
{
    let ghost views = entry_views(entries@);
    let ghost mut tags: Seq<Option<CompoundView>> = Seq::empty();
    let mut xs: Vec<Export> = Vec::new();
    let mut actors: usize = 0;
    let mut digests: usize = 0;
    let mut players: usize = 0;
    assert(export_views(xs@) =~= exports(views, tags, no_players, 0));
    for i in 0..entries.len()
        invariant
            is_decoder(*decode),
            views == entry_views(entries@),
            decodes_actors(*decode, views.take(i as int), tags),
            export_views(xs@) == exports(views, tags, no_players, i as nat),
            actors + digests + players == xs@.len(),
            xs@.len() <= i,
            actors == kind_total(views, tags, no_players, ExportKind::Actor, i as nat),
            digests == kind_total(views, tags, no_players, ExportKind::Digest, i as nat),
            players == kind_total(views, tags, no_players, ExportKind::Player, i as nat),
    {
        let e = &entries[i];
        let ghost before = export_views(xs@);
        let ghost old_tags = tags;
        assert(views[i as int] == e@);
        let is_actor = key_starts_with(e.key.as_slice(), "actorprefix");
        let tag = if is_actor {
            decode_one(decode, e.value.as_slice())
        } else {
            None
        };
        proof {
            tags = tags.push(optional_view(tag));
            let n = i as nat;
            lemma_exports_ignore_rest(views, old_tags, tags, no_players, n);
            lemma_totals_ignore_rest(views, old_tags, tags, no_players, ExportKind::Actor, n);
            lemma_totals_ignore_rest(views, old_tags, tags, no_players, ExportKind::Digest, n);
            lemma_totals_ignore_rest(views, old_tags, tags, no_players, ExportKind::Player, n);
            assert(tags[i as int] == optional_view(tag));
            assert forall|k: int| 0 <= k < tags.len() implies if key_starts(
                views.take(i + 1)[k].key,
                "actorprefix"@,
            ) {
                decodes(*decode, views.take(i + 1)[k].value, #[trigger] tags[k])
            } else {
                tags[k] is None
            } by {
                if k < i {
                    assert(tags[k] == old_tags[k]);
                    assert(views.take(i as int)[k] == views[k]);
                }
            }
        }
        if is_actor {
            if !(no_players && player_actor(&tag)) {
                actors += 1;
                xs.push(
                    Export {
                        key: copy_bytes(e.key.as_slice()),
                        value: copy_bytes(e.value.as_slice()),
                        label: label_of_actor(&tag),
                    },
                );
                assert(export_views(xs@) =~= before.push(export_of(views[i as int], tags[i as int])));
            }
        } else if key_starts_with(e.key.as_slice(), "digp") {
            digests += 1;
            xs.push(
                Export {
                    key: copy_bytes(e.key.as_slice()),
                    value: copy_bytes(e.value.as_slice()),
                    label: Label::Absent,
                },
            );
            assert(export_views(xs@) =~= before.push(export_of(views[i as int], tags[i as int])));
        } else if player_data_key(e.key.as_slice()) && !no_players {
            players += 1;
            xs.push(
                Export {
                    key: copy_bytes(e.key.as_slice()),
                    value: copy_bytes(e.value.as_slice()),
                    label: Label::Absent,
                },
            );
            assert(export_views(xs@) =~= before.push(export_of(views[i as int], tags[i as int])));
        }
    }
    assert(views.take(entries@.len() as int) =~= views);
    let text = render_actors(&xs);
    ActorExport { text, total: xs.len(), actors, digests, players }
}

/// Whether an export is that of given entries, with given compounds for the actors: the text is
/// the document of the exports, the numbers are theirs, and its import writes them.
pub open spec fn exports_as(
    entries: Seq<EntryView>,
    tags: Seq<Option<CompoundView>>,
    no_players: bool,
    r: ActorExport,
) -> bool {
    let xs = exports(entries, tags, no_players, entries.len());
    &&& pretty_text(actor_document(xs)) == Ok::<Seq<char>, Seq<char>>(r.text@)
    &&& import_text_plan(r.text@) == plan_of(xs)
    &&& r.total == xs.len()
    &&& r.total == r.actors + r.digests + r.players
    &&& r.actors == kind_total(entries, tags, no_players, ExportKind::Actor, entries.len())
    &&& r.digests == kind_total(entries, tags, no_players, ExportKind::Digest, entries.len())
    &&& r.players == kind_total(entries, tags, no_players, ExportKind::Player, entries.len())
}

proof fn lemma_totals_ignore_rest(
    entries: Seq<EntryView>,
    a: Seq<Option<CompoundView>>,
    b: Seq<Option<CompoundView>>,
    no_players: bool,
    kind: ExportKind,
    n: nat,
)
    requires
        n <= a.len() <= b.len(),
        forall|k: int| 0 <= k < n ==> a[k] == b[k],
    ensures
        kind_total(entries, a, no_players, kind, n) == kind_total(
            entries,
            b,
            no_players,
            kind,
            n,
        ),
    decreases n,
{
    if n > 0 {
        lemma_totals_ignore_rest(entries, a, b, no_players, kind, (n - 1) as nat);
    }
}

proof fn lemma_exports_ignore_rest(
    entries: Seq<EntryView>,
    a: Seq<Option<CompoundView>>,
    b: Seq<Option<CompoundView>>,
    no_players: bool,
    n: nat,
)
    requires
        n <= a.len() <= b.len(),
        forall|k: int| 0 <= k < n ==> a[k] == b[k],
    ensures
        exports(entries, a, no_players, n) == exports(entries, b, no_players, n),
    decreases n,
{
    if n > 0 {
        lemma_exports_ignore_rest(entries, a, b, no_players, (n - 1) as nat);
    }
}

/// What is exported of entries is every entry that has a kind, and nothing else.
proof fn lemma_exports_exact(
    entries: Seq<EntryView>,
    tags: Seq<Option<CompoundView>>,
    no_players: bool,
    n: nat,
    e: EntryView,
)
    requires
        n <= entries.len(),
        entries.len() == tags.len(),
    ensures
        exported_entries(exports(entries, tags, no_players, n)).contains(e) <==> exists|i: int|
            0 <= i < n && #[trigger] entries[i] == e && export_kind(
                entries[i],
                tags[i],
                no_players,
            ) is Some,
    decreases n,
{
    let all = exported_entries(exports(entries, tags, no_players, n));
    if n > 0 {
        let m = (n - 1) as nat;
        lemma_exports_exact(entries, tags, no_players, m, e);
        let rest = exported_entries(exports(entries, tags, no_players, m));
        if all.contains(e) {
            let j = choose|j: int| 0 <= j < all.len() && all[j] == e;
            if j < rest.len() {
                assert(rest[j] == e);
                assert(rest.contains(e));
            } else {
                assert(entries[m as int] == e);
            }
        }
        if exists|i: int|
            0 <= i < n && #[trigger] entries[i] == e && export_kind(entries[i], tags[i], no_players) is Some {
            let i = choose|i: int|
                0 <= i < n && #[trigger] entries[i] == e && export_kind(
                    entries[i],
                    tags[i],
                    no_players,
                ) is Some;
            if i < m {
                assert(rest.contains(e));
                let j = choose|j: int| 0 <= j < rest.len() && rest[j] == e;
                assert(all[j] == e);
            } else {
                assert(all[rest.len() as int] == e);
            }
        }
    }
}

/// Actors and players can be moved between worlds: after the import of an export every entry
/// that was exported has in the target the value that it has in the source.
pub proof fn law_actor_migration(
    entries: Seq<EntryView>,
    tags: Seq<Option<CompoundView>>,
    no_players: bool,
    target: Content,
    i: int,
)
    requires
        in_key_order(entries),
        entries.len() == tags.len(),
        0 <= i < entries.len(),
        export_kind(entries[i], tags[i], no_players) is Some,
    ensures
        ({
            let moved = plan_of(exports(entries, tags, no_players, entries.len())).entries;
            let after = imported(target, moved, false, moved.len());
            after.contains_key(entries[i].key) && after[entries[i].key] == entries[i].value
        }),
{
    let n = entries.len();
    let e = entries[i];
    let moved = exported_entries(exports(entries, tags, no_players, n));
    lemma_exports_exact(entries, tags, no_players, n, e);
    assert(moved.take(moved.len() as int) =~= moved);
    assert forall|j: int| 0 <= j < moved.len() && (#[trigger] moved[j]).key == e.key implies moved[j]
        == e by {
        assert(moved.contains(moved[j]));
        lemma_exports_exact(entries, tags, no_players, n, moved[j]);
        lemma_key_tells_entry(entries, moved[j], e);
    }
    law_migration(moved, target, moved.len(), e);
}

/// An export without players holds actors and digests only, and no actor that is a player.
pub proof fn law_no_players(
    entries: Seq<EntryView>,
    tags: Seq<Option<CompoundView>>,
    e: EntryView,
)
    requires
        entries.len() == tags.len(),
        exported_entries(exports(entries, tags, true, entries.len())).contains(e),
    ensures
        exists|i: int|
            0 <= i < entries.len() && #[trigger] entries[i] == e && (key_starts(
                e.key,
                "actorprefix"@,
            ) && !is_player_actor(tags[i]) || key_starts(e.key, "digp"@)),
{
    lemma_exports_exact(entries, tags, true, entries.len(), e);
    let i = choose|i: int|
        0 <= i < entries.len() && #[trigger] entries[i] == e && export_kind(
            entries[i],
            tags[i],
            true,
        ) is Some;
    assert(entries[i] == e);
}

/// Whether an entry is one that an export of actors holds: an actor, though without players none
/// whose identifier is that of a player, a digest, or with players the data of a player.
pub open spec fn is_wanted(key: Seq<u8>, tag: Option<CompoundView>, no_players: bool) -> bool {
    ||| key_starts(key, "actorprefix"@) && !(no_players && (tag matches Some(c) && lookup_text(
        c,
        "identifier"@,
    ) == Some("minecraft:player"@)))
    ||| key_starts(key, "digp"@) && !key_starts(key, "actorprefix"@)
    ||| !no_players && (key_starts(key, "player_"@) || key_starts(key, "~"@)) && !key_starts(
        key,
        "actorprefix"@,
    ) && !key_starts(key, "digp"@) && !is_chunk_key_bytes(key)
}

/// What is known of the type of an actor: its `identifier`, or else its `id`.
pub open spec fn shows_type(tag: Option<CompoundView>, name: Option<Seq<char>>) -> bool {
    match tag {
        None => name is None,
        Some(c) => name == lookup_text(c, "identifier"@) && name is Some || lookup_text(
            c,
            "identifier"@,
        ) is None && name == lookup_text(c, "id"@),
    }
}

/// An export of actors holds the entries that it should, all of them, in their order, each with its
/// own key and value. Actors are exported with their type, and other entries without one.
pub proof fn law_actor_export(
    entries: Seq<EntryView>,
    tags: Seq<Option<CompoundView>>,
    no_players: bool,
) -> (places: Seq<int>)
    requires
        entries.len() == tags.len(),
    ensures
        selects(
            places,
            entries.len() as int,
            |i: int| is_wanted(entries[i].key, tags[i], no_players),
        ),
        places.len() == exports(entries, tags, no_players, entries.len()).len(),
        forall|k: int|
            0 <= k < places.len() ==> {
                let x = #[trigger] exports(entries, tags, no_players, entries.len())[k];
                let e = entries[places[k]];
                &&& x.key == e.key
                &&& x.value == e.value
                &&& match x.identifier {
                    Some(name) => key_starts(e.key, "actorprefix"@) && shows_type(
                        tags[places[k]],
                        name,
                    ),
                    None => !key_starts(e.key, "actorprefix"@),
                }
            },
{
    lemma_export_places(entries, tags, no_players, entries.len())
}

proof fn lemma_export_places(
    entries: Seq<EntryView>,
    tags: Seq<Option<CompoundView>>,
    no_players: bool,
    n: nat,
) -> (places: Seq<int>)
    requires
        entries.len() == tags.len(),
        n <= entries.len(),
    ensures
        selects(places, n as int, |i: int| is_wanted(entries[i].key, tags[i], no_players)),
        places.len() == exports(entries, tags, no_players, n).len(),
        forall|k: int|
            0 <= k < places.len() ==> {
                let x = #[trigger] exports(entries, tags, no_players, n)[k];
                let e = entries[places[k]];
                &&& x.key == e.key
                &&& x.value == e.value
                &&& match x.identifier {
                    Some(name) => key_starts(e.key, "actorprefix"@) && shows_type(
                        tags[places[k]],
                        name,
                    ),
                    None => !key_starts(e.key, "actorprefix"@),
                }
            },
    decreases n,
{
    let wanted = |i: int| is_wanted(entries[i].key, tags[i], no_players);
    if n == 0 {
        lemma_select_none(wanted);
        Seq::empty()
    } else {
        let m = n - 1;
        let before = lemma_export_places(entries, tags, no_players, m as nat);
        lemma_select_next(before, m, wanted);
        let some = exports(entries, tags, no_players, m as nat);
        let all = exports(entries, tags, no_players, n);
        if wanted(m) {
            assert(all == some.push(export_of(entries[m], tags[m])));
            let places = before.push(m);
            assert forall|k: int| 0 <= k < places.len() implies {
                let x = #[trigger] all[k];
                let e = entries[places[k]];
                &&& x.key == e.key
                &&& x.value == e.value
                &&& match x.identifier {
                    Some(name) => key_starts(e.key, "actorprefix"@) && shows_type(
                        tags[places[k]],
                        name,
                    ),
                    None => !key_starts(e.key, "actorprefix"@),
                }
            } by {
                if k < some.len() {
                    assert(all[k] == some[k]);
                    assert(places[k] == before[k]);
                }
            }
            places
        } else {
            assert(all == some);
            before
        }
    }
}

/// The numbers of an export are those of its actors, its digests and its players.
pub proof fn law_export_numbers(
    entries: Seq<EntryView>,
    tags: Seq<Option<CompoundView>>,
    no_players: bool,
    kind: ExportKind,
) -> (places: Seq<int>)
    requires
        entries.len() == tags.len(),
    ensures
        selects(
            places,
            entries.len() as int,
            |i: int|
                is_wanted(entries[i].key, tags[i], no_players) && if key_starts(
                    entries[i].key,
                    "actorprefix"@,
                ) {
                    kind == ExportKind::Actor
                } else if key_starts(entries[i].key, "digp"@) {
                    kind == ExportKind::Digest
                } else {
                    kind == ExportKind::Player
                },
        ),
        places.len() == kind_total(entries, tags, no_players, kind, entries.len()),
{
    lemma_number_places(entries, tags, no_players, kind, entries.len())
}

proof fn lemma_number_places(
    entries: Seq<EntryView>,
    tags: Seq<Option<CompoundView>>,
    no_players: bool,
    kind: ExportKind,
    n: nat,
) -> (places: Seq<int>)
    requires
        entries.len() == tags.len(),
        n <= entries.len(),
    ensures
        selects(
            places,
            n as int,
            |i: int|
                is_wanted(entries[i].key, tags[i], no_players) && if key_starts(
                    entries[i].key,
                    "actorprefix"@,
                ) {
                    kind == ExportKind::Actor
                } else if key_starts(entries[i].key, "digp"@) {
                    kind == ExportKind::Digest
                } else {
                    kind == ExportKind::Player
                },
        ),
        places.len() == kind_total(entries, tags, no_players, kind, n),
    decreases n,
{
    let wanted = |i: int|
        is_wanted(entries[i].key, tags[i], no_players) && if key_starts(
            entries[i].key,
            "actorprefix"@,
        ) {
            kind == ExportKind::Actor
        } else if key_starts(entries[i].key, "digp"@) {
            kind == ExportKind::Digest
        } else {
            kind == ExportKind::Player
        };
    if n == 0 {
        lemma_select_none(wanted);
        Seq::empty()
    } else {
        let m = n - 1;
        let before = lemma_number_places(entries, tags, no_players, kind, m as nat);
        lemma_select_next(before, m, wanted);
        if wanted(m) {
            before.push(m)
        } else {
            before
        }
    }
}

/// An exported entry holds its key in hexadecimal under `key_hex` and its value in base64 under
/// `value_base64`. Its type stands under `identifier` where it is known, and null does where it
/// is not.
pub proof fn law_exported_entry(x: ExportView)
    ensures
        as_text(member(entry_json(x), "key_hex"@)) == Some(hex_text(x.key)),
        as_text(member(entry_json(x), "value_base64"@)) == Some(base64_text(x.value)),
        match x.identifier {
            None => member(entry_json(x), "identifier"@) is None,
            Some(None) => member(entry_json(x), "identifier"@) == Some(JsonView::Null),
            Some(Some(s)) => member(entry_json(x), "identifier"@) == Some(JsonView::Text(s)),
        },
{
    lemma_names();
    let o = entry_json(x)->Object_0;
    reveal_with_fuel(field, 4);
    if x.identifier is None {
        assert(o.skip(1)[0] == o[1]);
        assert(o.skip(1).skip(1).len() == 0);
    } else {
        assert(o[0].0 == "identifier"@);
        assert(o.skip(1)[0] == o[1]);
        assert(o.skip(1).skip(1)[0] == o[2]);
    }
}

/// A document of actors holds the entries under `entries`, and their number under `total`.
pub proof fn law_actor_document(xs: Seq<ExportView>)
    ensures
        as_list(member(actor_document(xs), "entries"@)) matches Some(l) && l.len() == xs.len()
            && forall|i: int| 0 <= i < l.len() ==> #[trigger] l[i] == entry_json(xs[i]),
        as_u64(member(actor_document(xs), "total"@)) == Some(xs.len() as u64),
{
    lemma_names();
    let o = actor_document(xs)->Object_0;
    reveal_with_fuel(field, 3);
    assert(o.skip(1)[0] == o[1]);
}

/// A document of chunks holds the names of the chunks under `chunks`, the entries under `entries`,
/// their number under `total`, and under `origin` the coordinates `x` and `z` of its lowest block.
pub proof fn law_chunk_document(chunks: Seq<Seq<char>>, origin: OriginView, xs: Seq<ExportView>)
    requires
        i64::MIN <= origin.x <= i64::MAX,
        i64::MIN <= origin.z <= i64::MAX,
    ensures
        ({
            let d = chunk_document(chunks, origin, xs);
            &&& as_list(member(d, "chunks"@)) matches Some(l) && l.len() == chunks.len() && forall|
                i: int,
            | 0 <= i < l.len() ==> #[trigger] l[i] == JsonView::Text(chunks[i])
            &&& as_list(member(d, "entries"@)) matches Some(l) && l.len() == xs.len() && forall|
                i: int,
            | 0 <= i < l.len() ==> #[trigger] l[i] == entry_json(xs[i])
            &&& as_u64(member(d, "total"@)) == Some(xs.len() as u64)
            &&& member(d, "origin"@) matches Some(o) && as_i64(member(o, "x"@)) == Some(
                origin.x as i64,
            ) && as_i64(member(o, "z"@)) == Some(origin.z as i64)
        }),
{
    lemma_names();
    let o = chunk_document(chunks, origin, xs)->Object_0;
    reveal_with_fuel(field, 5);
    assert(o.skip(1)[0] == o[1]);
    assert(o.skip(1).skip(1)[0] == o[2]);
    assert(o.skip(1).skip(1).skip(1)[0] == o[3]);
    let p = o[2].1->Object_0;
    assert(p.skip(1)[0] == p[1]);
}

/// An import reads the entries of a document in their order, each from the hexadecimal digits under
/// `key_hex` and the base64 under `value_base64`, and stops at the first that has no such key or
/// value. There is no error exactly if all were read.
pub proof fn law_import_plan(data: JsonView, l: Seq<JsonView>)
    requires
        as_list(member(data, "entries"@)) == Some(l),
    ensures
        ({
            let p = import_plan(data);
            &&& p.entries.len() <= l.len()
            &&& p.error is None <==> p.entries.len() == l.len()
            &&& forall|k: int|
                0 <= k < p.entries.len() ==> holds_entry(l[k], #[trigger] p.entries[k])
            &&& p.entries.len() < l.len() ==> forall|e: EntryView|
                !#[trigger] holds_entry(l[p.entries.len() as int], e)
        }),
{
    lemma_import_places(l, l.len());
}

/// Whether an entry of a document holds a key and a value.
pub open spec fn holds_entry(j: JsonView, e: EntryView) -> bool {
    &&& as_text(member(j, "key_hex"@)) matches Some(k) && hex_bytes(k) == Ok::<Seq<u8>, HexError>(
        e.key,
    )
    &&& as_text(member(j, "value_base64"@)) matches Some(v) && base64_bytes(v) == Ok::<
        Seq<u8>,
        Seq<char>,
    >(e.value)
}

proof fn lemma_import_places(l: Seq<JsonView>, n: nat)
    requires
        n <= l.len(),
    ensures
        ({
            let (done, error) = import_entries(l, n);
            &&& done.len() <= n
            &&& error is None <==> done.len() == n
            &&& forall|k: int| 0 <= k < done.len() ==> holds_entry(l[k], #[trigger] done[k])
            &&& done.len() < n ==> forall|e: EntryView|
                !#[trigger] holds_entry(l[done.len() as int], e)
        }),
    decreases n,
{
    if n > 0 {
        lemma_import_places(l, (n - 1) as nat);
        let (done, error) = import_entries(l, (n - 1) as nat);
        let (all, _) = import_entries(l, n);
        if error is None {
            if let Ok(e) = import_entry(l[n - 1]) {
                assert(all == done.push(e));
                assert forall|k: int| 0 <= k < all.len() implies holds_entry(
                    l[k],
                    #[trigger] all[k],
                ) by {
                    if k < done.len() {
                        assert(all[k] == done[k]);
                    }
                }
            } else {
                assert forall|e: EntryView| !#[trigger] holds_entry(l[done.len() as int], e) by {
                    if holds_entry(l[n - 1], e) {
                        assert(import_entry(l[n - 1]) == Ok::<EntryView, ImportErrorView>(e));
                    }
                }
            }
        }
    }
}

} // verus!
