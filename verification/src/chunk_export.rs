//! Export of chunks.

use crate::bytes::copy_bytes;
use crate::import::{imported, law_migration, lemma_key_tells_entry, Content};
use crate::json::{as_i64, as_list, as_u64, json_text, member, pretty_text, JsonView};
use crate::keys::key_chunk;
use crate::regions::{
    all_entries, area_between, area_chunks, chunk_views, collect_area, in_area, is_area, law_area_exact, passes,
    Area, ChunkView, DimFilter,
};
use crate::store::{entry_views, in_key_order, EntryView, Snapshot};
use crate::text::{decimal_text, push_decimal};
use crate::transfer::{
    chunk_document, export_views, exported_entries, import_text_plan, law_chunk_document,
    render_chunks, Export, ExportView, Label, OriginView,
};
use crate::world::text_views;
use vstd::prelude::*;
use vstd::string::StringExecFns;

verus! {

/// The name of a chunk: its coordinates.
pub open spec fn chunk_name(c: ChunkView) -> Seq<char> {
    decimal_text(c.cx as int) + ","@ + decimal_text(c.cz as int)
}

/// The names of chunks.
pub open spec fn chunk_names(chunks: Seq<ChunkView>) -> Seq<Seq<char>> {
    chunks.map_values(|c: ChunkView| chunk_name(c))
}

/// An entry as it is exported with a chunk.
pub open spec fn plain_export(e: EntryView) -> ExportView {
    ExportView { key: e.key, value: e.value, identifier: None }
}

/// Entries as they are exported with chunks.
pub open spec fn plain_exports(entries: Seq<EntryView>) -> Seq<ExportView> {
    entries.map_values(|e: EntryView| plain_export(e))
}

/// The lowest block of a rectangle of chunks.
pub open spec fn area_origin(area: Area) -> OriginView {
    OriginView { x: 16 * area.cx1, z: 16 * area.cz1 }
}

/// The document of the chunks of a rectangle.
pub open spec fn area_document(entries: Seq<EntryView>, filter: DimFilter, area: Area) -> JsonView {
    let chunks = area_chunks(entries, filter, area);
    chunk_document(chunk_names(chunks), area_origin(area), plain_exports(all_entries(chunks)))
}

/// The chunks of a rectangle, exported.
pub struct ChunkExport {
    /// The text of the document.
    pub text: String,
    /// The number of chunks.
    pub chunks: usize,
    /// The number of entries.
    pub total: usize,
}

fn name_of_chunk(cx: i32, cz: i32) -> (r: String)
    ensures
        r@ == decimal_text(cx as int) + ","@ + decimal_text(cz as int),
{
    let mut out = String::new();
    push_decimal(&mut out, cx as i64);
    out.append(",");
    push_decimal(&mut out, cz as i64);
    assert(out@ =~= decimal_text(cx as int) + ","@ + decimal_text(cz as int));
    out
}

/// Exports the chunks of a rectangle that hold anything in the dimension that is meant. The
/// import of the document writes their entries.
pub fn export_chunks(db: &Snapshot, filter: DimFilter, area: Area) -> (r: ChunkExport)
    requires
        db.wf(),
        is_area(area),
    ensures
        pretty_text(area_document(db@, filter, area)) == Ok::<Seq<char>, Seq<char>>(r.text@),
        json_text(r.text@) == Ok::<JsonView, Seq<char>>(area_document(db@, filter, area)),
        import_text_plan(r.text@).error is None,
        import_text_plan(r.text@).entries == all_entries(area_chunks(db@, filter, area)),
        import_text_plan(r.text@).total == r.total,
        r.chunks == area_chunks(db@, filter, area).len(),
        r.total == all_entries(area_chunks(db@, filter, area)).len(),
{
    let chunks = collect_area(db, filter, area);
    let ghost views = chunk_views(chunks@);
    let mut names: Vec<String> = Vec::new();
    let mut xs: Vec<Export> = Vec::new();
    assert(text_views(names@) =~= chunk_names(views.take(0)));
    assert(export_views(xs@) =~= plain_exports(all_entries(views.take(0))));
    for i in 0..chunks.len()
        invariant
            views == chunk_views(chunks@),
            text_views(names@) == chunk_names(views.take(i as int)),
            export_views(xs@) == plain_exports(all_entries(views.take(i as int))),
    {
        let ghost before_names = text_views(names@);
        let ghost before = export_views(xs@);
        let ghost here = views[i as int].entries;
        assert(views.take(i + 1).drop_last() =~= views.take(i as int));
        let name = name_of_chunk(chunks[i].cx, chunks[i].cz);
        names.push(name);
        assert(text_views(names@) =~= before_names.push(chunk_name(views[i as int])));
        assert(text_views(names@) =~= chunk_names(views.take(i + 1)));
        let found = &chunks[i].entries;
        assert(here == entry_views(found@));
        assert(export_views(xs@) =~= before + plain_exports(here.take(0)));
        for j in 0..found.len()
            invariant
                here == entry_views(found@),
                export_views(xs@) == before + plain_exports(here.take(j as int)),
        {
            let ghost so_far = export_views(xs@);
            xs.push(
                Export {
                    key: copy_bytes(found[j].key.as_slice()),
                    value: copy_bytes(found[j].value.as_slice()),
                    label: Label::Absent,
                },
            );
            assert(export_views(xs@) =~= so_far.push(plain_export(here[j as int])));
            assert(export_views(xs@) =~= before + plain_exports(here.take(j + 1)));
        }
        assert(here.take(here.len() as int) =~= here);
        assert(export_views(xs@) =~= plain_exports(all_entries(views.take(i + 1))));
    }
    assert(views.take(chunks@.len() as int) =~= views);
    let text = render_chunks(&names, 16 * area.cx1 as i64, 16 * area.cz1 as i64, &xs);
    assert(exported_entries(export_views(xs@)) =~= all_entries(views));
    ChunkExport { text, chunks: chunks.len(), total: xs.len() }
}

/// Chunks can be moved between worlds: after the import of an export every entry of the
/// rectangle has in the target the value that it has in the source.
pub proof fn law_chunk_migration(
    entries: Seq<EntryView>,
    filter: DimFilter,
    area: Area,
    target: Content,
    e: EntryView,
)
    requires
        in_key_order(entries),
        is_area(area),
        entries.contains(e),
        e.key.len() >= 8,
        in_area(area, key_chunk(e.key).0, key_chunk(e.key).1),
        passes(filter, e.key),
    ensures
        ({
            let moved = all_entries(area_chunks(entries, filter, area));
            let after = imported(target, moved, false, moved.len());
            after.contains_key(e.key) && after[e.key] == e.value
        }),
{
    let moved = all_entries(area_chunks(entries, filter, area));
    law_area_exact(entries, filter, area, e);
    assert(moved.take(moved.len() as int) =~= moved);
    assert forall|j: int| 0 <= j < moved.len() && (#[trigger] moved[j]).key == e.key implies moved[j]
        == e by {
        assert(moved.contains(moved[j]));
        law_area_exact(entries, filter, area, moved[j]);
        lemma_key_tells_entry(entries, moved[j], e);
    }
    law_migration(moved, target, moved.len(), e);
}

/// The origin of an exported rectangle between two blocks is the lowest block of the chunk of its
/// lowest corner, along x and along z. It stands in the document under `origin`.
pub proof fn law_origin(
    entries: Seq<EntryView>,
    filter: DimFilter,
    bx1: i32,
    bz1: i32,
    bx2: i32,
    bz2: i32,
)
    ensures
        ({
            let area = area_between(bx1 as int, bz1 as int, bx2 as int, bz2 as int);
            let low_x = if bx1 < bx2 { bx1 } else { bx2 };
            let low_z = if bz1 < bz2 { bz1 } else { bz2 };
            &&& member(area_document(entries, filter, area), "origin"@) matches Some(o) && as_i64(
                member(o, "x"@),
            ) matches Some(x) && as_i64(member(o, "z"@)) matches Some(z) && x % 16 == 0 && z % 16
                == 0 && x <= low_x < x + 16 && z <= low_z < z + 16
        }),
{
    let area = area_between(bx1 as int, bz1 as int, bx2 as int, bz2 as int);
    let chunks = area_chunks(entries, filter, area);
    law_chunk_document(
        chunk_names(chunks),
        area_origin(area),
        plain_exports(all_entries(chunks)),
    );
}

/// The document of a rectangle names its chunks that hold anything, x before z, and holds their
/// entries.
pub proof fn law_chunk_names(entries: Seq<EntryView>, filter: DimFilter, area: Area, i: int)
    requires
        is_area(area),
        0 <= i < area_chunks(entries, filter, area).len(),
    ensures
        ({
            let c = area_chunks(entries, filter, area)[i];
            let d = area_document(entries, filter, area);
            &&& as_list(member(d, "chunks"@)) matches Some(l) && l.len() == area_chunks(
                entries,
                filter,
                area,
            ).len() && l[i] == JsonView::Text(
                decimal_text(c.cx as int) + ","@ + decimal_text(c.cz as int),
            )
            &&& as_u64(member(d, "total"@)) == Some(
                all_entries(area_chunks(entries, filter, area)).len() as u64,
            )
        }),
{
    let chunks = area_chunks(entries, filter, area);
    law_chunk_document(
        chunk_names(chunks),
        area_origin(area),
        plain_exports(all_entries(chunks)),
    );
}

} // verus!
