//! Batch files: regions of chunks to delete, written in JSON.

use crate::bytes::{law_wrapping, wrap_32, wrapped_32};
use crate::json::{
    as_i64, as_list, json_list_view, json_text, member, parse_json, Json, JsonView,
};
use crate::keys::{is_chunk_key_bytes, key_chunk, key_dim};
use crate::regions::{
    area_between, batch_takes, block_area, in_rect, law_area_in_blocks, stands_between, ChunkRect,
};
use crate::text::{lower_ascii, lowercase, lowered_text, text_is};
use vstd::prelude::*;
use vstd::utf8::is_ascii_chars;

verus! {

/// The number of a dimension by its name in lower case.
pub open spec fn dim_by_name(name: Seq<char>) -> Option<u8> {
    if name == "overworld"@ {
        Some(0)
    } else if name == "nether"@ {
        Some(1)
    } else if name == "end"@ {
        Some(2)
    } else {
        None
    }
}

/// The number of a dimension by its name in lower case.
pub fn dimension_by_name(name: &str) -> (r: Option<u8>)
    ensures
        r == dim_by_name(name@),
{
    if text_is(name, "overworld") {
        Some(0)
    } else if text_is(name, "nether") {
        Some(1)
    } else if text_is(name, "end") {
        Some(2)
    } else {
        None
    }
}

/// What is said of a value that is not a dimension.
pub enum DimensionErrorView {
    NotAnInteger,
    Invalid(i64),
    UnknownName(Seq<char>),
    WrongKind,
}

/// Why a value is not a dimension.
pub enum DimensionError {
    /// A number that is not an integer.
    NotAnInteger,
    /// An integer that is no dimension.
    Invalid(i64),
    /// A text that names no dimension.
    UnknownName(String),
    /// Neither a number nor a text.
    WrongKind,
}

impl View for DimensionError {
    type V = DimensionErrorView;

    open spec fn view(&self) -> DimensionErrorView {
        match *self {
            DimensionError::NotAnInteger => DimensionErrorView::NotAnInteger,
            DimensionError::Invalid(d) => DimensionErrorView::Invalid(d),
            DimensionError::UnknownName(s) => DimensionErrorView::UnknownName(s@),
            DimensionError::WrongKind => DimensionErrorView::WrongKind,
        }
    }
}

/// The dimension that a value names, by its number or by its name in any case.
pub open spec fn dimension_of(val: JsonView) -> Result<u8, DimensionErrorView> {
    match val {
        JsonView::Text(s) => match dim_by_name(lowered_text(s)) {
            Some(d) => Ok(d),
            None => Err(DimensionErrorView::UnknownName(s)),
        },
        JsonView::Unsigned(_) | JsonView::Negative(_) | JsonView::Single(_) | JsonView::Double(
            _,
        ) => match as_i64(Some(val)) {
            Some(d) => if 0 <= d <= 2 {
                Ok(d as u8)
            } else {
                Err(DimensionErrorView::Invalid(d))
            },
            None => Err(DimensionErrorView::NotAnInteger),
        },
        _ => Err(DimensionErrorView::WrongKind),
    }
}

/// What a dimension lookup returned.
pub open spec fn dimension_result(r: Result<u8, DimensionError>) -> Result<u8, DimensionErrorView> {
    match r {
        Ok(d) => Ok(d),
        Err(e) => Err(e@),
    }
}

/// The dimension that a value names.
pub fn parse_dimension(val: &Json) -> (r: Result<u8, DimensionError>)
    ensures
        dimension_result(r) == dimension_of(val@),
{
    match val {
        Json::Text(s) => {
            let lowered = lowercase(s.as_str());
            match dimension_by_name(lowered.as_str()) {
                Some(d) => Ok(d),
                None => Err(DimensionError::UnknownName(s.clone())),
            }
        },
        Json::Unsigned(_) | Json::Negative(_) | Json::Single(_) | Json::Double(_) => match val.integer() {
            Some(d) => if 0 <= d && d <= 2 {
                Ok(d as u8)
            } else {
                Err(DimensionError::Invalid(d))
            },
            None => Err(DimensionError::NotAnInteger),
        },
        _ => Err(DimensionError::WrongKind),
    }
}

/// The name of a coordinate in a region.
#[derive(Clone, Copy, PartialEq, Eq, Structural, Debug)]
pub enum Corner {
    X1,
    Z1,
    X2,
    Z2,
}

/// The field of a coordinate.
pub open spec fn corner_field(c: Corner) -> Seq<char> {
    match c {
        Corner::X1 => "x1"@,
        Corner::Z1 => "z1"@,
        Corner::X2 => "x2"@,
        Corner::Z2 => "z2"@,
    }
}

/// The field of a coordinate.
pub fn corner_name(c: Corner) -> (r: &'static str)
    ensures
        r@ == corner_field(c),
{
    match c {
        Corner::X1 => "x1",
        Corner::Z1 => "z1",
        Corner::X2 => "x2",
        Corner::Z2 => "z2",
    }
}

/// What is said of a batch file that is not valid.
pub enum BatchErrorView {
    Json(Seq<char>),
    NoRegions,
    EmptyRegions,
    TotalMismatch(u64, int),
    TotalNotACount(int),
    NotAnObject(int),
    NoDimension(int),
    Dimension(DimensionErrorView),
    Coordinate(int, Corner),
}

/// Why a batch file is not valid.
pub enum BatchError {
    /// It is not JSON, for a reason.
    Json(String),
    /// It has no list of regions.
    NoRegions,
    /// Its list of regions is empty.
    EmptyRegions,
    /// The total does not match the number of regions.
    TotalMismatch(u64, usize),
    /// The total is not a whole number from zero up; beside it, the number of regions.
    TotalNotACount(usize),
    /// The region at a place is not an object.
    NotAnObject(usize),
    /// The region at a place has no dimension.
    NoDimension(usize),
    /// A region has something else as its dimension.
    Dimension(DimensionError),
    /// The region at a place has no integer as a coordinate.
    Coordinate(usize, Corner),
}

impl View for BatchError {
    type V = BatchErrorView;

    open spec fn view(&self) -> BatchErrorView {
        match *self {
            BatchError::Json(s) => BatchErrorView::Json(s@),
            BatchError::NoRegions => BatchErrorView::NoRegions,
            BatchError::EmptyRegions => BatchErrorView::EmptyRegions,
            BatchError::TotalMismatch(t, n) => BatchErrorView::TotalMismatch(t, n as int),
            BatchError::TotalNotACount(n) => BatchErrorView::TotalNotACount(n as int),
            BatchError::NotAnObject(i) => BatchErrorView::NotAnObject(i as int),
            BatchError::NoDimension(i) => BatchErrorView::NoDimension(i as int),
            BatchError::Dimension(e) => BatchErrorView::Dimension(e@),
            BatchError::Coordinate(i, c) => BatchErrorView::Coordinate(i as int, c),
        }
    }
}

/// The coordinate of a corner of a region, in 32 bits.
pub open spec fn corner_of(region: JsonView, c: Corner) -> Option<int> {
    match as_i64(member(region, corner_field(c))) {
        Some(v) => Some(wrapped_32(v as int)),
        None => None,
    }
}

/// The chunks of the region at a place of the list.
pub open spec fn region_rect(region: JsonView, i: int) -> Result<ChunkRect, BatchErrorView> {
    if !(region is Object) {
        Err(BatchErrorView::NotAnObject(i))
    } else {
        match member(region, "dimension"@) {
            None => Err(BatchErrorView::NoDimension(i)),
            Some(val) => match dimension_of(val) {
                Err(e) => Err(BatchErrorView::Dimension(e)),
                Ok(dim) => match (
                    corner_of(region, Corner::X1),
                    corner_of(region, Corner::Z1),
                    corner_of(region, Corner::X2),
                    corner_of(region, Corner::Z2),
                ) {
                    (Some(x1), Some(z1), Some(x2), Some(z2)) => {
                        let area = area_between(x1, z1, x2, z2);
                        Ok(
                            ChunkRect {
                                dim_id: dim,
                                cx1: area.cx1,
                                cz1: area.cz1,
                                cx2: area.cx2,
                                cz2: area.cz2,
                            },
                        )
                    },
                    (None, _, _, _) => Err(BatchErrorView::Coordinate(i, Corner::X1)),
                    (_, None, _, _) => Err(BatchErrorView::Coordinate(i, Corner::Z1)),
                    (_, _, None, _) => Err(BatchErrorView::Coordinate(i, Corner::X2)),
                    (_, _, _, None) => Err(BatchErrorView::Coordinate(i, Corner::Z2)),
                },
            },
        }
    }
}

/// The chunks of the first `n` regions, or what is wrong with the first that is not valid.
pub open spec fn region_rects(regions: Seq<JsonView>, n: nat) -> Result<
    Seq<ChunkRect>,
    BatchErrorView,
>
    decreases n,
{
    if n == 0 {
        Ok(Seq::empty())
    } else {
        match region_rects(regions, (n - 1) as nat) {
            Err(e) => Err(e),
            Ok(rects) => match region_rect(regions[n - 1], n - 1) {
                Err(e) => Err(e),
                Ok(r) => Ok(rects.push(r)),
            },
        }
    }
}

/// The chunks of the regions in a batch file. A total that is given has to be their number.
pub open spec fn batch_rects(data: JsonView) -> Result<Seq<ChunkRect>, BatchErrorView> {
    match as_list(member(data, "regions"@)) {
        None => Err(BatchErrorView::NoRegions),
        Some(regions) => if regions.len() == 0 {
            Err(BatchErrorView::EmptyRegions)
        } else {
            match member(data, "total"@) {
                Some(JsonView::Unsigned(total)) => if total != regions.len() {
                    Err(BatchErrorView::TotalMismatch(total, regions.len() as int))
                } else {
                    region_rects(regions, regions.len())
                },
                Some(_) => Err(BatchErrorView::TotalNotACount(regions.len() as int)),
                None => region_rects(regions, regions.len()),
            }
        },
    }
}

/// What reading a batch file returned.
pub open spec fn batch_result(r: Result<Vec<ChunkRect>, BatchError>) -> Result<
    Seq<ChunkRect>,
    BatchErrorView,
> {
    match r {
        Ok(v) => Ok(v@),
        Err(e) => Err(e@),
    }
}

fn read_corner(region: &Json, c: Corner) -> (r: Option<i32>)
    ensures
        match r {
            Some(v) => corner_of(region@, c) == Some(v as int),
            None => corner_of(region@, c) is None,
        },
{
    match region.get_i64(corner_name(c)) {
        Some(v) => Some(wrap_32(v)),
        None => None,
    }
}

fn read_region(region: &Json, i: usize) -> (r: Result<ChunkRect, BatchError>)
    ensures
        match r {
            Ok(rect) => region_rect(region@, i as int) == Ok::<ChunkRect, BatchErrorView>(rect),
            Err(e) => region_rect(region@, i as int) == Err::<ChunkRect, BatchErrorView>(e@),
        },
{
    match region {
        Json::Object(_) => {},
        _ => {
            return Err(BatchError::NotAnObject(i));
        },
    }
    let val = match region.get("dimension") {
        Some(v) => v,
        None => {
            return Err(BatchError::NoDimension(i));
        },
    };
    let dim_id: u8 = match parse_dimension(val) {
        Ok(d) => d,
        Err(e) => {
            return Err(BatchError::Dimension(e));
        },
    };
    let x1: i32 = match read_corner(region, Corner::X1) {
        Some(v) => v,
        None => {
            return Err(BatchError::Coordinate(i, Corner::X1));
        },
    };
    let z1: i32 = match read_corner(region, Corner::Z1) {
        Some(v) => v,
        None => {
            return Err(BatchError::Coordinate(i, Corner::Z1));
        },
    };
    let x2: i32 = match read_corner(region, Corner::X2) {
        Some(v) => v,
        None => {
            return Err(BatchError::Coordinate(i, Corner::X2));
        },
    };
    let z2: i32 = match read_corner(region, Corner::Z2) {
        Some(v) => v,
        None => {
            return Err(BatchError::Coordinate(i, Corner::Z2));
        },
    };
    let area = block_area(x1, z1, x2, z2);
    Ok(ChunkRect { dim_id, cx1: area.cx1, cz1: area.cz1, cx2: area.cx2, cz2: area.cz2 })
}

/// The first region that is not valid decides, however many follow.
proof fn lemma_batch_error_stays(regions: Seq<JsonView>, n: nat, m: nat)
    requires
        n <= m,
        region_rects(regions, n) is Err,
    ensures
        region_rects(regions, m) == region_rects(regions, n),
    decreases m,
{
    if n < m {
        lemma_batch_error_stays(regions, n, (m - 1) as nat);
    }
}

/// The chunks of the regions in a batch file.
pub fn validate_batch(data: &Json) -> (r: Result<Vec<ChunkRect>, BatchError>)
    ensures
        batch_result(r) == batch_rects(data@),
{
    let regions = match data.get_list("regions") {
        Some(l) => l,
        None => {
            return Err(BatchError::NoRegions);
        },
    };
    let ghost all = json_list_view(regions@);
    if regions.len() == 0 {
        return Err(BatchError::EmptyRegions);
    }
    match data.get("total") {
        Some(Json::Unsigned(total)) => if *total != regions.len() as u64 {
            return Err(BatchError::TotalMismatch(*total, regions.len()));
        },
        Some(_) => {
            return Err(BatchError::TotalNotACount(regions.len()));
        },
        None => {},
    }
    let mut rects: Vec<ChunkRect> = Vec::new();
    for i in 0..regions.len()
        invariant
            all == json_list_view(regions@),
            batch_rects(data@) == region_rects(all, regions@.len()),
            region_rects(all, i as nat) == Ok::<Seq<ChunkRect>, BatchErrorView>(rects@),
    {
        assert(all[i as int] == regions@[i as int]@);
        match read_region(&regions[i], i) {
            Ok(rect) => {
                rects.push(rect);
            },
            Err(e) => {
                proof {
                    lemma_batch_error_stays(all, (i + 1) as nat, all.len());
                }
                return Err(e);
            },
        }
    }
    Ok(rects)
}

/// The chunks of the regions in the text of a batch file.
pub open spec fn batch_text_rects(text: Seq<char>) -> Result<Seq<ChunkRect>, BatchErrorView> {
    match json_text(text) {
        Ok(data) => batch_rects(data),
        Err(e) => Err(BatchErrorView::Json(e)),
    }
}

/// Reads a batch file.
pub fn parse_and_validate_batch(text: &str) -> (r: Result<Vec<ChunkRect>, BatchError>)
    ensures
        batch_result(r) == batch_text_rects(text@),
{
    match parse_json(text) {
        Ok(data) => validate_batch(&data),
        Err(e) => Err(BatchError::Json(e)),
    }
}

/// A dimension is known by its name in whatever case its letters are written, and an ASCII text
/// that is no such name is refused with the text.
pub proof fn law_dimension_in_any_case(s: Seq<char>)
    requires
        is_ascii_chars(s),
    ensures
        lower_ascii(s) == "overworld"@ ==> dimension_of(JsonView::Text(s)) == Ok::<
            u8,
            DimensionErrorView,
        >(0),
        lower_ascii(s) == "nether"@ ==> dimension_of(JsonView::Text(s)) == Ok::<
            u8,
            DimensionErrorView,
        >(1),
        lower_ascii(s) == "end"@ ==> dimension_of(JsonView::Text(s)) == Ok::<
            u8,
            DimensionErrorView,
        >(2),
        lower_ascii(s) != "overworld"@ && lower_ascii(s) != "nether"@ && lower_ascii(s) != "end"@
            ==> dimension_of(JsonView::Text(s)) == Err::<u8, DimensionErrorView>(
            DimensionErrorView::UnknownName(s),
        ),
{
    reveal_strlit("overworld");
    reveal_strlit("nether");
    reveal_strlit("end");
    assert("overworld"@.len() == 9 && "nether"@.len() == 6 && "end"@.len() == 3);
}

proof fn lemma_rects_sound(regions: Seq<JsonView>, n: nat)
    requires
        region_rects(regions, n) is Ok,
    ensures
        region_rects(regions, n)->Ok_0.len() == n,
        forall|i: int|
            0 <= i < n ==> {
                let r = #[trigger] region_rects(regions, n)->Ok_0[i];
                r.dim_id <= 2 && r.cx1 <= r.cx2 && r.cz1 <= r.cz2
            },
    decreases n,
{
    if n > 0 {
        lemma_rects_sound(regions, (n - 1) as nat);
        let rest = region_rects(regions, (n - 1) as nat)->Ok_0;
        let all = region_rects(regions, n)->Ok_0;
        assert forall|i: int| 0 <= i < n implies {
            let r = #[trigger] all[i];
            r.dim_id <= 2 && r.cx1 <= r.cx2 && r.cz1 <= r.cz2
        } by {
            if i < n - 1 {
                assert(all[i] == rest[i]);
            }
        }
    }
}

/// A valid batch file has at least one region, every region becomes one rectangle with its
/// corners in order in a known dimension, and a total that is given is their number.
pub proof fn law_valid_batch(data: JsonView)
    requires
        batch_rects(data) is Ok,
    ensures
        ({
            let rects = batch_rects(data)->Ok_0;
            &&& rects.len() > 0
            &&& as_list(member(data, "regions"@)) matches Some(l) && l.len() == rects.len()
            &&& member(data, "total"@) matches Some(t) ==> t == JsonView::Unsigned(
                rects.len() as u64,
            ) && rects.len() <= u64::MAX
            &&& forall|i: int|
                0 <= i < rects.len() ==> (#[trigger] rects[i]).dim_id <= 2 && rects[i].cx1
                    <= rects[i].cx2 && rects[i].cz1 <= rects[i].cz2
        }),
{
    let regions = as_list(member(data, "regions"@)).unwrap();
    lemma_rects_sound(regions, regions.len());
    let rects = batch_rects(data)->Ok_0;
    assert forall|i: int| 0 <= i < rects.len() implies (#[trigger] rects[i]).dim_id <= 2
        && rects[i].cx1 <= rects[i].cx2 && rects[i].cz1 <= rects[i].cz2 by {
        assert(region_rects(regions, regions.len())->Ok_0[i] == rects[i]);
    }
}

proof fn lemma_rects_of_regions(regions: Seq<JsonView>, n: nat, i: int)
    requires
        region_rects(regions, n) is Ok,
        0 <= i < n,
    ensures
        region_rects(regions, n)->Ok_0.len() == n,
        region_rect(regions[i], i) == Ok::<ChunkRect, BatchErrorView>(
            region_rects(regions, n)->Ok_0[i],
        ),
    decreases n,
{
    lemma_rects_sound(regions, n);
    if i < n - 1 {
        lemma_rects_of_regions(regions, (n - 1) as nat, i);
        assert(region_rects(regions, n)->Ok_0[i] == region_rects(regions, (n - 1) as nat)->Ok_0[i]);
    }
}

/// Whether a region of a batch file is in a dimension and one of the blocks between its corners
/// stands in a chunk.
pub open spec fn region_reaches(region: JsonView, dim: u8, cx: int, cz: int, x: int, z: int) -> bool {
    &&& member(region, "dimension"@) matches Some(d) && dimension_of(d) == Ok::<
        u8,
        DimensionErrorView,
    >(dim)
    &&& as_i64(member(region, "x1"@)) matches Some(x1) && as_i64(member(region, "x2"@)) matches Some(
        x2,
    ) && stands_between(x1 as int, x2 as int, x, cx)
    &&& as_i64(member(region, "z1"@)) matches Some(z1) && as_i64(member(region, "z2"@)) matches Some(
        z2,
    ) && stands_between(z1 as int, z2 as int, z, cz)
}

/// Whether the coordinates of a region fit in 32 bits.
pub open spec fn region_fits(region: JsonView) -> bool {
    forall|name: Seq<char>|
        (name == "x1"@ || name == "z1"@ || name == "x2"@ || name == "z2"@) ==> (#[trigger] as_i64(
            member(region, name),
        ) matches Some(v) ==> i32::MIN <= v <= i32::MAX)
}

/// What a batch file deletes: the key of a chunk is taken exactly if a region of the file is in its
/// dimension and one of the blocks between the two corners, in x and in z, stands in the chunk.
pub proof fn law_batch_file(data: JsonView, key: Seq<u8>)
    requires
        batch_rects(data) is Ok,
        is_chunk_key_bytes(key),
        as_list(member(data, "regions"@)) matches Some(l) && forall|i: int|
            0 <= i < l.len() ==> region_fits(#[trigger] l[i]),
    ensures
        ({
            let rects = batch_rects(data)->Ok_0;
            let regions = as_list(member(data, "regions"@))->Some_0;
            let (cx, cz) = key_chunk(key);
            let reached = exists|i: int, x: int, z: int|
                0 <= i < regions.len() && #[trigger] region_reaches(
                    regions[i],
                    key_dim(key),
                    cx,
                    cz,
                    x,
                    z,
                );
            &&& batch_takes(rects, false, key) <==> reached
            &&& batch_takes(rects, true, key) <==> !reached
        }),
{
    let rects = batch_rects(data)->Ok_0;
    let regions = as_list(member(data, "regions"@))->Some_0;
    let (cx, cz) = key_chunk(key);
    let dim = key_dim(key);
    lemma_rects_sound(regions, regions.len());
    assert forall|i: int| 0 <= i < regions.len() implies (in_rect(#[trigger] rects[i], cx, cz, dim)
        <==> exists|x: int, z: int|
        #[trigger] region_reaches(regions[i], dim, cx, cz, x, z)) by {
        lemma_rects_of_regions(regions, regions.len(), i);
        lemma_region(regions[i], i, rects[i], dim, cx, cz);
    }
    if batch_takes(rects, false, key) {
        let i = choose|i: int| 0 <= i < rects.len() && in_rect(#[trigger] rects[i], cx, cz, dim);
        let (x, z) = choose|x: int, z: int|
            #[trigger] region_reaches(regions[i], dim, cx, cz, x, z);
        assert(region_reaches(regions[i], dim, cx, cz, x, z));
    }
    if exists|i: int, x: int, z: int|
        0 <= i < regions.len() && #[trigger] region_reaches(regions[i], dim, cx, cz, x, z) {
        let (i, x, z) = choose|i: int, x: int, z: int|
            0 <= i < regions.len() && #[trigger] region_reaches(regions[i], dim, cx, cz, x, z);
        assert(in_rect(rects[i], cx, cz, dim));
    }
}

proof fn lemma_region(region: JsonView, i: int, rect: ChunkRect, dim: u8, cx: int, cz: int)
    requires
        region_rect(region, i) == Ok::<ChunkRect, BatchErrorView>(rect),
        region_fits(region),
    ensures
        in_rect(rect, cx, cz, dim) <==> exists|x: int, z: int|
            #[trigger] region_reaches(region, dim, cx, cz, x, z),
{
    let x1 = as_i64(member(region, "x1"@))->Some_0;
    let z1 = as_i64(member(region, "z1"@))->Some_0;
    let x2 = as_i64(member(region, "x2"@))->Some_0;
    let z2 = as_i64(member(region, "z2"@))->Some_0;
    assert(as_i64(member(region, corner_field(Corner::X1))) == Some(x1));
    assert(as_i64(member(region, corner_field(Corner::Z1))) == Some(z1));
    assert(as_i64(member(region, corner_field(Corner::X2))) == Some(x2));
    assert(as_i64(member(region, corner_field(Corner::Z2))) == Some(z2));
    law_wrapping(x1 as int);
    law_wrapping(z1 as int);
    law_wrapping(x2 as int);
    law_wrapping(z2 as int);
    law_area_in_blocks(x1 as i32, z1 as i32, x2 as i32, z2 as i32, cx, cz);
    if in_rect(rect, cx, cz, dim) {
        let (x, z) = choose|x: int, z: int|
            #[trigger] stands_between(x1 as int, x2 as int, x, cx) && #[trigger] stands_between(
                z1 as int,
                z2 as int,
                z,
                cz,
            );
        assert(region_reaches(region, dim, cx, cz, x, z));
    }
    if exists|x: int, z: int| #[trigger] region_reaches(region, dim, cx, cz, x, z) {
        let (x, z) = choose|x: int, z: int| #[trigger] region_reaches(region, dim, cx, cz, x, z);
        assert(stands_between(x1 as int, x2 as int, x, cx));
        assert(stands_between(z1 as int, z2 as int, z, cz));
    }
}

/// A dimension is also known by its number, and no other number is one.
pub proof fn law_dimension_by_number(n: u64)
    ensures
        n <= 2 ==> dimension_of(JsonView::Unsigned(n)) == Ok::<u8, DimensionErrorView>(n as u8),
        n > 2 ==> dimension_of(JsonView::Unsigned(n)) is Err,
        forall|v: i64| v < 0 ==> #[trigger] dimension_of(JsonView::Negative(v)) is Err,
{
}

/// A batch file is valid exactly if it has regions, a total that is given is their number, and every
/// region is an object with a dimension that is one and four integers as its corners.
pub proof fn law_batch_is_valid(data: JsonView)
    ensures
        batch_rects(data) is Ok <==> {
            &&& as_list(member(data, "regions"@)) matches Some(l) && l.len() > 0 && (member(
                data,
                "total"@,
            ) matches Some(t) ==> t matches JsonView::Unsigned(n) && n == l.len()) && forall|i: int|
                0 <= i < l.len() ==> is_region(#[trigger] l[i])
        },
{
    if let Some(l) = as_list(member(data, "regions"@)) {
        lemma_regions_valid(l, l.len());
    }
}

/// Whether a value is a region: an object with a dimension that is one and four integers as its
/// corners.
pub open spec fn is_region(region: JsonView) -> bool {
    &&& region is Object
    &&& member(region, "dimension"@) matches Some(d) && dimension_of(d) is Ok
    &&& as_i64(member(region, "x1"@)) is Some
    &&& as_i64(member(region, "z1"@)) is Some
    &&& as_i64(member(region, "x2"@)) is Some
    &&& as_i64(member(region, "z2"@)) is Some
}

proof fn lemma_regions_valid(l: Seq<JsonView>, n: nat)
    requires
        n <= l.len(),
    ensures
        region_rects(l, n) is Ok <==> forall|i: int| 0 <= i < n ==> is_region(#[trigger] l[i]),
    decreases n,
{
    if n > 0 {
        lemma_regions_valid(l, (n - 1) as nat);
        let region = l[n - 1];
        assert(region_rect(region, n - 1) is Ok <==> is_region(region)) by {
            assert(corner_of(region, Corner::X1) is Some <==> as_i64(member(region, "x1"@)) is Some);
            assert(corner_of(region, Corner::Z1) is Some <==> as_i64(member(region, "z1"@)) is Some);
            assert(corner_of(region, Corner::X2) is Some <==> as_i64(member(region, "x2"@)) is Some);
            assert(corner_of(region, Corner::Z2) is Some <==> as_i64(member(region, "z2"@)) is Some);
        }
    }
}

} // verus!
