//! Lines of a report, as pieces to be written one after the other.

use crate::nbt::Real;
use vstd::prelude::*;

verus! {

/// What a piece of a line holds.
pub enum PieceView {
    Text(Seq<char>),
    Int(int),
    Wide(int),
    Real(Real),
    Fixed(Real, int),
    Percent(Real),
    Bytes(Seq<u8>),
}

/// What a line holds.
pub type LineView = Seq<PieceView>;

/// One piece of a line.
pub enum Piece {
    /// Text as it is.
    Text(String),
    /// An integer in decimal.
    Int(i64),
    /// A number of things in decimal.
    Count(usize),
    /// An integer in decimal, to the right of a column at least two wide.
    Wide(i64),
    /// A floating-point number in its shortest form.
    Real(Real),
    /// A floating-point number with so many digits behind the point.
    Fixed(Real, u8),
    /// A hundred times a floating-point number, with no digit behind the point.
    Percent(Real),
    /// Bytes as a list in hexadecimal.
    Bytes(Vec<u8>),
}

impl View for Piece {
    type V = PieceView;

    open spec fn view(&self) -> PieceView {
        match *self {
            Piece::Text(s) => PieceView::Text(s@),
            Piece::Int(v) => PieceView::Int(v as int),
            Piece::Count(n) => PieceView::Int(n as int),
            Piece::Wide(v) => PieceView::Wide(v as int),
            Piece::Real(r) => PieceView::Real(r),
            Piece::Fixed(r, n) => PieceView::Fixed(r, n as int),
            Piece::Percent(r) => PieceView::Percent(r),
            Piece::Bytes(b) => PieceView::Bytes(b@),
        }
    }
}

/// One line of a report.
pub struct Line {
    pub pieces: Vec<Piece>,
}

impl View for Line {
    type V = LineView;

    open spec fn view(&self) -> LineView {
        self.pieces@.map_values(|p: Piece| p@)
    }
}

/// What lines hold.
pub open spec fn line_views(lines: Seq<Line>) -> Seq<LineView> {
    lines.map_values(|l: Line| l@)
}

/// A piece of text.
pub open spec fn words(s: Seq<char>) -> PieceView {
    PieceView::Text(s)
}

/// A piece of text.
pub fn text_piece(s: &str) -> (r: Piece)
    ensures
        r@ == words(s@),
{
    Piece::Text(s.to_owned())
}

impl Line {
    /// A line with no pieces.
    pub fn new() -> (r: Line)
        ensures
            r@ == LineView::empty(),
    {
        let r = Line { pieces: Vec::new() };
        assert(r@ =~= LineView::empty());
        r
    }

    /// The line with one more piece.
    pub fn with(self, piece: Piece) -> (r: Line)
        ensures
            r@ == self@.push(piece@),
    {
        let mut pieces = self.pieces;
        pieces.push(piece);
        let r = Line { pieces };
        assert(r@ =~= self@.push(piece@));
        r
    }

    /// The line with a text behind it.
    pub fn text(self, s: &str) -> (r: Line)
        ensures
            r@ == self@.push(words(s@)),
    {
        self.with(text_piece(s))
    }

    /// The line with a number behind it.
    pub fn number(self, v: i64) -> (r: Line)
        ensures
            r@ == self@.push(PieceView::Int(v as int)),
    {
        self.with(Piece::Int(v))
    }

    /// The line with a number of things behind it.
    pub fn count(self, n: usize) -> (r: Line)
        ensures
            r@ == self@.push(PieceView::Int(n as int)),
    {
        self.with(Piece::Count(n))
    }
}

/// Appends a line.
pub fn push_line(out: &mut Vec<Line>, line: Line)
    ensures
        line_views(final(out)@) == line_views(old(out)@).push(line@),
{
    let ghost before = line_views(out@);
    out.push(line);
    assert(line_views(out@) =~= before.push(line@));
}

/// Appends lines.
pub fn push_lines(out: &mut Vec<Line>, lines: Vec<Line>)
    ensures
        line_views(final(out)@) == line_views(old(out)@) + line_views(lines@),
{
    let ghost before = line_views(out@);
    let ghost more = lines@;
    let mut rest = lines;
    out.append(&mut rest);
    assert(line_views(out@) =~= before + line_views(more));
}

/// Lines that are joined hold the lines of both parts.
pub proof fn lemma_joined(a: Seq<LineView>, b: Seq<LineView>, line: LineView)
    ensures
        (a + b).contains(line) <==> a.contains(line) || b.contains(line),
{
    let all = a + b;
    if a.contains(line) {
        assert(all[a.index_of(line)] == line);
    }
    if b.contains(line) {
        assert(all[a.len() + b.index_of(line)] == line);
    }
    if all.contains(line) {
        let i = all.index_of(line);
        if i < a.len() {
            assert(a[i] == line);
        } else {
            assert(b[i - a.len()] == line);
        }
    }
}

} // verus!
