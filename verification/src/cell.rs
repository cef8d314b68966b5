use vstd::prelude::*;

use crate::gfx::Color;

verus! {

/// The text shown in a terminal cell: one grapheme cluster (or the
/// `index`-th column of a cluster that spans `width` columns).
#[derive(Debug, Clone)]
pub struct Grapheme {
    pub char: String,
    pub index: usize,
    pub width: usize,
    pub color: Color,
}

#[verifier::ext_equal]
pub struct GraphemeView {
    pub text: Seq<char>,
    pub index: usize,
    pub width: usize,
    pub color: Color,
}

impl View for Grapheme {
    type V = GraphemeView;

    open spec fn view(&self) -> GraphemeView {
        GraphemeView { text: self.char@, index: self.index, width: self.width, color: self.color }
    }
}

pub type Quadrant = (Color, Color, Color, Color);

/// One terminal cell: its position, the four colors of its quadrant block
/// and the text drawn over it.
#[derive(Debug)]
pub struct Cell {
    pub cursor: (u32, u32),
    pub grapheme: Option<Grapheme>,
    pub quadrant: Quadrant,
}

#[verifier::ext_equal]
pub struct CellView {
    pub cursor: (u32, u32),
    pub grapheme: Option<GraphemeView>,
    pub quadrant: Quadrant,
}

pub open spec fn opt_grapheme_view(g: Option<Grapheme>) -> Option<GraphemeView> {
    match g {
        Some(g) => Some(g@),
        None => None,
    }
}

impl View for Cell {
    type V = CellView;

    open spec fn view(&self) -> CellView {
        CellView {
            cursor: self.cursor,
            grapheme: opt_grapheme_view(self.grapheme),
            quadrant: self.quadrant,
        }
    }
}

pub open spec fn black_quadrant() -> Quadrant {
    (
        Color { r: 0, g: 0, b: 0 },
        Color { r: 0, g: 0, b: 0 },
        Color { r: 0, g: 0, b: 0 },
        Color { r: 0, g: 0, b: 0 },
    )
}

impl Grapheme {
    pub fn duplicate(&self) -> (r: Grapheme)
        ensures
            r@ == self@,
    {
        Grapheme { char: self.char.clone(), index: self.index, width: self.width, color: self.color }
    }

    /// Same text, column and color.
    pub fn same_as(&self, other: &Grapheme) -> (b: bool)
        ensures
            b == (self@ == other@),
    {
        let r = self.char == other.char && self.index == other.index && self.width == other.width
            && self.color == other.color;
        proof {
            if r {
                assert(self@ =~= other@);
            }
        }
        r
    }
}

pub fn duplicate_grapheme(g: &Option<Grapheme>) -> (r: Option<Grapheme>)
    ensures
        opt_grapheme_view(r) == opt_grapheme_view(*g),
{
    match g {
        Some(g) => Some(g.duplicate()),
        None => None,
    }
}

impl Cell {
    /// An empty black cell at column `x`, row `y`.
    pub fn new(x: u32, y: u32) -> (c: Cell)
        ensures
            c@ == (CellView { cursor: (x, y), grapheme: None, quadrant: black_quadrant() }),
    {
        let black = Color { r: 0, g: 0, b: 0 };
        Cell { cursor: (x, y), grapheme: None, quadrant: (black, black, black, black) }
    }

    pub fn duplicate(&self) -> (r: Cell)
        ensures
            r@ == self@,
    {
        Cell { cursor: self.cursor, grapheme: duplicate_grapheme(&self.grapheme), quadrant: self.quadrant }
    }

    /// Same position, colors and text.
    pub fn same_as(&self, other: &Cell) -> (b: bool)
        ensures
            b == (self@ == other@),
    {
        let g = match (&self.grapheme, &other.grapheme) {
            (Some(a), Some(b)) => a.same_as(b),
            (None, None) => true,
            _ => false,
        };
        let r = g && self.cursor.0 == other.cursor.0 && self.cursor.1 == other.cursor.1 && self.quadrant.0 == other.quadrant.0
            && self.quadrant.1 == other.quadrant.1 && self.quadrant.2 == other.quadrant.2
            && self.quadrant.3 == other.quadrant.3;
        proof {
            if r {
                assert(self@ =~= other@);
            }
        }
        r
    }
}

} // verus!
