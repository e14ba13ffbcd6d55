//! Tables for a terminal, drawn by `comfy_table`.
//!
//! What is known of a cell is its look: the text and how it is styled. What is
//! known of a table are the looks of its header and of its rows, and how it is to
//! be laid out.

use comfy_table::presets::UTF8_FULL_CONDENSED;
use comfy_table::{Attribute, Cell, CellAlignment, Color, ContentArrangement, Table};
use vstd::prelude::*;

verus! {

/// A colour.
#[derive(Debug, Clone, Copy, PartialEq, Eq, Structural)]
pub enum Paint {
    Green,
    Yellow,
    Red,
    White,
    DarkGrey,
}

/// `comfy_table::Cell`: a cell with its text and style.
#[verifier::external_type_specification]
#[verifier::external_body]
pub struct ExCell(Cell);

/// `comfy_table::Table`: a table with its header, rows and settings.
#[verifier::external_type_specification]
#[verifier::external_body]
pub struct ExTable(Table);

/// How a cell looks.
#[verifier::ext_equal]
pub struct Look {
    pub text: Seq<char>,
    pub fg: Option<Paint>,
    pub bg: Option<Paint>,
    pub bold: bool,
    /// The text stands at the right edge.
    pub right: bool,
}

impl Look {
    /// A text without any style.
    pub open spec fn plain(text: Seq<char>) -> Look {
        Look { text, fg: None, bg: None, bold: false, right: false }
    }

    /// With a colour.
    pub open spec fn fg(self, p: Paint) -> Look {
        Look { fg: Some(p), ..self }
    }

    /// On a colour.
    pub open spec fn bg(self, p: Paint) -> Look {
        Look { bg: Some(p), ..self }
    }

    /// In bold type.
    pub open spec fn bold(self) -> Look {
        Look { bold: true, ..self }
    }

    /// At the right edge.
    pub open spec fn right(self) -> Look {
        Look { right: true, ..self }
    }
}

/// How a cell looks.
pub uninterp spec fn cell_look(c: Cell) -> Look;

/// The header of a table.
pub uninterp spec fn table_header(t: Table) -> Option<Seq<Look>>;

/// The rows of a table.
pub uninterp spec fn table_rows(t: Table) -> Seq<Seq<Look>>;

/// How a table is laid out.
#[verifier::ext_equal]
pub struct Layout {
    /// The borders are drawn with `UTF8_FULL_CONDENSED`.
    pub condensed: bool,
    /// The columns share the width of the terminal.
    pub dynamic: bool,
}

/// How a table is laid out.
pub uninterp spec fn table_layout(t: Table) -> Layout;

/// The table can be drawn as this text. There may be many: the width of the
/// terminal and whether it has colours count too.
pub uninterp spec fn drawn_as(t: Table, text: Seq<char>) -> bool;

/// How the cells of a row look.
pub open spec fn looks(cells: Seq<Cell>) -> Seq<Look> {
    Seq::new(cells.len(), |i: int| cell_look(cells[i]))
}

/// `Cell::new` makes a cell of a text, without any style.
#[verifier::external_body]
pub(crate) fn new_cell(text: &str) -> (r: Cell)
    ensures
        cell_look(r) == Look::plain(text@),
{
    Cell::new(text)
}

/// `Cell::fg` sets the colour of the text and nothing else.
#[verifier::external_body]
pub(crate) fn set_fg(c: Cell, p: Paint) -> (r: Cell)
    ensures
        cell_look(r) == cell_look(c).fg(p),
{
    c.fg(match p {
        Paint::Green => Color::Green,
        Paint::Yellow => Color::Yellow,
        Paint::Red => Color::Red,
        Paint::White => Color::White,
        Paint::DarkGrey => Color::DarkGrey,
    })
}

/// `Cell::bg` sets the colour behind the text and nothing else.
#[verifier::external_body]
pub(crate) fn set_bg(c: Cell, p: Paint) -> (r: Cell)
    ensures
        cell_look(r) == cell_look(c).bg(p),
{
    c.bg(match p {
        Paint::Green => Color::Green,
        Paint::Yellow => Color::Yellow,
        Paint::Red => Color::Red,
        Paint::White => Color::White,
        Paint::DarkGrey => Color::DarkGrey,
    })
}

/// `Cell::add_attribute` with `Attribute::Bold` makes the text bold and changes
/// nothing else.
#[verifier::external_body]
pub(crate) fn set_bold(c: Cell) -> (r: Cell)
    ensures
        cell_look(r) == cell_look(c).bold(),
{
    c.add_attribute(Attribute::Bold)
}

/// `Cell::set_alignment` with `CellAlignment::Right` moves the text to the right
/// edge and changes nothing else.
#[verifier::external_body]
pub(crate) fn set_right(c: Cell) -> (r: Cell)
    ensures
        cell_look(r) == cell_look(c).right(),
{
    c.set_alignment(CellAlignment::Right)
}

/// `Table::new` makes a table without a header and without rows, with borders in
/// ASCII and columns as wide as their contents.
#[verifier::external_body]
pub(crate) fn new_table() -> (r: Table)
    ensures
        table_header(r) is None,
        table_rows(r) == Seq::<Seq<Look>>::empty(),
        table_layout(r) == (Layout { condensed: false, dynamic: false }),
{
    Table::new()
}

/// `Table::load_preset` sets the characters that the borders are drawn with; the
/// header and the rows stay.
#[verifier::external_body]
pub(crate) fn set_borders(t: &mut Table)
    ensures
        table_header(*final(t)) == table_header(*old(t)),
        table_rows(*final(t)) == table_rows(*old(t)),
        table_layout(*final(t)) == (Layout { condensed: true, ..table_layout(*old(t)) }),
{
    t.load_preset(UTF8_FULL_CONDENSED);
}

/// `Table::set_content_arrangement` lets the columns share the width of the
/// terminal; the header and the rows stay.
#[verifier::external_body]
pub(crate) fn set_dynamic(t: &mut Table)
    ensures
        table_header(*final(t)) == table_header(*old(t)),
        table_rows(*final(t)) == table_rows(*old(t)),
        table_layout(*final(t)) == (Layout { dynamic: true, ..table_layout(*old(t)) }),
{
    t.set_content_arrangement(ContentArrangement::Dynamic);
}

/// `Table::set_header` sets the header; the rows stay.
#[verifier::external_body]
pub(crate) fn set_header(t: &mut Table, cells: Vec<Cell>)
    ensures
        table_header(*final(t)) == Some(looks(cells@)),
        table_rows(*final(t)) == table_rows(*old(t)),
        table_layout(*final(t)) == table_layout(*old(t)),
{
    t.set_header(cells);
}

/// `Table::add_row` adds a row behind the others; the header stays.
#[verifier::external_body]
pub(crate) fn add_row(t: &mut Table, cells: Vec<Cell>)
    ensures
        table_header(*final(t)) == table_header(*old(t)),
        table_rows(*final(t)) == table_rows(*old(t)).push(looks(cells@)),
        table_layout(*final(t)) == table_layout(*old(t)),
{
    t.add_row(cells);
}

/// `Table` as text, by its `Display`: one of the texts that the table can be drawn
/// as. Which one depends on the terminal, so no more is said of it.
#[verifier::external_body]
pub(crate) fn draw(t: &Table) -> (r: String)
    ensures
        drawn_as(*t, r@),
{
    t.to_string()
}

/// The layout of every table here.
pub open spec fn for_terminal() -> Layout {
    Layout { condensed: true, dynamic: true }
}

/// A table for the terminal, with a header in bold type and without rows.
pub fn titled(titles: &[&str]) -> (r: Table)
    ensures
        table_header(r) == Some(
            Seq::new(titles@.len(), |i: int| Look::plain(titles@[i]@).bold()),
        ),
        table_rows(r) == Seq::<Seq<Look>>::empty(),
        table_layout(r) == for_terminal(),
{
    let mut t = new_table();
    set_borders(&mut t);
    set_dynamic(&mut t);
    let mut cells: Vec<Cell> = Vec::new();
    for i in 0..titles.len()
        invariant
            cells@.len() == i,
            forall|j: int|
                0 <= j < i ==> cell_look(#[trigger] cells@[j]) == Look::plain(titles@[j]@).bold(),
    {
        cells.push(set_bold(new_cell(titles[i])));
    }
    assert(looks(cells@) =~= Seq::new(titles@.len(), |i: int| Look::plain(titles@[i]@).bold()));
    set_header(&mut t, cells);
    t
}

} // verus!
