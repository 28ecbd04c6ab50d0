//! The shared Typst `#table` emitter.
//!
//! Cell bodies are pre-rendered, inline-only Typst markup; spans map to Typst's
//! native `table.cell(colspan:, rowspan:)`. Borders and shading come from the
//! template's global `#set table` rules.

use vstd::prelude::*;

use crate::text::{chars_of, decimal, push_all, push_decimal, push_str, string_of};

verus! {

/// Horizontal alignment for a table column.
#[derive(Debug, Clone, Copy, PartialEq, Eq, Structural)]
pub enum Align {
    Left,
    Center,
    Right,
}

/// The Typst keyword of an alignment.
pub open spec fn align_keyword(a: Align) -> Seq<char> {
    match a {
        Align::Left => "left"@,
        Align::Center => "center"@,
        Align::Right => "right"@,
    }
}

impl Align {
    /// The Typst keyword of this alignment.
    pub fn keyword(self) -> (s: &'static str)
        ensures
            s@ == align_keyword(self),
    {
        match self {
            Align::Left => "left",
            Align::Center => "center",
            Align::Right => "right",
        }
    }
}

/// One table cell: pre-rendered Typst body markup plus its grid spans. A plain
/// 1x1 cell emits `[body]`; anything larger emits `table.cell(...)[body]`.
pub struct Cell {
    pub body: String,
    pub colspan: usize,
    pub rowspan: usize,
}

impl Cell {
    /// A plain 1x1 cell.
    pub fn new(body: &str) -> (c: Self)
        ensures
            c.body@ == body@,
            c.colspan == 1,
            c.rowspan == 1,
    {
        Cell { body: string_of(&chars_of(body)), colspan: 1, rowspan: 1 }
    }
}

/// A table to emit: column count, per-column alignment, the number of leading
/// rows that form the header (wrapped in `table.header`), and the rows.
pub struct Table {
    pub columns: usize,
    pub aligns: Vec<Align>,
    pub header_rows: usize,
    pub rows: Vec<Vec<Cell>>,
}

/// The value of a cell: its body markup and spans.
pub struct CellV {
    pub body: Seq<char>,
    pub colspan: usize,
    pub rowspan: usize,
}

/// The value of a cell.
pub open spec fn cell_view(c: Cell) -> CellV {
    CellV { body: c.body@, colspan: c.colspan, rowspan: c.rowspan }
}

/// The values of a row of cells.
pub open spec fn row_view(r: Seq<Cell>) -> Seq<CellV> {
    r.map_values(|c: Cell| cell_view(c))
}

/// The values of the rows of a table.
pub open spec fn rows_view(rows: Seq<Vec<Cell>>) -> Seq<Seq<CellV>> {
    rows.map_values(|r: Vec<Cell>| row_view(r@))
}

/// The markup of one cell.
pub open spec fn cell_markup(c: CellV) -> Seq<char> {
    if c.colspan > 1 || c.rowspan > 1 {
        "table.cell("@ + (if c.colspan > 1 {
            "colspan: "@ + decimal(c.colspan as nat) + ", "@
        } else {
            seq![]
        }) + (if c.rowspan > 1 {
            "rowspan: "@ + decimal(c.rowspan as nat) + ", "@
        } else {
            seq![]
        }) + ")["@ + c.body + "], "@
    } else {
        "["@ + c.body + "], "@
    }
}

/// A cell's markup states each span that is more than one, independently of
/// the other: `colspan: m, ` exactly when its colspan `m` is above one,
/// `rowspan: n, ` exactly when its rowspan `n` is above one (after the
/// colspan when both are), inside `table.cell(...)`; a cell spanning one
/// column and one row is its bracketed body alone.
pub proof fn cells_carry_each_span_they_have(c: CellV)
    ensures
        c.colspan > 1 && c.rowspan > 1 ==> cell_markup(c) == "table.cell("@ + "colspan: "@
            + decimal(c.colspan as nat) + ", "@ + "rowspan: "@ + decimal(c.rowspan as nat) + ", "@
            + ")["@ + c.body + "], "@,
        c.colspan > 1 && c.rowspan <= 1 ==> cell_markup(c) == "table.cell("@ + "colspan: "@
            + decimal(c.colspan as nat) + ", "@ + ")["@ + c.body + "], "@,
        c.colspan <= 1 && c.rowspan > 1 ==> cell_markup(c) == "table.cell("@ + "rowspan: "@
            + decimal(c.rowspan as nat) + ", "@ + ")["@ + c.body + "], "@,
        c.colspan <= 1 && c.rowspan <= 1 ==> cell_markup(c) == "["@ + c.body + "], "@,
{
    let col = "colspan: "@ + decimal(c.colspan as nat) + ", "@;
    let row = "rowspan: "@ + decimal(c.rowspan as nat) + ", "@;
    let tail = ")["@ + c.body + "], "@;
    assert("table.cell("@ + col + row + tail =~= "table.cell("@ + "colspan: "@ + decimal(
        c.colspan as nat,
    ) + ", "@ + "rowspan: "@ + decimal(c.rowspan as nat) + ", "@ + ")["@ + c.body + "], "@);
    assert("table.cell("@ + col + Seq::<char>::empty() + tail =~= "table.cell("@ + "colspan: "@
        + decimal(c.colspan as nat) + ", "@ + ")["@ + c.body + "], "@);
    assert("table.cell("@ + Seq::<char>::empty() + row + tail =~= "table.cell("@ + "rowspan: "@
        + decimal(c.rowspan as nat) + ", "@ + ")["@ + c.body + "], "@);
}

/// The markup of the cells of a row.
pub open spec fn cells_markup(cells: Seq<CellV>) -> Seq<char>
    decreases cells.len(),
{
    if cells.len() == 0 {
        seq![]
    } else {
        cells_markup(cells.drop_last()) + cell_markup(cells.last())
    }
}

/// The markup of one row: indented cells and a newline.
pub open spec fn row_markup(row: Seq<CellV>) -> Seq<char> {
    "  "@ + cells_markup(row) + "\n"@
}

/// The markup of a run of rows.
pub open spec fn rows_markup(rows: Seq<Seq<CellV>>) -> Seq<char>
    decreases rows.len(),
{
    if rows.len() == 0 {
        seq![]
    } else {
        rows_markup(rows.drop_last()) + row_markup(rows.last())
    }
}

/// Splitting the rows into header rows and body rows keeps every row once
/// and in order: the header's rows followed by the body's are all the rows.
pub proof fn header_split_keeps_every_row_once(rows: Seq<Seq<CellV>>, h: int)
    requires
        0 <= h <= rows.len(),
    ensures
        rows_markup(rows.subrange(0, h)) + rows_markup(rows.subrange(h, rows.len() as int))
            == rows_markup(rows),
    decreases rows.len(),
{
    if h == rows.len() {
        assert(rows.subrange(0, h) =~= rows);
        assert(rows.subrange(h, rows.len() as int) =~= Seq::<Seq<CellV>>::empty());
        assert(rows_markup(rows) + Seq::<char>::empty() =~= rows_markup(rows));
    } else {
        let d = rows.drop_last();
        header_split_keeps_every_row_once(d, h);
        assert(d.subrange(0, h) =~= rows.subrange(0, h));
        let tail = rows.subrange(h, rows.len() as int);
        assert(tail.drop_last() =~= d.subrange(h, d.len() as int));
        assert(tail.last() == rows.last());
        assert(rows_markup(rows.subrange(0, h)) + rows_markup(tail) =~= rows_markup(rows.subrange(
            0,
            h,
        )) + rows_markup(d.subrange(h, d.len() as int)) + row_markup(rows.last()));
    }
}

/// The alignment of column `i`: its hint, or left past the hints.
pub open spec fn column_align(aligns: Seq<Align>, i: int) -> Align {
    if 0 <= i < aligns.len() {
        aligns[i]
    } else {
        Align::Left
    }
}

/// The comma-separated alignment keywords of the first `n` columns.
pub open spec fn aligns_markup(aligns: Seq<Align>, n: nat) -> Seq<char>
    decreases n,
{
    if n == 0 {
        seq![]
    } else {
        aligns_markup(aligns, (n - 1) as nat) + (if n > 1 {
            ", "@
        } else {
            seq![]
        }) + align_keyword(column_align(aligns, n - 1))
    }
}

/// The whole `#table(...)` block for a grid of `columns` columns (at least
/// one is emitted), its alignment hints, the number of header rows and the
/// rows.
pub open spec fn grid_markup(
    columns: usize,
    aligns: Seq<Align>,
    header_rows: usize,
    rows: Seq<Seq<CellV>>,
) -> Seq<char> {
    let cols: nat = if columns > 1 {
        columns as nat
    } else {
        1
    };
    let header_n: int = if header_rows < rows.len() {
        header_rows as int
    } else {
        rows.len() as int
    };
    "\n#table(\n"@ + "  columns: "@ + decimal(cols) + ",\n"@ + "  align: ("@ + aligns_markup(
        aligns,
        cols,
    ) + "),\n"@ + (if header_n > 0 {
        "  table.header(\n"@ + rows_markup(rows.subrange(0, header_n)) + "  ),\n"@
    } else {
        seq![]
    }) + rows_markup(rows.subrange(header_n, rows.len() as int)) + ")\n\n"@
}

/// The whole `#table(...)` block of a table.
pub open spec fn table_markup(t: Table) -> Seq<char> {
    grid_markup(t.columns, t.aligns@, t.header_rows, rows_view(t.rows@))
}

/// Appends the markup of one row.
fn push_row(s: &mut Vec<char>, row: &[Cell])
    ensures
        final(s)@ == old(s)@ + row_markup(row_view(row@)),
{
    push_str(s, "  ");
    let ghost start = s@;
    let mut i: usize = 0;
    proof {
        assert(start + cells_markup(row_view(row@).take(0)) =~= start);
    }
    while i < row.len()
        invariant
            i <= row@.len(),
            s@ == start + cells_markup(row_view(row@).take(i as int)),
        decreases row@.len() - i,
    {
        let ghost before = s@;
        let cell = &row[i];
        if cell.colspan > 1 || cell.rowspan > 1 {
            push_str(s, "table.cell(");
            if cell.colspan > 1 {
                push_str(s, "colspan: ");
                push_decimal(s, cell.colspan as u64);
                push_str(s, ", ");
            }
            let ghost mid = s@;
            if cell.rowspan > 1 {
                push_str(s, "rowspan: ");
                push_decimal(s, cell.rowspan as u64);
                push_str(s, ", ");
            }
            push_str(s, ")[");
            push_all(s, &chars_of(cell.body.as_str()));
            push_str(s, "], ");
        } else {
            push_str(s, "[");
            push_all(s, &chars_of(cell.body.as_str()));
            push_str(s, "], ");
        }
        proof {
            assert(row_view(row@)[i as int] == cell_view(row@[i as int]));
            assert(s@ =~= before + cell_markup(row_view(row@)[i as int]));
            assert(row_view(row@).take(i + 1).drop_last() =~= row_view(row@).take(i as int));
        }
        i = i + 1;
    }
    proof {
        assert(row_view(row@).take(row@.len() as int) =~= row_view(row@));
    }
    push_str(s, "\n");
}

/// Appends the markup of `rows[lo..hi]`.
fn push_rows(s: &mut Vec<char>, rows: &[Vec<Cell>], lo: usize, hi: usize)
    requires
        lo <= hi <= rows@.len(),
    ensures
        final(s)@ == old(s)@ + rows_markup(rows_view(rows@).subrange(lo as int, hi as int)),
{
    let mut i = lo;
    proof {
        assert(old(s)@ + rows_markup(rows_view(rows@).subrange(lo as int, lo as int)) =~= old(s)@);
    }
    while i < hi
        invariant
            lo <= i <= hi <= rows@.len(),
            s@ == old(s)@ + rows_markup(rows_view(rows@).subrange(lo as int, i as int)),
        decreases hi - i,
    {
        push_row(s, &rows[i]);
        proof {
            assert(rows_view(rows@)[i as int] == row_view(rows@[i as int]@));
            assert(rows_view(rows@).subrange(lo as int, i + 1).drop_last() =~= rows_view(
                rows@,
            ).subrange(lo as int, i as int));
        }
        i = i + 1;
    }
}

impl Table {
    /// Render the model to a `#table(...)` block (leading and trailing blank
    /// lines included so it stands alone as a Typst block). Columns past the
    /// alignment hints are left-aligned.
    pub fn render(&self) -> (s: String)
        ensures
            s@ == table_markup(*self),
    {
        let cols = if self.columns > 1 {
            self.columns
        } else {
            1
        };
        let mut s: Vec<char> = Vec::new();
        push_str(&mut s, "\n#table(\n");
        push_str(&mut s, "  columns: ");
        push_decimal(&mut s, cols as u64);
        push_str(&mut s, ",\n");
        push_str(&mut s, "  align: (");
        let ghost start = s@;
        let mut i: usize = 0;
        while i < cols
            invariant
                i <= cols,
                s@ == start + aligns_markup(self.aligns@, i as nat),
            decreases cols - i,
        {
            let ghost before = s@;
            if i > 0 {
                push_str(&mut s, ", ");
            }
            let a = if i < self.aligns.len() {
                self.aligns[i]
            } else {
                Align::Left
            };
            push_str(&mut s, a.keyword());
            proof {
                assert(s@ =~= before + (if i + 1 > 1 {
                    ", "@
                } else {
                    seq![]
                }) + align_keyword(column_align(self.aligns@, i as int)));
            }
            i = i + 1;
        }
        push_str(&mut s, "),\n");
        let header_n = if self.header_rows < self.rows.len() {
            self.header_rows
        } else {
            self.rows.len()
        };
        if header_n > 0 {
            push_str(&mut s, "  table.header(\n");
            push_rows(&mut s, &self.rows, 0, header_n);
            push_str(&mut s, "  ),\n");
        }
        push_rows(&mut s, &self.rows, header_n, self.rows.len());
        push_str(&mut s, ")\n\n");
        proof {
            assert(s@ =~= table_markup(*self));
        }
        string_of(&s)
    }
}

} // verus!
