//! The notebook: paper, sheets on a grid of A4 units, and the rules for
//! growing, tearing and joining them.
//!
//! A notebook's pages sit on integer cells `(col, row)`. A single sheet may
//! be larger than one unit (a "grown" sheet); it then covers a block of
//! `span_cols × span_rows` unit cells. What a page holds is left to the
//! caller as the body type `B`: this module moves bodies around, it never
//! looks inside them.

use vstd::prelude::*;
use std::collections::{BTreeMap, BTreeSet};
use vstd::std_specs::btree::{increasing_seq, spec_btree_map_iter};
use vstd::std_specs::iter::IteratorSpec;
use vstd::std_specs::cmp::OrdSpec;
use crate::text::{push_str, string_of, trim, trimmed};

verus! {

/// How neighbouring sheets meet: flush, or with a gutter between them.
#[derive(Clone, Copy, Debug, PartialEq, Eq, Structural)]
pub enum SheetJoin {
    Linked,
    Separate,
}

impl Default for SheetJoin {
    fn default() -> (r: Self)
        ensures
            r == SheetJoin::Linked,
    {
        SheetJoin::Linked
    }
}

/// One “+” that would create the unit at `(dest_col, dest_row)`.
/// `center` is true when several edges share that hole (diagonal / gap).
#[derive(Clone, Copy, Debug, PartialEq, Eq, Structural)]
pub struct UnitTab {
    pub dest_col: i32,
    pub dest_row: i32,
    pub src_col: i32,
    pub src_row: i32,
    pub dcol: i32,
    pub drow: i32,
    pub center: bool,
}

/// The ruling printed on the paper.
#[derive(Clone, Copy, Debug, PartialEq, Eq, Structural)]
pub enum PaperKind {
    Blank,
    Lined,
    Grid,
    Dots,
    Millimetre,
    Slate,
}

/// `k` after `n` presses of the paper key.
pub open spec fn cycled(k: PaperKind, n: nat) -> PaperKind
    decreases n,
{
    if n == 0 {
        k
    } else {
        cycled(k, (n - 1) as nat).next_kind()
    }
}

/// Pressing the paper key steps blank, lined, grid, dotted, millimetre,
/// slate and back to blank: every press changes the paper, six presses
/// bring any paper back, and every paper is reached from any other.
pub proof fn law_paper_cycle(k: PaperKind, other: PaperKind)
    ensures
        k.next_kind() != k,
        cycled(k, 6) == k,
        exists|n: nat| n < 6 && #[trigger] cycled(k, n) == other,
        cycled(PaperKind::Blank, 1) == PaperKind::Lined,
        cycled(PaperKind::Blank, 2) == PaperKind::Grid,
        cycled(PaperKind::Blank, 3) == PaperKind::Dots,
        cycled(PaperKind::Blank, 4) == PaperKind::Millimetre,
        cycled(PaperKind::Blank, 5) == PaperKind::Slate,
{
    reveal_with_fuel(cycled, 7);
    let seen = seq![cycled(k, 0), cycled(k, 1), cycled(k, 2), cycled(k, 3), cycled(k, 4), cycled(k, 5)];
    assert(seen.contains(other)) by {
        match k {
            PaperKind::Blank => {},
            PaperKind::Lined => {},
            PaperKind::Grid => {},
            PaperKind::Dots => {},
            PaperKind::Millimetre => {},
            PaperKind::Slate => {},
        }
        match other {
            PaperKind::Blank => {},
            PaperKind::Lined => {},
            PaperKind::Grid => {},
            PaperKind::Dots => {},
            PaperKind::Millimetre => {},
            PaperKind::Slate => {},
        }
    }
    let i = choose|i: int| 0 <= i < 6 && seen[i] == other;
    assert(cycled(k, i as nat) == other);
}

impl Default for PaperKind {
    fn default() -> (r: Self)
        ensures
            r == PaperKind::Millimetre,
    {
        PaperKind::Millimetre
    }
}

impl PaperKind {
    pub open spec fn next_kind(self) -> PaperKind {
        match self {
            PaperKind::Blank => PaperKind::Lined,
            PaperKind::Lined => PaperKind::Grid,
            PaperKind::Grid => PaperKind::Dots,
            PaperKind::Dots => PaperKind::Millimetre,
            PaperKind::Millimetre => PaperKind::Slate,
            PaperKind::Slate => PaperKind::Blank,
        }
    }

    pub fn label(self) -> (r: &'static str)
        ensures
            r@ == match self {
                PaperKind::Blank => "Blank"@,
                PaperKind::Lined => "Lined"@,
                PaperKind::Grid => "Grid"@,
                PaperKind::Dots => "Dots"@,
                PaperKind::Millimetre => "Millimeter"@,
                PaperKind::Slate => "Slate"@,
            },
    {
        match self {
            PaperKind::Blank => "Blank",
            PaperKind::Lined => "Lined",
            PaperKind::Grid => "Grid",
            PaperKind::Dots => "Dots",
            PaperKind::Millimetre => "Millimeter",
            PaperKind::Slate => "Slate",
        }
    }

    pub fn cycle(self) -> (r: Self)
        ensures
            r == self.next_kind(),
    {
        match self {
            PaperKind::Blank => PaperKind::Lined,
            PaperKind::Lined => PaperKind::Grid,
            PaperKind::Grid => PaperKind::Dots,
            PaperKind::Dots => PaperKind::Millimetre,
            PaperKind::Millimetre => PaperKind::Slate,
            PaperKind::Slate => PaperKind::Blank,
        }
    }
}

/// Largest index `clamp_cell` may return along an axis of `n` cells.
pub open spec fn last_cell(n: i32) -> int {
    if n >= 1 { n - 1 } else { 0 }
}

pub open spec fn clamp_to(v: i32, hi: int) -> int {
    if v < 0 { 0 } else if v > hi { hi } else { v as int }
}

/// Clamps a tile index into a `cols × rows` block.
pub fn clamp_cell(c: i32, r: i32, cols: i32, rows: i32) -> (res: (i32, i32))
    ensures
        res.0 == clamp_to(c, last_cell(cols)),
        res.1 == clamp_to(r, last_cell(rows)),
{
    let hc: i32 = if cols >= 1 { cols - 1 } else { 0 };
    let hr: i32 = if rows >= 1 { rows - 1 } else { 0 };
    let cc: i32 = if c < 0 { 0 } else if c > hc { hc } else { c };
    let rr: i32 = if r < 0 { 0 } else if r > hr { hr } else { r };
    (cc, rr)
}

} // verus!

verus! {

/// A sheet of the notebook at grid cell `(col, row)`, holding `body`.
#[derive(Clone, Debug)]
pub struct Page<B> {
    pub col: i32,
    pub row: i32,
    pub body: B,
}

impl<B> Page<B> {
    pub fn at(col: i32, row: i32, body: B) -> (p: Self)
        ensures
            p.col == col,
            p.row == row,
            p.body == body,
    {
        Page { col, row, body }
    }
}

/// A moment in UTC: whole seconds since the Unix epoch and the nanoseconds
/// past that second.
#[derive(Clone, Copy, Debug, PartialEq, Eq, Structural)]
pub struct Moment {
    pub secs: i64,
    pub nanos: u32,
}

/// A value of an axis that leaves room for `span` cells and one neighbour on
/// each side inside `i32`.
pub open spec fn fits(v: i32, span: i32) -> bool {
    i32::MIN < v && v + span < i32::MAX
}

/// Largest grown-sheet block and page count the notebook model handles:
/// 2^24 unit cells. Each cell has four sides, and each free side is a
/// 16-byte record, so the edges of the largest grid take 2^30 bytes and
/// stay inside the 32-bit address space the crate also runs in.
pub open spec fn max_cells() -> int {
    0x100_0000
}

/// The four sides of a unit cell, in the order they are examined.
pub open spec fn side(k: int) -> (i32, i32) {
    if k == 0 {
        (-1i32, 0i32)
    } else if k == 1 {
        (1i32, 0i32)
    } else if k == 2 {
        (0i32, -1i32)
    } else {
        (0i32, 1i32)
    }
}

pub open spec fn neighbour(cell: (i32, i32), d: (i32, i32)) -> (i32, i32) {
    ((cell.0 + d.0) as i32, (cell.1 + d.1) as i32)
}

/// The free side `d` of `cell`, if the neighbour there is not among `units`.
pub open spec fn free_side(cell: (i32, i32), d: (i32, i32), units: Seq<(i32, i32)>) -> Seq<(i32, i32, i32, i32)> {
    if units.contains(neighbour(cell, d)) {
        seq![]
    } else {
        seq![(cell.0, cell.1, d.0, d.1)]
    }
}

/// Free sides of one unit cell, left, right, top, bottom.
pub open spec fn free_sides(cell: (i32, i32), units: Seq<(i32, i32)>) -> Seq<(i32, i32, i32, i32)> {
    free_side(cell, side(0), units) + free_side(cell, side(1), units) + free_side(cell, side(2), units)
        + free_side(cell, side(3), units)
}

/// Free sides of each cell of `cells`, cell by cell.
pub open spec fn free_edges_of(cells: Seq<(i32, i32)>, units: Seq<(i32, i32)>) -> Seq<(i32, i32, i32, i32)>
    decreases cells.len(),
{
    if cells.len() == 0 {
        seq![]
    } else {
        free_edges_of(cells.drop_last(), units) + free_sides(cells.last(), units)
    }
}

/// The `cols × rows` unit cells of a sheet whose first cell is `(c0, r0)`,
/// in ascending `(col, row)` order.
pub open spec fn tiles_at(c0: i32, r0: i32, cols: i32, rows: i32) -> Seq<(i32, i32)> {
    Seq::new(
        (cols * rows) as nat,
        |k: int| ((c0 + k / (rows as int)) as i32, (r0 + k % (rows as int)) as i32),
    )
}

/// The grid cell of each page of `pages`, in order.
pub open spec fn cells_of<B>(pages: Seq<Page<B>>) -> Seq<(i32, i32)> {
    pages.map_values(|p: Page<B>| (p.col, p.row))
}

/// A notebook whose pages hold bodies of type `B`.
#[derive(Clone, Debug)]
pub struct Note<B> {
    pub id: u128,
    pub title: String,
    pub paper: PaperKind,
    pub cover: u8,
    pub emoji: String,
    pub created: Moment,
    pub updated: Moment,
    pub pinned: bool,
    pub pages: Vec<Page<B>>,
    /// Unit columns covered by the sheet width (at least 1).
    pub span_cols: i32,
    /// Unit rows covered by the sheet height (at least 1).
    pub span_rows: i32,
    /// The sheet has exactly the dimensions of one A4 unit.
    pub unit_size: bool,
    pub sheet_join: SheetJoin,
}

impl<B> Note<B> {
    /// The grid cell of every page, in page order.
    pub open spec fn cells(&self) -> Seq<(i32, i32)> {
        cells_of(self.pages@)
    }

    /// One page whose sheet is larger than a unit.
    pub open spec fn grown(&self) -> bool {
        self.pages@.len() == 1 && (self.span_cols > 1 || self.span_rows > 1)
    }

    pub open spec fn block_len(&self) -> int {
        self.span_cols * self.span_rows
    }

    /// The unit cells of the first page's sheet, row by row.
    pub open spec fn block(&self) -> Seq<(i32, i32)> {
        let p = self.pages@[0];
        Seq::new(
            self.block_len() as nat,
            |k: int| ((p.col + k % (self.span_cols as int)) as i32, (p.row + k / (self.span_cols as int)) as i32),
        )
    }

    /// The unit cells of the first page's sheet, in ascending `(col, row)` order.
    pub open spec fn tiles(&self) -> Seq<(i32, i32)> {
        tiles_at(self.pages@[0].col, self.pages@[0].row, self.span_cols, self.span_rows)
    }

    /// The A4 unit cells the notebook covers.
    pub open spec fn units(&self) -> Seq<(i32, i32)> {
        if self.grown() {
            self.block()
        } else {
            self.cells()
        }
    }

    /// The notebook's internal invariant.
    pub open spec fn wf(&self) -> bool {
        &&& 1 <= self.span_cols
        &&& 1 <= self.span_rows
        &&& self.block_len() <= max_cells()
        &&& self.pages@.len() <= max_cells()
        &&& self.unit_size ==> self.span_cols == 1 && self.span_rows == 1
        &&& forall|i: int|
            0 <= i < self.pages@.len() ==> {
                let p = #[trigger] self.pages@[i];
                if self.grown() {
                    fits(p.col, self.span_cols) && fits(p.row, self.span_rows)
                } else {
                    fits(p.col, 1) && fits(p.row, 1)
                }
            }
    }
}

proof fn lemma_block_index(k: int, cols: int, rows: int)
    requires
        1 <= cols,
        1 <= rows,
        0 <= k < cols * rows,
    ensures
        0 <= k % cols < cols,
        0 <= k / cols < rows,
        0 <= k % rows < rows,
        0 <= k / rows < cols,
{
    assert(0 <= k % cols < cols) by (nonlinear_arith)
        requires
            1 <= cols,
            0 <= k,
    ;
    assert(0 <= k / cols < rows) by (nonlinear_arith)
        requires
            1 <= cols,
            1 <= rows,
            0 <= k < cols * rows,
    ;
    assert(0 <= k % rows < rows) by (nonlinear_arith)
        requires
            1 <= rows,
            0 <= k,
    ;
    assert(0 <= k / rows < cols) by (nonlinear_arith)
        requires
            1 <= cols,
            1 <= rows,
            0 <= k < cols * rows,
    ;
}

/// Whether `v` holds `x`.
pub fn holds_cell(v: &Vec<(i32, i32)>, x: (i32, i32)) -> (r: bool)
    ensures
        r == v@.contains(x),
{
    let mut i: usize = 0;
    while i < v.len()
        invariant
            0 <= i <= v.len(),
            forall|j: int| 0 <= j < i ==> v@[j] != x,
        decreases v.len() - i,
    {
        if v[i].0 == x.0 && v[i].1 == x.1 {
            return true;
        }
        i = i + 1;
    }
    false
}

impl<B> Note<B> {
    /// Whether the notebook meets the model's invariant: spans of at least
    /// one unit, a block and a page count within `max_cells`, a unit-sized
    /// sheet of one unit, and every page far enough from the ends of `i32`.
    pub fn is_sound(&self) -> (r: bool)
        ensures
            r == self.wf(),
    {
        if self.span_cols < 1 || self.span_rows < 1 {
            return false;
        }
        let sc0: i64 = self.span_cols as i64;
        let sr0: i64 = self.span_rows as i64;
        assert(sc0 * sr0 <= 0x7fff_ffff * 0x7fff_ffff) by (nonlinear_arith)
            requires
                1 <= sc0 <= 0x7fff_ffff,
                1 <= sr0 <= 0x7fff_ffff,
        ;
        let block: i64 = sc0 * sr0;
        if block > 0x100_0000 || self.pages.len() > 0x100_0000 {
            return false;
        }
        if self.unit_size && (self.span_cols != 1 || self.span_rows != 1) {
            return false;
        }
        let grown = self.pages.len() == 1 && (self.span_cols > 1 || self.span_rows > 1);
        let (sc, sr): (i32, i32) = if grown {
            (self.span_cols, self.span_rows)
        } else {
            (1, 1)
        };
        let mut i: usize = 0;
        while i < self.pages.len()
            invariant
                0 <= i <= self.pages@.len(),
                1 <= sc,
                1 <= sr,
                grown == self.grown(),
                grown ==> sc == self.span_cols && sr == self.span_rows,
                !grown ==> sc == 1 && sr == 1,
                forall|k: int| 0 <= k < i ==> {
                    let p = #[trigger] self.pages@[k];
                    fits(p.col, sc) && fits(p.row, sr)
                },
            decreases self.pages.len() - i,
        {
            let p = &self.pages[i];
            if !(i32::MIN < p.col && (p.col as i64) + (sc as i64) < i32::MAX as i64 && i32::MIN < p.row
                && (p.row as i64) + (sr as i64) < i32::MAX as i64) {
                assert(!({
                    let q = self.pages@[i as int];
                    fits(q.col, sc) && fits(q.row, sr)
                }));
                return false;
            }
            i = i + 1;
        }
        true
    }

    pub fn cell_taken(&self, col: i32, row: i32) -> (r: bool)
        ensures
            r == self.cells().contains((col, row)),
    {
        let mut i: usize = 0;
        while i < self.pages.len()
            invariant
                0 <= i <= self.pages@.len(),
                forall|j: int| 0 <= j < i ==> self.cells()[j] != (col, row),
            decreases self.pages.len() - i,
        {
            if self.pages[i].col == col && self.pages[i].row == row {
                assert(self.cells()[i as int] == (col, row));
                return true;
            }
            i = i + 1;
        }
        false
    }

    pub fn is_grown_single(&self) -> (r: bool)
        ensures
            r == self.grown(),
    {
        self.pages.len() == 1 && (self.span_cols > 1 || self.span_rows > 1)
    }

    /// Unit A4 cells covered by the notebook, including a grown linked sheet.
    pub fn unit_cells(&self) -> (r: Vec<(i32, i32)>)
        requires
            self.wf(),
        ensures
            r@ == self.units(),
    {
        if self.is_grown_single() {
            let cols = self.span_cols;
            let rows = self.span_rows;
            let c0 = self.pages[0].col;
            let r0 = self.pages[0].row;
            assert(fits(c0, cols) && fits(r0, rows)) by {
                assert(self.pages@[0].col == c0);
            }
            let n: i32 = cols * rows;
            let mut cells: Vec<(i32, i32)> = Vec::new();
            let mut k: i32 = 0;
            while k < n
                invariant
                    0 <= k <= n,
                    n == self.block_len(),
                    1 <= cols,
                    1 <= rows,
                    cols == self.span_cols,
                    c0 == self.pages@[0].col,
                    r0 == self.pages@[0].row,
                    fits(c0, cols),
                    fits(r0, rows),
                    self.block_len() == cols * rows,
                    cells@ == self.block().take(k as int),
                decreases n - k,
            {
                proof {
                    lemma_block_index(k as int, cols as int, rows as int);
                }
                let cell: (i32, i32) = (c0 + k % cols, r0 + k / cols);
                cells.push(cell);
                k = k + 1;
                assert(cells@ =~= self.block().take(k as int));
            }
            assert(self.block().take(n as int) =~= self.block());
            cells
        } else {
            let mut cells: Vec<(i32, i32)> = Vec::new();
            let mut i: usize = 0;
            while i < self.pages.len()
                invariant
                    0 <= i <= self.pages@.len(),
                    cells@ == self.cells().take(i as int),
                decreases self.pages.len() - i,
            {
                cells.push((self.pages[i].col, self.pages[i].row));
                i = i + 1;
                assert(cells@ =~= self.cells().take(i as int));
            }
            assert(self.cells().take(i as int) =~= self.cells());
            cells
        }
    }

    pub fn unit_occupied(&self, col: i32, row: i32) -> (r: bool)
        requires
            self.wf(),
        ensures
            r == self.units().contains((col, row)),
    {
        if self.is_grown_single() {
            let cells = self.unit_cells();
            holds_cell(&cells, (col, row))
        } else {
            self.cell_taken(col, row)
        }
    }
}

} // verus!

verus! {


/// The set of cells `cells` holds.
fn cell_set(cells: &Vec<(i32, i32)>) -> (r: BTreeSet<(i32, i32)>)
    ensures
        forall|x: (i32, i32)| #[trigger] r@.contains(x) <==> cells@.contains(x),
{
    proof {
        lemma_pair_keys();
    }
    let mut set: BTreeSet<(i32, i32)> = BTreeSet::new();
    let mut i: usize = 0;
    while i < cells.len()
        invariant
            0 <= i <= cells@.len(),
            forall|x: (i32, i32)| #[trigger] set@.contains(x) <==> cells@.take(i as int).contains(x),
        decreases cells.len() - i,
    {
        let ghost before = set@;
        set.insert(cells[i]);
        proof {
            let t = cells@.take(i + 1);
            assert(t =~= cells@.take(i as int).push(cells@[i as int]));
            assert forall|x: (i32, i32)| #[trigger] set@.contains(x) <==> t.contains(x) by {
                if x == cells@[i as int] {
                    assert(t[i as int] == x);
                }
                if t.contains(x) && x != cells@[i as int] {
                    let k = choose|k: int| 0 <= k < t.len() && t[k] == x;
                    assert(cells@.take(i as int)[k] == x);
                }
                if cells@.take(i as int).contains(x) {
                    let k = choose|k: int| 0 <= k < i && cells@.take(i as int)[k] == x;
                    assert(t[k] == x);
                }
            }
        }
        i = i + 1;
    }
    assert(cells@.take(i as int) =~= cells@);
    set
}

fn push_free_side(
    out: &mut Vec<(i32, i32, i32, i32)>,
    cell: (i32, i32),
    d: (i32, i32),
    occupied: &BTreeSet<(i32, i32)>,
    Ghost(units): Ghost<Seq<(i32, i32)>>,
)
    requires
        fits(cell.0, 1),
        fits(cell.1, 1),
        -1 <= d.0 <= 1,
        -1 <= d.1 <= 1,
        forall|x: (i32, i32)| #[trigger] occupied@.contains(x) <==> units.contains(x),
    ensures
        final(out)@ == old(out)@ + free_side(cell, d, units),
{
    proof {
        lemma_pair_keys();
    }
    let nb: (i32, i32) = (cell.0 + d.0, cell.1 + d.1);
    assert(nb == neighbour(cell, d));
    if !occupied.contains(&nb) {
        out.push((cell.0, cell.1, d.0, d.1));
        assert(final(out)@ =~= old(out)@ + free_side(cell, d, units));
    } else {
        assert(old(out)@ + free_side(cell, d, units) =~= old(out)@);
    }
}

impl<B> Note<B> {
    /// Under the invariant every unit cell keeps its four neighbours inside `i32`.
    pub proof fn lemma_units_fit(&self)
        requires
            self.wf(),
        ensures
            forall|k: int|
                0 <= k < self.units().len() ==> fits(#[trigger] self.units()[k].0, 1) && fits(
                    self.units()[k].1,
                    1,
                ),
    {
        if self.grown() {
            let p = self.pages@[0];
            assert(fits(p.col, self.span_cols) && fits(p.row, self.span_rows));
            assert forall|k: int| 0 <= k < self.units().len() implies fits(
                #[trigger] self.units()[k].0,
                1,
            ) && fits(self.units()[k].1, 1) by {
                lemma_block_index(k, self.span_cols as int, self.span_rows as int);
            }
        } else {
            assert forall|k: int| 0 <= k < self.units().len() implies fits(
                #[trigger] self.units()[k].0,
                1,
            ) && fits(self.units()[k].1, 1) by {
                assert(self.units()[k] == (self.pages@[k].col, self.pages@[k].row));
            }
        }
    }

    /// Free sides of each unit cell: `(col, row, dcol, drow)`.
    pub fn free_unit_edges(&self) -> (r: Vec<(i32, i32, i32, i32)>)
        requires
            self.wf(),
        ensures
            r@ == free_edges_of(self.units(), self.units()),
    {
        let cells = self.unit_cells();
        proof {
            self.lemma_units_fit();
        }
        let occupied = cell_set(&cells);
        let mut out: Vec<(i32, i32, i32, i32)> = Vec::new();
        let mut i: usize = 0;
        while i < cells.len()
            invariant
                0 <= i <= cells@.len(),
                cells@ == self.units(),
                forall|k: int|
                    0 <= k < cells@.len() ==> fits(#[trigger] cells@[k].0, 1) && fits(
                        cells@[k].1,
                        1,
                    ),
                out@ == free_edges_of(cells@.take(i as int), cells@),
            forall|x: (i32, i32)| #[trigger] occupied@.contains(x) <==> cells@.contains(x),
            decreases cells.len() - i,
        {
            let cell = cells[i];
            assert(fits(cells@[i as int].0, 1));
            let ghost before = out@;
            push_free_side(&mut out, cell, (-1, 0), &occupied, Ghost(cells@));
            push_free_side(&mut out, cell, (1, 0), &occupied, Ghost(cells@));
            push_free_side(&mut out, cell, (0, -1), &occupied, Ghost(cells@));
            push_free_side(&mut out, cell, (0, 1), &occupied, Ghost(cells@));
            assert(cells@.take(i + 1).drop_last() =~= cells@.take(i as int));
            assert(cells@.take(i + 1).last() == cell);
            assert(out@ =~= before + free_sides(cell, cells@));
            i = i + 1;
        }
        assert(cells@.take(i as int) =~= cells@);
        out
    }
}

} // verus!

verus! {

/// Where a free edge `(col, row, dcol, drow)` leads.
pub open spec fn edge_dest(e: (i32, i32, i32, i32)) -> (i32, i32) {
    ((e.0 + e.2) as i32, (e.1 + e.3) as i32)
}

/// A free edge from a cell that keeps its neighbours inside `i32`.
pub open spec fn edge_ok(e: (i32, i32, i32, i32)) -> bool {
    fits(e.0, 1) && fits(e.1, 1) && -1 <= e.2 <= 1 && -1 <= e.3 <= 1
}

/// Ascending `(col, row)` order.
pub open spec fn cell_lt(a: (i32, i32), b: (i32, i32)) -> bool {
    a.0 < b.0 || (a.0 == b.0 && a.1 < b.1)
}

pub open spec fn tab_dest(t: UnitTab) -> (i32, i32) {
    (t.dest_col, t.dest_row)
}

/// Edge `k` is the first of `edges` that leads where it leads.
pub open spec fn first_for(edges: Seq<(i32, i32, i32, i32)>, k: int) -> bool {
    forall|k2: int| 0 <= k2 < k ==> edge_dest(#[trigger] edges[k2]) != edge_dest(edges[k])
}

/// Another edge of `edges` leads where edge `k` leads.
pub open spec fn shared(edges: Seq<(i32, i32, i32, i32)>, k: int) -> bool {
    exists|k2: int|
        0 <= k2 < edges.len() && k2 != k && edge_dest(#[trigger] edges[k2]) == edge_dest(edges[k])
}

/// The tab that edge `k` of `edges` stands for.
pub open spec fn tab_for(edges: Seq<(i32, i32, i32, i32)>, k: int) -> UnitTab {
    UnitTab {
        dest_col: edge_dest(edges[k]).0,
        dest_row: edge_dest(edges[k]).1,
        src_col: edges[k].0,
        src_row: edges[k].1,
        dcol: edges[k].2,
        drow: edges[k].3,
        center: shared(edges, k),
    }
}

/// `tabs` groups `edges` by destination: one tab per destination, in
/// ascending destination order, drawn from the first edge that leads there
/// and centred when several edges share that destination.
pub open spec fn tabs_group(edges: Seq<(i32, i32, i32, i32)>, tabs: Seq<UnitTab>) -> bool {
    &&& tabs_sorted(tabs)
    &&& tabs_drawn(edges, tabs)
    &&& tabs_cover(edges, tabs)
}

/// Tabs come in strictly increasing order of destination.
pub open spec fn tabs_sorted(tabs: Seq<UnitTab>) -> bool {
    forall|i: int, j: int|
        0 <= i < j < tabs.len() ==> cell_lt(tab_dest(#[trigger] tabs[i]), tab_dest(#[trigger] tabs[j]))
}

/// `tab` stands for the first edge of `edges` to its destination.
pub open spec fn drawn_from(edges: Seq<(i32, i32, i32, i32)>, tab: UnitTab) -> bool {
    exists|k: int| 0 <= k < edges.len() && first_for(edges, k) && tab == #[trigger] tab_for(edges, k)
}

/// Some tab of `tabs` leads to `d`.
pub open spec fn has_tab_to(tabs: Seq<UnitTab>, d: (i32, i32)) -> bool {
    exists|i: int| 0 <= i < tabs.len() && tab_dest(#[trigger] tabs[i]) == d
}

/// Each tab stands for the first edge to its destination.
pub open spec fn tabs_drawn(edges: Seq<(i32, i32, i32, i32)>, tabs: Seq<UnitTab>) -> bool {
    forall|i: int| 0 <= i < tabs.len() ==> drawn_from(edges, #[trigger] tabs[i])
}

/// Each edge's destination has a tab.
pub open spec fn tabs_cover(edges: Seq<(i32, i32, i32, i32)>, tabs: Seq<UnitTab>) -> bool {
    forall|k: int| 0 <= k < edges.len() ==> has_tab_to(tabs, edge_dest(#[trigger] edges[k]))
}

proof fn lemma_free_side_dest(cell: (i32, i32), d: (i32, i32), units: Seq<(i32, i32)>, e: (i32, i32, i32, i32))
    requires
        free_side(cell, d, units).contains(e),
        fits(cell.0, 1),
        fits(cell.1, 1),
        -1 <= d.0 <= 1,
        -1 <= d.1 <= 1,
    ensures
        !units.contains(edge_dest(e)),
        e.0 == cell.0 && e.1 == cell.1,
        e.2 == d.0 && e.3 == d.1,
{
    assert(free_side(cell, d, units)[0] == e);
}

/// No free edge leads onto a unit cell.
pub proof fn lemma_free_edges_lead_out(cells: Seq<(i32, i32)>, units: Seq<(i32, i32)>)
    requires
        forall|k: int| 0 <= k < cells.len() ==> fits(#[trigger] cells[k].0, 1) && fits(cells[k].1, 1),
    ensures
        forall|k: int|
            0 <= k < free_edges_of(cells, units).len() ==> !units.contains(
                edge_dest(#[trigger] free_edges_of(cells, units)[k]),
            ) && edge_ok(free_edges_of(cells, units)[k]),
    decreases cells.len(),
{
    if cells.len() > 0 {
        let init = cells.drop_last();
        let c = cells.last();
        assert(fits(cells[cells.len() - 1].0, 1));
        lemma_free_edges_lead_out(init, units);
        let a = free_edges_of(init, units);
        let s0 = free_side(c, side(0), units);
        let s1 = free_side(c, side(1), units);
        let s2 = free_side(c, side(2), units);
        let s3 = free_side(c, side(3), units);
        assert(free_edges_of(cells, units) == a + (s0 + s1 + s2 + s3));
        assert forall|k: int| 0 <= k < free_edges_of(cells, units).len() implies !units.contains(
            edge_dest(#[trigger] free_edges_of(cells, units)[k]),
        ) && edge_ok(free_edges_of(cells, units)[k]) by {
            let e = free_edges_of(cells, units)[k];
            if k < a.len() {
                assert(e == a[k]);
            } else {
                let m = k - a.len();
                if m < s0.len() {
                    assert(s0.contains(e)) by { assert(s0[m] == e); }
                    lemma_free_side_dest(c, side(0), units, e);
                } else if m < s0.len() + s1.len() {
                    assert(s1.contains(e)) by { assert(s1[m - s0.len()] == e); }
                    lemma_free_side_dest(c, side(1), units, e);
                } else if m < s0.len() + s1.len() + s2.len() {
                    assert(s2.contains(e)) by { assert(s2[m - s0.len() - s1.len()] == e); }
                    lemma_free_side_dest(c, side(2), units, e);
                } else {
                    assert(s3.contains(e)) by { assert(s3[m - s0.len() - s1.len() - s2.len()] == e); }
                    lemma_free_side_dest(c, side(3), units, e);
                }
            }
        }
    }
}

} // verus!

verus! {

proof fn lemma_first_for_extend(edges: Seq<(i32, i32, i32, i32)>, i: int, k: int)
    requires
        0 <= k < i < edges.len(),
    ensures
        first_for(edges.take(i + 1), k) == first_for(edges.take(i), k),
{
    assert forall|k2: int| 0 <= k2 < k implies edges.take(i + 1)[k2] == edges.take(i)[k2] by {}
    assert(edges.take(i + 1)[k] == edges.take(i)[k]);
    if first_for(edges.take(i), k) {
        assert forall|k2: int| 0 <= k2 < k implies edge_dest(#[trigger] edges.take(i + 1)[k2])
            != edge_dest(edges.take(i + 1)[k]) by {
            assert(edges.take(i + 1)[k2] == edges.take(i)[k2]);
        }
    }
    if first_for(edges.take(i + 1), k) {
        assert forall|k2: int| 0 <= k2 < k implies edge_dest(#[trigger] edges.take(i)[k2])
            != edge_dest(edges.take(i)[k]) by {
            assert(edges.take(i + 1)[k2] == edges.take(i)[k2]);
        }
    }
}

proof fn lemma_shared_extend(edges: Seq<(i32, i32, i32, i32)>, i: int, k: int)
    requires
        0 <= k < i < edges.len(),
    ensures
        edge_dest(edges[i]) != edge_dest(edges[k]) ==> shared(edges.take(i + 1), k) == shared(
            edges.take(i),
            k,
        ),
        edge_dest(edges[i]) == edge_dest(edges[k]) ==> shared(edges.take(i + 1), k),
{
    let pre = edges.take(i);
    let post = edges.take(i + 1);
    assert(post[k] == edges[k]);
    assert(pre[k] == edges[k]);
    assert(post[i] == edges[i]);
    if shared(pre, k) {
        let k2 = choose|k2: int|
            0 <= k2 < pre.len() && k2 != k && edge_dest(#[trigger] pre[k2]) == edge_dest(pre[k]);
        assert(post[k2] == pre[k2]);
        assert(shared(post, k));
    }
    if edge_dest(edges[i]) != edge_dest(edges[k]) && shared(post, k) {
        let k2 = choose|k2: int|
            0 <= k2 < post.len() && k2 != k && edge_dest(#[trigger] post[k2]) == edge_dest(post[k]);
        assert(k2 != i);
        assert(post[k2] == pre[k2]);
        assert(shared(pre, k));
    }
    if edge_dest(edges[i]) == edge_dest(edges[k]) {
        assert(edge_dest(post[i]) == edge_dest(post[k]));
        assert(shared(post, k));
    }
}

/// A tab drawn from the first `i` edges, to where edge `i` also leads,
/// is drawn from the first `i + 1` once centred.
proof fn lemma_tab_bumped(edges: Seq<(i32, i32, i32, i32)>, i: int, tab: UnitTab)
    requires
        0 <= i < edges.len(),
        drawn_from(edges.take(i), tab),
        tab_dest(tab) == edge_dest(edges[i]),
    ensures
        drawn_from(edges.take(i + 1), UnitTab { center: true, ..tab }),
{
    let pre = edges.take(i);
    let post = edges.take(i + 1);
    let k = choose|k: int| 0 <= k < pre.len() && first_for(pre, k) && tab == #[trigger] tab_for(pre, k);
    assert(pre[k] == edges[k] && post[k] == edges[k]);
    lemma_first_for_extend(edges, i, k);
    lemma_shared_extend(edges, i, k);
    assert(UnitTab { center: true, ..tab } == tab_for(post, k));
}






/// A tab drawn from the first `i` edges is still drawn from the first
/// `i + 1`, when edge `i` leads elsewhere.
proof fn lemma_tab_still_drawn(edges: Seq<(i32, i32, i32, i32)>, i: int, tab: UnitTab)
    requires
        0 <= i < edges.len(),
        exists|k: int| 0 <= k < i && #[trigger] first_for(edges.take(i), k) && tab == tab_for(edges.take(i), k),
        tab_dest(tab) != edge_dest(edges[i]),
    ensures
        exists|k: int|
            0 <= k < edges.take(i + 1).len() && #[trigger] first_for(edges.take(i + 1), k) && tab
                == tab_for(edges.take(i + 1), k),
{
    let pre = edges.take(i);
    let post = edges.take(i + 1);
    let k = choose|k: int| 0 <= k < i && #[trigger] first_for(pre, k) && tab == tab_for(pre, k);
    assert(pre[k] == edges[k] && post[k] == edges[k]);
    lemma_first_for_extend(edges, i, k);
    lemma_shared_extend(edges, i, k);
    assert(tab == tab_for(post, k));
}





/// Switching a notebook to separate sheets and back to linked ones keeps
/// the unit pages the split made, and, for a notebook with pages, the units
/// it covers.
pub proof fn law_join_round_trip<B>(
    n0: Note<B>,
    n1: Note<B>,
    n2: Note<B>,
    blank1: B,
    bodies1: Seq<B>,
    blank2: B,
    bodies2: Seq<B>,
)
    requires
        n0.wf(),
        Note::join_outcome(n0, n1, SheetJoin::Separate, blank1, bodies1),
        Note::join_outcome(n1, n2, SheetJoin::Linked, blank2, bodies2),
    ensures
        n2.pages@ == n1.pages@,
        n2.sheet_join == SheetJoin::Linked,
        n2.same_meta(&n0),
        n0.pages@.len() > 0 ==> n2.units().to_set() == n0.units().to_set(),
{
    assert(!n1.grown_when_filled());
    if n0.grown_when_filled() {
        let first = n0.filled_pages(blank1)[0];
        let tiles = tiles_at(first.col, first.row, n0.span_cols, n0.span_rows);
        assert(n0.span_cols * n0.span_rows >= 1) by (nonlinear_arith)
            requires
                1 <= n0.span_cols,
                1 <= n0.span_rows,
        ;
        assert(n1.pages@.len() == tiles.len());
    }
    assert(n1.pages@.len() > 0);
    assert(n1.filled_pages(blank2) == n1.pages@);
}

/// Groups `edges` by destination.
#[verifier::rlimit(40)]
/// Pairs of `i32` are ordered as `BTreeSet` and `BTreeMap` need their keys
/// to be, and a run of keys in increasing order is a run in ascending
/// `(col, row)` order.
proof fn lemma_pair_keys()
    ensures
        vstd::laws_cmp::obeys_cmp::<(i32, i32)>(),
        vstd::std_specs::btree::key_obeys_cmp_spec::<(i32, i32)>(),
        forall|s: Seq<(i32, i32)>| #[trigger] vstd::std_specs::btree::increasing_seq(s) ==> forall|i: int, j: int|
            0 <= i < j < s.len() ==> cell_lt(#[trigger] s[i], #[trigger] s[j]),
{
    broadcast use {
        vstd::laws_cmp::group_laws_cmp,
        vstd::std_specs::btree::axiom_key_obeys_cmp_spec_meaning,
        vstd::std_specs::btree::axiom_increasing_seq_meaning,
    };

    assert forall|s: Seq<(i32, i32)>, i: int, j: int|
        vstd::std_specs::btree::increasing_seq(s) && 0 <= i < j < s.len() implies cell_lt(s[i], s[j]) by {
        assert(s[i].cmp_spec(&s[j]) is Less);
    }
}

/// `m` maps each destination of `edges` to its tab.
pub open spec fn groups_by_dest(edges: Seq<(i32, i32, i32, i32)>, m: Map<(i32, i32), UnitTab>) -> bool {
    &&& forall|dd: (i32, i32)| #[trigger] m.contains_key(dd) ==> tab_dest(m[dd]) == dd && drawn_from(edges, m[dd])
    &&& forall|dd: (i32, i32)| #[trigger] m.contains_key(dd) ==> exists|k: int|
        0 <= k < edges.len() && edge_dest(#[trigger] edges[k]) == dd
    &&& forall|k: int| 0 <= k < edges.len() ==> m.contains_key(edge_dest(#[trigger] edges[k]))
}

/// Adding edge `i` to the grouping: a new destination gets the edge's tab,
/// a known one has its tab centred.
proof fn lemma_group_map_step(
    edges: Seq<(i32, i32, i32, i32)>,
    i: int,
    m: Map<(i32, i32), UnitTab>,
    m2: Map<(i32, i32), UnitTab>,
)
    requires
        0 <= i < edges.len(),
        groups_by_dest(edges.take(i), m),
        m.contains_key(edge_dest(edges[i])) ==> m2 == m.insert(
            edge_dest(edges[i]),
            UnitTab { center: true, ..m[edge_dest(edges[i])] },
        ),
        !m.contains_key(edge_dest(edges[i])) ==> m2 == m.insert(
            edge_dest(edges[i]),
            UnitTab {
                dest_col: edge_dest(edges[i]).0,
                dest_row: edge_dest(edges[i]).1,
                src_col: edges[i].0,
                src_row: edges[i].1,
                dcol: edges[i].2,
                drow: edges[i].3,
                center: false,
            },
        ),
    ensures
        groups_by_dest(edges.take(i + 1), m2),
{
    let pre = edges.take(i);
    let post = edges.take(i + 1);
    let d = edge_dest(edges[i]);
    assert(post[i] == edges[i]);
    assert forall|k: int| 0 <= k < i implies post[k] == pre[k] && pre[k] == edges[k] by {}
    if m.contains_key(d) {
        lemma_tab_bumped(edges, i, m[d]);
    } else {
        assert forall|k2: int| 0 <= k2 < i implies edge_dest(#[trigger] post[k2]) != d by {
            assert(post[k2] == pre[k2]);
            assert(m.contains_key(edge_dest(pre[k2])));
        }
        assert(first_for(post, i));
        assert(!shared(post, i));
        assert(m2[d] == tab_for(post, i));
    }
    assert forall|dd: (i32, i32)| #[trigger] m2.contains_key(dd) implies tab_dest(m2[dd]) == dd
        && drawn_from(post, m2[dd]) by {
        if dd != d {
            assert(m.contains_key(dd));
            assert(drawn_from(pre, m[dd]));
            lemma_tab_still_drawn(edges, i, m[dd]);
        }
    }
    assert forall|dd: (i32, i32)| #[trigger] m2.contains_key(dd) implies exists|k: int|
        0 <= k < post.len() && edge_dest(#[trigger] post[k]) == dd by {
        if dd == d {
            assert(edge_dest(post[i]) == dd);
        } else {
            let k = choose|k: int| 0 <= k < pre.len() && edge_dest(#[trigger] pre[k]) == dd;
            assert(edge_dest(post[k]) == dd);
        }
    }
    assert forall|k: int| 0 <= k < post.len() implies m2.contains_key(edge_dest(#[trigger] post[k])) by {
        if k < i {
            assert(m.contains_key(edge_dest(pre[k])));
        }
    }
}

/// The tabs of a grouping, read in increasing destination order, group
/// the edges.
proof fn lemma_group_map_read(
    edges: Seq<(i32, i32, i32, i32)>,
    m: Map<(i32, i32), UnitTab>,
    kvs: Seq<((i32, i32), UnitTab)>,
    tabs: Seq<UnitTab>,
)
    requires
        groups_by_dest(edges, m),
        forall|i: int, j: int| 0 <= i < j < kvs.len() ==> cell_lt((#[trigger] kvs[i]).0, (#[trigger] kvs[j]).0),
        forall|i: int| 0 <= i < kvs.len() ==> m.contains_key((#[trigger] kvs[i]).0) && m[kvs[i].0] == kvs[i].1,
        forall|dd: (i32, i32)| #[trigger] m.contains_key(dd) ==> kvs.contains((dd, m[dd])),
        tabs.len() == kvs.len(),
        forall|i: int| 0 <= i < kvs.len() ==> #[trigger] tabs[i] == kvs[i].1,
    ensures
        tabs_group(edges, tabs),
{
    assert forall|i: int, j: int| 0 <= i < j < tabs.len() implies cell_lt(
        tab_dest(#[trigger] tabs[i]),
        tab_dest(#[trigger] tabs[j]),
    ) by {
        assert(cell_lt(kvs[i].0, kvs[j].0));
        assert(m.contains_key(kvs[i].0) && m.contains_key(kvs[j].0));
    }
    assert forall|i: int| 0 <= i < tabs.len() implies drawn_from(edges, #[trigger] tabs[i]) by {
        assert(m.contains_key(kvs[i].0));
    }
    assert forall|k: int| 0 <= k < edges.len() implies has_tab_to(tabs, edge_dest(#[trigger] edges[k])) by {
        let dd = edge_dest(edges[k]);
        assert(m.contains_key(dd));
        assert(kvs.contains((dd, m[dd])));
        let i = choose|i: int| 0 <= i < kvs.len() && kvs[i] == (dd, m[dd]);
        assert(tab_dest(tabs[i]) == dd);
    }
}

fn group_tabs(edges: &Vec<(i32, i32, i32, i32)>) -> (tabs: Vec<UnitTab>)
    requires
        forall|k: int| 0 <= k < edges@.len() ==> edge_ok(#[trigger] edges@[k]),
    ensures
        tabs_group(edges@, tabs@),
{
    proof {
        lemma_pair_keys();
    }
    let mut by_dest: BTreeMap<(i32, i32), UnitTab> = BTreeMap::new();
    let mut i: usize = 0;
    assert(edges@.take(0) =~= Seq::<(i32, i32, i32, i32)>::empty());
    while i < edges.len()
        invariant
            0 <= i <= edges@.len(),
            forall|k: int| 0 <= k < edges@.len() ==> edge_ok(#[trigger] edges@[k]),
            groups_by_dest(edges@.take(i as int), by_dest@),
        decreases edges.len() - i,
    {
        let e = edges[i];
        assert(edge_ok(edges@[i as int]));
        let d: (i32, i32) = (e.0 + e.2, e.1 + e.3);
        assert(d == edge_dest(e));
        let ghost before = by_dest@;
        let t = match by_dest.get(&d) {
            Some(old) => UnitTab { center: true, ..*old },
            None => UnitTab {
                dest_col: d.0,
                dest_row: d.1,
                src_col: e.0,
                src_row: e.1,
                dcol: e.2,
                drow: e.3,
                center: false,
            },
        };
        by_dest.insert(d, t);
        proof {
            lemma_group_map_step(edges@, i as int, before, by_dest@);
        }
        i = i + 1;
    }
    assert(edges@.take(i as int) =~= edges@);
    let ghost m = by_dest@;
    let mut tabs: Vec<UnitTab> = Vec::new();
    let ghost v = spec_btree_map_iter(&by_dest).remaining();
    for kv in it: by_dest.iter()
        invariant
            by_dest@ == m,
            it.seq() == v,
            tabs@.len() == it.index(),
            forall|j: int| 0 <= j < it.index() ==> #[trigger] tabs@[j] == *v[j].1,
        ensures
            tabs@.len() == v.len(),
            forall|j: int| 0 <= j < v.len() ==> #[trigger] tabs@[j] == *v[j].1,
    {
        tabs.push(*kv.1);
    }
    proof {
        let kvs = v.map_values(|kv: (&(i32, i32), &UnitTab)| (*kv.0, *kv.1));
        let ks = v.map_values(|kv: (&(i32, i32), &UnitTab)| *kv.0);
        assert(increasing_seq(ks));
        assert forall|a: int, b: int| 0 <= a < b < kvs.len() implies cell_lt(
            (#[trigger] kvs[a]).0,
            (#[trigger] kvs[b]).0,
        ) by {
            assert(ks[a] == kvs[a].0 && ks[b] == kvs[b].0);
        }
        assert forall|a: int| 0 <= a < kvs.len() implies m.contains_key((#[trigger] kvs[a]).0)
            && m[kvs[a].0] == kvs[a].1 by {
            assert(m.contains_key(*v[a].0));
        }
        assert forall|dd: (i32, i32)| #[trigger] m.contains_key(dd) implies kvs.contains((dd, m[dd])) by {
            assert(v.contains((&dd, &m[dd])));
            let a = choose|a: int| 0 <= a < v.len() && v[a] == (&dd, &m[dd]);
            assert(kvs[a] == (dd, m[dd]));
        }
        lemma_group_map_read(edges@, m, kvs, tabs@);
    }
    tabs
}

impl<B> Note<B> {
    /// One tab per empty destination. Shared holes (diagonal neighbours) get a center tab.
    #[verifier::spinoff_prover]
    pub fn unit_tabs(&self) -> (r: Vec<UnitTab>)
        requires
            self.wf(),
        ensures
            tabs_group(free_edges_of(self.units(), self.units()), r@),
            forall|i: int| 0 <= i < r@.len() ==> !self.units().contains(tab_dest(#[trigger] r@[i])),
    {
        let edges = self.free_unit_edges();
        proof {
            let u = self.units();
            self.lemma_units_fit();
            assert(forall|k: int| 0 <= k < u.len() ==> fits(#[trigger] u[k].0, 1) && fits(u[k].1, 1));
            lemma_free_edges_lead_out(u, u);
        }
        let tabs = group_tabs(&edges);
        proof {
            assert forall|i: int| 0 <= i < tabs@.len() implies !self.units().contains(
                tab_dest(#[trigger] tabs@[i]),
            ) by {
                let k = choose|k: int|
                    0 <= k < edges@.len() && first_for(edges@, k) && #[trigger] tabs@[i]
                        == tab_for(edges@, k);
                assert(tab_dest(tabs@[i]) == edge_dest(edges@[k]));
            }
        }
        tabs
    }
}

} // verus!

verus! {

/// A page that does not sit at `cell`.
pub open spec fn off_cell<B>(cell: (i32, i32)) -> spec_fn(Page<B>) -> bool {
    |p: Page<B>| !(p.col == cell.0 && p.row == cell.1)
}

/// The elements of `v` in reverse order.
pub(crate) fn reversed<T>(v: Vec<T>) -> (r: Vec<T>)
    ensures
        r@.len() == v@.len(),
        forall|t: int| 0 <= t < r@.len() ==> #[trigger] r@[t] == v@[v@.len() - 1 - t],
{
    let ghost orig = v@;
    let mut v = v;
    let mut rev: Vec<T> = Vec::new();
    while v.len() > 0
        invariant
            v@.len() + rev@.len() == orig.len(),
            v@ == orig.take(v@.len() as int),
            forall|t: int| 0 <= t < rev@.len() ==> #[trigger] rev@[t] == orig[orig.len() - 1 - t],
        decreases v@.len(),
    {
        let b = v.pop().unwrap();
        rev.push(b);
        assert(v@ =~= orig.take(v@.len() as int));
    }
    rev
}

/// The pages of `pages` that do not sit at `cell`, in order.
fn pages_off<B>(pages: Vec<Page<B>>, cell: (i32, i32)) -> (r: Vec<Page<B>>)
    ensures
        r@ == pages@.filter(off_cell::<B>(cell)),
{
    let ghost orig = pages@;
    let n = pages.len();
    let mut rev = reversed(pages);
    let mut out: Vec<Page<B>> = Vec::new();
    let mut k: usize = 0;
    assert(orig.take(0).filter(off_cell::<B>(cell)) =~= Seq::<Page<B>>::empty()) by {
        reveal(Seq::filter);
    }
    while k < n
        invariant
            0 <= k <= n,
            n == orig.len(),
            rev@.len() == n - k,
            forall|t: int| 0 <= t < rev@.len() ==> #[trigger] rev@[t] == orig[n - 1 - t],
            out@ == orig.take(k as int).filter(off_cell::<B>(cell)),
        decreases n - k,
    {
        let p = rev.pop().unwrap();
        assert(p == orig[k as int]);
        proof {
            reveal(Seq::filter);
            assert(orig.take(k + 1).drop_last() =~= orig.take(k as int));
            assert(orig.take(k + 1).last() == p);
        }
        if !(p.col == cell.0 && p.row == cell.1) {
            out.push(p);
        }
        k = k + 1;
    }
    assert(orig.take(n as int) =~= orig);
    out
}

/// Pages at `cells`, holding `bodies` in the same order.
pub open spec fn laid_out<B>(cells: Seq<(i32, i32)>, bodies: Seq<B>) -> Seq<Page<B>> {
    Seq::new(cells.len(), |k: int| Page { col: cells[k].0, row: cells[k].1, body: bodies[k] })
}

/// Moves `bodies` onto `cells`, one by one.
fn lay_out<B>(cells: &Vec<(i32, i32)>, bodies: Vec<B>) -> (r: Vec<Page<B>>)
    requires
        cells@.len() == bodies@.len(),
    ensures
        r@ == laid_out(cells@, bodies@),
{
    let ghost orig = bodies@;
    let n = bodies.len();
    let mut rev = reversed(bodies);
    let mut pages: Vec<Page<B>> = Vec::new();
    let mut k: usize = 0;
    while k < n
        invariant
            0 <= k <= n,
            n == orig.len(),
            n == cells@.len(),
            rev@.len() == n - k,
            forall|t: int| 0 <= t < rev@.len() ==> #[trigger] rev@[t] == orig[n - 1 - t],
            pages@ == laid_out(cells@, orig).take(k as int),
        decreases n - k,
    {
        let b = rev.pop().unwrap();
        assert(b == orig[k as int]);
        pages.push(Page { col: cells[k].0, row: cells[k].1, body: b });
        k = k + 1;
        assert(pages@ =~= laid_out(cells@, orig).take(k as int));
    }
    assert(laid_out(cells@, orig).take(n as int) =~= laid_out(cells@, orig));
    pages
}

impl<B> Note<B> {
    /// The pages once a grown sheet is split into unit pages holding `bodies`.
    pub open spec fn split_pages(&self, bodies: Seq<B>) -> Seq<Page<B>> {
        if self.grown() {
            laid_out(self.tiles(), bodies)
        } else {
            self.pages@
        }
    }

    /// Every field but the pages and the sheet size is the same in `self` and `other`.
    pub open spec fn same_meta(&self, other: &Self) -> bool {
        &&& self.id == other.id
        &&& self.title == other.title
        &&& self.paper == other.paper
        &&& self.cover == other.cover
        &&& self.emoji == other.emoji
        &&& self.created == other.created
        &&& self.updated == other.updated
        &&& self.pinned == other.pinned
    }

    /// The unit cells a grown sheet splits into, in ascending `(col, row)`
    /// order: the order in which `explode_grown_units` takes the bodies.
    pub fn tile_cells(&self) -> (r: Vec<(i32, i32)>)
        requires
            self.wf(),
            self.grown(),
        ensures
            r@ == self.tiles(),
    {
        let cols = self.span_cols;
        let rows = self.span_rows;
        let c0 = self.pages[0].col;
        let r0 = self.pages[0].row;
        assert(fits(c0, cols) && fits(r0, rows)) by {
            assert(self.pages@[0].col == c0);
        }
        let n: i32 = cols * rows;
        let mut cells: Vec<(i32, i32)> = Vec::new();
        let mut k: i32 = 0;
        while k < n
            invariant
                0 <= k <= n,
                n == self.block_len(),
                1 <= cols,
                1 <= rows,
                rows == self.span_rows,
                cols == self.span_cols,
                c0 == self.pages@[0].col,
                r0 == self.pages@[0].row,
                fits(c0, cols),
                fits(r0, rows),
                self.block_len() == cols * rows,
                cells@ == self.tiles().take(k as int),
            decreases n - k,
        {
            proof {
                lemma_block_index(k as int, cols as int, rows as int);
            }
            let cell: (i32, i32) = (c0 + k / rows, r0 + k % rows);
            cells.push(cell);
            k = k + 1;
            assert(cells@ =~= self.tiles().take(k as int));
        }
        assert(self.tiles().take(n as int) =~= self.tiles());
        cells
    }
}

} // verus!

verus! {

impl<B> Note<B> {
    /// The page list `remove_unit` leaves: every page but those at `cell`,
    /// and one blank page at `(0, 0)` should none be left.
    pub open spec fn torn_pages(pages: Seq<Page<B>>, cell: (i32, i32), blank: B) -> Seq<Page<B>> {
        let kept = pages.filter(off_cell::<B>(cell));
        if kept.len() == 0 {
            seq![Page { col: 0, row: 0, body: blank }]
        } else {
            kept
        }
    }

    proof fn lemma_tiles_fit(&self)
        requires
            self.wf(),
            self.grown(),
        ensures
            forall|k: int|
                0 <= k < self.tiles().len() ==> fits(#[trigger] self.tiles()[k].0, 1) && fits(
                    self.tiles()[k].1,
                    1,
                ),
            self.tiles().len() >= 2,
    {
        let p = self.pages@[0];
        assert(fits(p.col, self.span_cols) && fits(p.row, self.span_rows));
        assert forall|k: int| 0 <= k < self.tiles().len() implies fits(
            #[trigger] self.tiles()[k].0,
            1,
        ) && fits(self.tiles()[k].1, 1) by {
            lemma_block_index(k, self.span_cols as int, self.span_rows as int);
        }
        assert(self.block_len() >= 2) by (nonlinear_arith)
            requires
                1 <= self.span_cols,
                1 <= self.span_rows,
                self.span_cols > 1 || self.span_rows > 1,
                self.block_len() == self.span_cols * self.span_rows,
        ;
    }

    /// Row by row or column by column, a grown sheet covers the same cells.
    proof fn lemma_tiles_cover_block(&self)
        requires
            self.wf(),
            self.grown(),
        ensures
            self.tiles().to_set() == self.block().to_set(),
    {
        let cols = self.span_cols as int;
        let rows = self.span_rows as int;
        let t = self.tiles();
        let b = self.block();
        assert forall|x: (i32, i32)| b.to_set().contains(x) implies t.to_set().contains(x) by {
            let k = choose|k: int| 0 <= k < b.len() && b[k] == x;
            lemma_block_index(k, cols, rows);
            let c = k % cols;
            let r = k / cols;
            let k2 = c * rows + r;
            vstd::arithmetic::div_mod::lemma_fundamental_div_mod_converse(k2, rows, c, r);
            assert(0 <= k2 < cols * rows) by (nonlinear_arith)
                requires
                    0 <= c < cols,
                    0 <= r < rows,
                    k2 == c * rows + r,
            ;
            assert(t[k2] == x);
        }
        assert forall|x: (i32, i32)| t.to_set().contains(x) implies b.to_set().contains(x) by {
            let k = choose|k: int| 0 <= k < t.len() && t[k] == x;
            lemma_block_index(k, cols, rows);
            let c = k / rows;
            let r = k % rows;
            let k2 = r * cols + c;
            vstd::arithmetic::div_mod::lemma_fundamental_div_mod_converse(k2, cols, r, c);
            assert(0 <= k2 < cols * rows) by (nonlinear_arith)
                requires
                    0 <= c < cols,
                    0 <= r < rows,
                    k2 == r * cols + c,
            ;
            assert(b[k2] == x);
        }
        assert(t.to_set() =~= b.to_set());
    }

    /// Splits a grown linked sheet into unit pages, keeping `sheet_join`.
    ///
    /// `bodies` are what each unit page of the split sheet holds, in the
    /// order of `tile_cells`; they are used only when the sheet is grown.
    pub fn explode_grown_units(&mut self, bodies: Vec<B>)
        requires
            old(self).wf(),
            old(self).grown() ==> bodies@.len() == old(self).block_len(),
        ensures
            final(self).wf(),
            final(self).same_meta(old(self)),
            final(self).sheet_join == old(self).sheet_join,
            final(self).pages@ == old(self).split_pages(bodies@),
            old(self).grown() ==> final(self).span_cols == 1 && final(self).span_rows == 1
                && final(self).unit_size,
            !old(self).grown() ==> final(self).span_cols == old(self).span_cols
                && final(self).span_rows == old(self).span_rows && final(self).unit_size == old(
                self,
            ).unit_size,
            !final(self).grown(),
            final(self).units().to_set() == old(self).units().to_set(),
    {
        if !self.is_grown_single() {
            return;
        }
        let cells = self.tile_cells();
        proof {
            self.lemma_tiles_fit();
        }
        let pages = lay_out(&cells, bodies);
        self.pages = pages;
        self.span_cols = 1;
        self.span_rows = 1;
        self.unit_size = true;
        proof {
            old(self).lemma_tiles_cover_block();
            assert(self.units() =~= cells@);
            assert forall|i: int| 0 <= i < self.pages@.len() implies {
                let p = #[trigger] self.pages@[i];
                fits(p.col, 1) && fits(p.row, 1)
            } by {
                assert(self.pages@[i].col == cells@[i].0);
            }
        }
    }

    /// Adds the neighbour of unit `(col, row)` in direction `(dcol, drow)`.
    pub fn add_unit_neighbor(&mut self, col: i32, row: i32, dcol: i32, drow: i32, blank: B, bodies: Vec<B>) -> (r: bool)
        requires
            old(self).wf(),
            fits(col, 1),
            fits(row, 1),
            -1 <= dcol <= 1,
            -1 <= drow <= 1,
            fits((col + dcol) as i32, 1),
            fits((row + drow) as i32, 1),
            old(self).pages@.len() == 0 ==> fits((col + dcol) as i32, old(self).span_cols) && fits(
                (row + drow) as i32,
                old(self).span_rows,
            ),
            old(self).units().len() < max_cells(),
            old(self).grown() ==> bodies@.len() == old(self).block_len(),
        ensures
            r == !old(self).units().contains(((col + dcol) as i32, (row + drow) as i32)),
            final(self).wf(),
            final(self).same_meta(old(self)),
            final(self).sheet_join == old(self).sheet_join,
            !r ==> *final(self) == *old(self),
            r ==> final(self).pages@ == old(self).split_pages(bodies@).push(
                Page { col: (col + dcol) as i32, row: (row + drow) as i32, body: blank },
            ),
            r && old(self).grown() ==> final(self).span_cols == 1 && final(self).span_rows == 1
                && final(self).unit_size,
            r && !old(self).grown() ==> final(self).span_cols == old(self).span_cols
                && final(self).span_rows == old(self).span_rows && final(self).unit_size == old(
                self,
            ).unit_size,
            r && (old(self).pages@.len() > 0 || old(self).block_len() == 1)
                ==> final(self).units().to_set() == old(self).units().to_set().insert(
                ((col + dcol) as i32, (row + drow) as i32),
            ),
    {
        self.add_unit_at(col + dcol, row + drow, blank, bodies)
    }

    /// Adds a unit page at `(col, row)` unless a unit already sits there; a
    /// grown sheet is split into unit pages first.
    pub fn add_unit_at(&mut self, col: i32, row: i32, blank: B, bodies: Vec<B>) -> (r: bool)
        requires
            old(self).wf(),
            fits(col, 1),
            fits(row, 1),
            old(self).pages@.len() == 0 ==> fits(col, old(self).span_cols) && fits(row, old(self).span_rows),
            old(self).units().len() < max_cells(),
            old(self).grown() ==> bodies@.len() == old(self).block_len(),
        ensures
            r == !old(self).units().contains((col, row)),
            final(self).wf(),
            final(self).same_meta(old(self)),
            final(self).sheet_join == old(self).sheet_join,
            !r ==> *final(self) == *old(self),
            r ==> final(self).pages@ == old(self).split_pages(bodies@).push(
                Page { col, row, body: blank },
            ),
            r && old(self).grown() ==> final(self).span_cols == 1 && final(self).span_rows == 1
                && final(self).unit_size,
            r && !old(self).grown() ==> final(self).span_cols == old(self).span_cols
                && final(self).span_rows == old(self).span_rows && final(self).unit_size == old(
                self,
            ).unit_size,
            r && (old(self).pages@.len() > 0 || old(self).block_len() == 1)
                ==> final(self).units().to_set() == old(self).units().to_set().insert((col, row)),
    {
        if self.unit_occupied(col, row) {
            return false;
        }
        let ghost was_grown = self.grown();
        if self.is_grown_single() {
            self.explode_grown_units(bodies);
        }
        let ghost mid = *self;
        self.pages.push(Page::at(col, row, blank));
        proof {
            assert(mid.pages@.len() == old(self).units().len()) by {
                if was_grown {
                    assert(old(self).units().len() == old(self).block_len());
                } else {
                    assert(old(self).units().len() == old(self).pages@.len());
                }
            }
            if mid.pages@.len() >= 1 {
                assert(!self.grown());
                assert forall|i: int| 0 <= i < self.pages@.len() implies {
                    let p = #[trigger] self.pages@[i];
                    fits(p.col, 1) && fits(p.row, 1)
                } by {
                    if i < mid.pages@.len() {
                        assert(self.pages@[i] == mid.pages@[i]);
                        assert(fits(mid.pages@[i].col, 1));
                    }
                }
            } else {
                assert(self.pages@[0] == Page { col, row, body: blank });
            }
            if old(self).pages@.len() > 0 || old(self).block_len() == 1 {
                assert(mid.units() == cells_of(mid.pages@));
                if mid.pages@.len() == 0 {
                    assert(mid.span_cols == 1 && mid.span_rows == 1) by (nonlinear_arith)
                        requires
                            1 <= mid.span_cols,
                            1 <= mid.span_rows,
                            mid.span_cols * mid.span_rows == 1,
                    ;
                }
                assert(!self.grown());
                let u = mid.units();
                assert(self.units() =~= u.push((col, row)));
                assert forall|x: (i32, i32)| #[trigger] u.push((col, row)).contains(x) <==> (u.contains(x) || x == (col, row)) by {
                    if u.contains(x) {
                        let k = choose|k: int| 0 <= k < u.len() && u[k] == x;
                        assert(u.push((col, row))[k] == x);
                    }
                    if x == (col, row) {
                        assert(u.push((col, row))[u.len() as int] == x);
                    }
                    if u.push((col, row)).contains(x) && x != (col, row) {
                        let k = choose|k: int| 0 <= k < u.len() + 1 && u.push((col, row))[k] == x;
                        assert(u[k] == x);
                    }
                }
                assert(self.units().to_set() =~= u.to_set().insert((col, row)));
            }
        }
        true
    }

    pub fn can_tear_unit(&self) -> (r: bool)
        requires
            self.wf(),
        ensures
            r == (self.units().len() > 1),
    {
        self.unit_cells().len() > 1
    }
}

} // verus!

verus! {

/// Taking the pages at `cell` out of `pages` takes exactly `cell` out of the
/// cells they cover; every page kept was one of `pages`.
proof fn lemma_cells_off<B>(pages: Seq<Page<B>>, cell: (i32, i32))
    ensures
        cells_of(pages.filter(off_cell::<B>(cell))).to_set() == cells_of(pages).to_set().remove(cell),
        forall|j: int|
            0 <= j < pages.filter(off_cell::<B>(cell)).len() ==> pages.contains(
                #[trigger] pages.filter(off_cell::<B>(cell))[j],
            ),
        pages.filter(off_cell::<B>(cell)).len() <= pages.len(),
{
    let f = off_cell::<B>(cell);
    let kept = pages.filter(f);
    pages.lemma_filter_len(f);
    assert forall|j: int| 0 <= j < kept.len() implies pages.contains(#[trigger] kept[j]) by {
        assert(kept.contains(kept[j]));
        pages.lemma_filter_contains_rev(f, kept[j]);
    }
    assert forall|x: (i32, i32)|
        cells_of(kept).to_set().contains(x) <==> cells_of(pages).to_set().remove(cell).contains(x) by {
        if cells_of(kept).to_set().contains(x) {
            let j = choose|j: int| 0 <= j < cells_of(kept).len() && cells_of(kept)[j] == x;
            pages.lemma_filter_pred(f, j);
            assert(kept.contains(kept[j]));
            pages.lemma_filter_contains_rev(f, kept[j]);
            let i = choose|i: int| 0 <= i < pages.len() && pages[i] == kept[j];
            assert(cells_of(pages)[i] == x);
        }
        if cells_of(pages).to_set().remove(cell).contains(x) {
            let i = choose|i: int| 0 <= i < cells_of(pages).len() && cells_of(pages)[i] == x;
            assert(f(pages[i]));
            pages.lemma_filter_contains(f, i);
            let j = choose|j: int| 0 <= j < kept.len() && kept[j] == pages[i];
            assert(cells_of(kept)[j] == x);
        }
    }
    assert(cells_of(kept).to_set() =~= cells_of(pages).to_set().remove(cell));
}

impl<B> Note<B> {
    /// Tears out the unit at `(col, row)`. The last unit stays: a notebook
    /// of one unit, or a cell it does not cover, is refused.
    ///
    /// A grown sheet is first split into unit pages holding `bodies`, in the
    /// order of `tile_cells`; should no page be left, a page holding `blank`
    /// takes cell `(0, 0)`.
    pub fn remove_unit(&mut self, col: i32, row: i32, blank: B, bodies: Vec<B>) -> (r: bool)
        requires
            old(self).wf(),
            old(self).grown() ==> bodies@.len() == old(self).block_len(),
        ensures
            r == (old(self).units().len() > 1 && old(self).units().contains((col, row))),
            final(self).wf(),
            final(self).same_meta(old(self)),
            final(self).sheet_join == old(self).sheet_join,
            !r ==> *final(self) == *old(self),
            r ==> final(self).pages@ == Self::torn_pages(old(self).split_pages(bodies@), (col, row), blank),
            r ==> final(self).span_cols == 1 && final(self).span_rows == 1 && final(self).unit_size,
            r && (exists|k: int| 0 <= k < old(self).units().len() && old(self).units()[k] != (col, row))
                ==> final(self).units().to_set() == old(self).units().to_set().remove((col, row)),
    {
        if !self.can_tear_unit() || !self.unit_occupied(col, row) {
            return false;
        }
        if self.is_grown_single() {
            self.explode_grown_units(bodies);
        }
        let ghost mid = *self;
        let mut taken: Vec<Page<B>> = Vec::new();
        std::mem::swap(&mut taken, &mut self.pages);
        let mut kept = pages_off(taken, (col, row));
        proof {
            lemma_cells_off(mid.pages@, (col, row));
            assert(mid.units() == cells_of(mid.pages@));
        }
        if kept.len() == 0 {
            kept.push(Page::at(0, 0, blank));
        }
        self.pages = kept;
        self.span_cols = 1;
        self.span_rows = 1;
        self.unit_size = true;
        proof {
            let f = off_cell::<B>((col, row));
            let k0 = mid.pages@.filter(f);
            assert forall|i: int| 0 <= i < self.pages@.len() implies {
                let p = #[trigger] self.pages@[i];
                fits(p.col, 1) && fits(p.row, 1)
            } by {
                if k0.len() > 0 {
                    assert(mid.pages@.contains(k0[i]));
                    let m = choose|m: int| 0 <= m < mid.pages@.len() && mid.pages@[m] == k0[i];
                    assert(fits(mid.pages@[m].col, 1));
                }
            }
            if exists|k: int| 0 <= k < old(self).units().len() && old(self).units()[k] != (col, row) {
                let k = choose|k: int| 0 <= k < old(self).units().len() && old(self).units()[k] != (col, row);
                let u = old(self).units()[k];
                assert(old(self).units().to_set().contains(u));
                assert(cells_of(mid.pages@).to_set().contains(u));
                assert(cells_of(k0).to_set().contains(u));
                assert(k0.len() > 0);
                assert(self.units() == cells_of(k0));
            }
        }
        true
    }
}

} // verus!

verus! {

impl<B> Note<B> {
    /// Several pages, all at cell `(0, 0)`: the layout of notes written
    /// before pages had a place on the grid.
    pub open spec fn stacked(&self) -> bool {
        &&& self.pages@.len() > 1
        &&& forall|i: int| 0 <= i < self.pages@.len() ==> (#[trigger] self.pages@[i]).col == 0
            && self.pages@[i].row == 0
    }

    /// Old notes stacked pages by index with no place on the grid: spread
    /// them down the first column, page `i` on row `i`.
    pub fn normalize_page_grid(&mut self)
        requires
            old(self).wf(),
        ensures
            final(self).wf(),
            final(self).same_meta(old(self)),
            final(self).sheet_join == old(self).sheet_join,
            final(self).span_cols == old(self).span_cols,
            final(self).span_rows == old(self).span_rows,
            final(self).unit_size == old(self).unit_size,
            final(self).pages@.len() == old(self).pages@.len(),
            old(self).stacked() ==> forall|i: int|
                0 <= i < final(self).pages@.len() ==> #[trigger] final(self).pages@[i] == (Page {
                    col: 0,
                    row: i as i32,
                    body: old(self).pages@[i].body,
                }),
            !old(self).stacked() ==> final(self).pages@ == old(self).pages@,
    {
        if self.pages.len() <= 1 {
            return;
        }
        let mut i: usize = 0;
        while i < self.pages.len()
            invariant
                0 <= i <= self.pages@.len(),
                *self == *old(self),
                self.wf(),
                forall|j: int| 0 <= j < i ==> (#[trigger] self.pages@[j]).col == 0 && self.pages@[j].row == 0,
            decreases self.pages.len() - i,
        {
            if self.pages[i].col != 0 || self.pages[i].row != 0 {
                return;
            }
            i = i + 1;
        }
        let ghost orig = self.pages@;
        let n = self.pages.len();
        let mut taken: Vec<Page<B>> = Vec::new();
        std::mem::swap(&mut taken, &mut self.pages);
        let mut rev = reversed(taken);
        let mut out: Vec<Page<B>> = Vec::new();
        let mut k: usize = 0;
        while k < n
            invariant
                0 <= k <= n,
                n == orig.len(),
                n <= max_cells(),
                rev@.len() == n - k,
                forall|t: int| 0 <= t < rev@.len() ==> #[trigger] rev@[t] == orig[n - 1 - t],
                out@.len() == k,
                forall|j: int| 0 <= j < k ==> #[trigger] out@[j] == (Page {
                    col: 0,
                    row: j as i32,
                    body: orig[j].body,
                }),
            decreases n - k,
        {
            let p = rev.pop().unwrap();
            assert(p == orig[k as int]);
            out.push(Page { col: 0, row: k as i32, body: p.body });
            k = k + 1;
        }
        self.pages = out;
    }

    /// The pages a notebook has once an empty one gets its first page,
    /// holding `blank`, at cell `(0, 0)`.
    pub open spec fn filled_pages(&self, blank: B) -> Seq<Page<B>> {
        if self.pages@.len() == 0 {
            seq![Page { col: 0, row: 0, body: blank }]
        } else {
            self.pages@
        }
    }

    /// The sheet is larger than a unit and holds at most one page.
    pub open spec fn grown_when_filled(&self) -> bool {
        self.pages@.len() <= 1 && (self.span_cols > 1 || self.span_rows > 1)
    }

    /// What setting the join to `to` makes of `before`: see
    /// `apply_sheet_join`.
    pub open spec fn join_outcome(before: Self, after: Self, to: SheetJoin, blank: B, bodies: Seq<B>) -> bool {
        &&& after.wf()
        &&& after.same_meta(&before)
        &&& after.sheet_join == to
        &&& to == SheetJoin::Separate && before.grown_when_filled() ==> after.pages@ == laid_out(
            tiles_at(
                before.filled_pages(blank)[0].col,
                before.filled_pages(blank)[0].row,
                before.span_cols,
                before.span_rows,
            ),
            bodies,
        )
        &&& !(to == SheetJoin::Separate && before.grown_when_filled()) ==> after.pages@ == before.filled_pages(
            blank,
        )
        &&& to == SheetJoin::Linked && before.grown_when_filled() ==> after.span_cols == before.span_cols
            && after.span_rows == before.span_rows && after.unit_size == before.unit_size
        &&& !(to == SheetJoin::Linked && before.grown_when_filled()) ==> after.span_cols == 1
            && after.span_rows == 1 && after.unit_size
        &&& before.pages@.len() > 0 ==> after.units().to_set() == before.units().to_set()
    }

    /// Sets how the sheets meet. Linked keeps the same cells (holes stay
    /// holes) and only changes the join; a grown sheet is split into unit
    /// pages holding `bodies`, in the order of `tile_cells`, when switching
    /// to Separate. An empty notebook first gets a page holding `blank`.
    pub fn apply_sheet_join(&mut self, to: SheetJoin, blank: B, bodies: Vec<B>)
        requires
            old(self).wf(),
            to == SheetJoin::Separate && old(self).grown_when_filled() ==> bodies@.len()
                == old(self).block_len(),
        ensures
            Self::join_outcome(*old(self), *final(self), to, blank, bodies@),
    {
        if self.pages.len() == 0 {
            proof {
                assert(self.span_cols <= self.block_len() && self.span_rows <= self.block_len())
                    by (nonlinear_arith)
                    requires
                        1 <= self.span_cols,
                        1 <= self.span_rows,
                        self.block_len() == self.span_cols * self.span_rows,
                ;
            }
            self.pages.push(Page::at(0, 0, blank));
            proof {
                assert(self.pages@[0].col == 0 && self.pages@[0].row == 0);
            }
        }
        let ghost filled = *self;
        assert(filled.wf());
        assert(filled.pages@ == old(self).filled_pages(blank));
        assert(filled.grown() == old(self).grown_when_filled());
        let separate = match to {
            SheetJoin::Separate => true,
            SheetJoin::Linked => false,
        };
        if separate && self.is_grown_single() {
            self.explode_grown_units(bodies);
        }
        self.sheet_join = to;
        if !self.is_grown_single() {
            self.span_cols = 1;
            self.span_rows = 1;
            self.unit_size = true;
        }
        proof {
            if !self.grown() && !(separate && filled.grown()) {
                assert(!filled.grown());
                assert forall|i: int| 0 <= i < self.pages@.len() implies {
                    let p = #[trigger] self.pages@[i];
                    fits(p.col, 1) && fits(p.row, 1)
                } by {
                    assert(self.pages@[i] == filled.pages@[i]);
                }
            }
        }
    }
}

} // verus!

verus! {

/// `uuid::Uuid::new_v4`, read as a `u128`. The crate draws the bits at
/// random and then forces the version nibble to 4 and the variant bits to
/// `10`; that is all this contract claims of the result.
#[verifier::external_body]
fn new_v4_id() -> (id: u128)
    ensures
        id & 0xF000_C000_0000_0000_0000u128 == 0x4000_8000_0000_0000_0000u128,
{
    uuid::Uuid::new_v4().as_u128()
}

/// `chrono::Utc::now`, as whole seconds and nanoseconds since the Unix
/// epoch. The crate reads the system clock (and panics on a clock set
/// before the epoch); what the clock says is not stated, only that the
/// seconds are not negative and the nanoseconds stay below one second.
#[verifier::external_body]
fn utc_now() -> (t: Moment)
    ensures
        t.secs >= 0,
        t.nanos < 1_000_000_000,
{
    let now = chrono::Utc::now();
    Moment { secs: now.timestamp(), nanos: now.timestamp_subsec_nanos() }
}

/// The version and variant bits of a random (version 4) identifier.
pub open spec fn random_id(id: u128) -> bool {
    id & 0xF000_C000_0000_0000_0000u128 == 0x4000_8000_0000_0000_0000u128
}

/// A moment the system clock can report.
pub open spec fn clock_moment(t: Moment) -> bool {
    t.secs >= 0 && t.nanos < 1_000_000_000
}

impl<B> Note<B> {
    /// A new notebook on graph paper: one unit page at `(0, 0)` holding
    /// `body`, a fresh random id, created and updated now.
    pub fn blank(title: String, cover: u8, body: B) -> (n: Self)
        ensures
            n.wf(),
            random_id(n.id),
            n.title == title,
            n.paper == PaperKind::Millimetre,
            n.cover == cover,
            n.emoji@ == Seq::<char>::empty(),
            clock_moment(n.created),
            n.updated == n.created,
            !n.pinned,
            n.pages@ == seq![Page { col: 0, row: 0, body }],
            n.span_cols == 1,
            n.span_rows == 1,
            n.unit_size,
            n.sheet_join == SheetJoin::Linked,
    {
        let now = utc_now();
        let mut pages: Vec<Page<B>> = Vec::new();
        pages.push(Page::at(0, 0, body));
        Note {
            id: new_v4_id(),
            title,
            paper: PaperKind::Millimetre,
            cover,
            emoji: String::new(),
            created: now,
            updated: now,
            pinned: false,
            pages,
            span_cols: 1,
            span_rows: 1,
            unit_size: true,
            sheet_join: SheetJoin::Linked,
        }
    }

    /// Stamps the notebook as updated now.
    pub fn touch(&mut self)
        ensures
            clock_moment(final(self).updated),
            *final(self) == (Note { updated: final(self).updated, ..*old(self) }),
    {
        self.updated = utc_now();
    }
}

} // verus!

verus! {

/// The title of a copy: `Untitled copy` for a blank title, else the title
/// followed by ` copy`.
pub open spec fn copy_title_spec(t: Seq<char>) -> Seq<char> {
    if trimmed(t).len() == 0 {
        "Untitled copy"@
    } else {
        t + " copy"@
    }
}

/// The title a copy of a notebook called `title` gets.
pub fn copy_title(title: &str) -> (r: String)
    ensures
        r@ == copy_title_spec(title@),
{
    let mut out: Vec<char> = Vec::new();
    if trim(title).is_empty() {
        push_str(&mut out, "Untitled copy");
    } else {
        push_str(&mut out, title);
        push_str(&mut out, " copy");
    }
    string_of(out.as_slice())
}

impl<B> Note<B> {
    /// Makes a copy of a notebook a notebook of its own: a fresh id, the
    /// title of a copy, created and updated now, not pinned.
    pub fn become_copy(&mut self)
        ensures
            random_id(final(self).id),
            final(self).title@ == copy_title_spec(old(self).title@),
            clock_moment(final(self).created),
            clock_moment(final(self).updated),
            !final(self).pinned,
            *final(self) == (Note {
                id: final(self).id,
                title: final(self).title,
                created: final(self).created,
                updated: final(self).updated,
                pinned: false,
                ..*old(self)
            }),
    {
        self.id = new_v4_id();
        self.title = copy_title(self.title.as_str());
        self.created = utc_now();
        self.touch();
        self.pinned = false;
    }
}

} // verus!
