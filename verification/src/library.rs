//! The shelf: which notebooks there are, in which cell each one stands, and
//! which ones lie in the bin.
//!
//! The shelf is a grid of `SHELF_COLS × SHELF_ROWS` cells and the bin one
//! row of `TRASH_SLOTS` cells under it. A notebook's `slot` is its cell;
//! gaps are allowed. Reading and writing the index and the notebooks' files
//! is left to the program; the functions here say what changes.

use vstd::prelude::*;
use crate::document::{reversed, Moment, Note};
use crate::picture::{decode_rgba, decoded_rgba, encode_png, png_encoded, resize_triangle, resized_rgba};
use std::collections::HashSet;

verus! {

/// Shelf columns.
pub const SHELF_COLS: u32 = 10;

/// Shelf rows.
pub const SHELF_ROWS: u32 = 3;

/// Shelf cells.
pub const SHELF_SLOTS: u32 = SHELF_COLS * SHELF_ROWS;

/// Bin cells: one row under the shelf, as wide as it.
pub const TRASH_SLOTS: u32 = SHELF_COLS;

/// What starting the program does about the example notebooks.
#[derive(Clone, Copy, Debug, PartialEq, Eq, Structural)]
pub enum SeedStep {
    /// They were written before.
    Nothing,
    /// The shelf has notebooks already: only note the examples as written.
    MarkOnly,
    /// Write the examples, then note them as written.
    Seed,
}

/// What the shelf shows of a notebook.
#[derive(Clone, Debug)]
pub struct NoteMeta {
    pub id: u128,
    pub title: String,
    pub updated: Moment,
    pub pinned: bool,
    pub cover: u8,
    pub emoji: String,
    /// Shelf cell (gaps allowed), `0..SHELF_SLOTS`, or `0..TRASH_SLOTS`
    /// while in the bin.
    pub slot: u32,
}

impl NoteMeta {
    /// The same notebook standing in cell `slot`.
    pub fn with_slot(&self, slot: u32) -> (r: NoteMeta)
        ensures
            r == (NoteMeta { slot, ..*self }),
    {
        NoteMeta {
            id: self.id,
            title: self.title.clone(),
            updated: self.updated,
            pinned: self.pinned,
            cover: self.cover,
            emoji: self.emoji.clone(),
            slot,
        }
    }
}

/// The edge of the window the pencil case docks to.
#[derive(Clone, Copy, Debug, PartialEq, Eq, Structural)]
pub enum DockEdge {
    Top,
    Bottom,
    Left,
    Right,
}

impl Default for DockEdge {
    fn default() -> (r: Self)
        ensures
            r == DockEdge::Bottom,
    {
        DockEdge::Bottom
    }
}

impl DockEdge {
    /// The pencil case stands upright along this edge.
    pub fn vertical(self) -> (r: bool)
        ensures
            r == (self == DockEdge::Left || self == DockEdge::Right),
    {
        matches!(self, DockEdge::Left | DockEdge::Right)
    }
}

/// An index field of older versions (lectern or tablet), kept so that
/// their index still reads.
#[derive(Clone, Copy, Debug, PartialEq, Eq, Structural)]
pub enum NoteMode {
    Pupitre,
    Tablette,
}

impl Default for NoteMode {
    fn default() -> (r: Self)
        ensures
            r == NoteMode::Pupitre,
    {
        NoteMode::Pupitre
    }
}

/// The shelf's index.
#[derive(Clone, Debug)]
pub struct Index {
    pub seeded: bool,
    pub notes: Vec<NoteMeta>,
    pub trash: Vec<NoteMeta>,
    pub dock: DockEdge,
    pub mode: NoteMode,
    /// The tutorial card is folded away (only its button shows).
    pub fiche_pliee: bool,
    /// Columns of the shelf the slots were written for.
    pub shelf_cols: u32,
}

/// The tutorial card starts folded.
pub fn default_true() -> (r: bool)
    ensures
        r,
{
    true
}

/// An index without a column count was written for the old shelf of 5 columns.
pub fn default_old_shelf_cols() -> (r: u32)
    ensures
        r == 5,
{
    5
}

impl Default for Index {
    fn default() -> (r: Self)
        ensures
            !r.seeded,
            r.notes@ == Seq::<NoteMeta>::empty(),
            r.trash@ == Seq::<NoteMeta>::empty(),
            r.dock == DockEdge::Bottom,
            r.mode == NoteMode::Pupitre,
            r.fiche_pliee,
            r.shelf_cols == SHELF_COLS,
    {
        Index {
            seeded: false,
            notes: Vec::new(),
            trash: Vec::new(),
            dock: DockEdge::Bottom,
            mode: NoteMode::Pupitre,
            fiche_pliee: true,
            shelf_cols: SHELF_COLS,
        }
    }
}

/// The shelf and where its notebooks live on disk.
#[derive(Clone, Debug)]
pub struct Library {
    /// The data directory.
    pub root: String,
    pub index: Index,
}

/// Some notebook of `metas` stands in cell `slot`.
pub open spec fn slot_used(metas: Seq<NoteMeta>, slot: u32) -> bool {
    exists|i: int| 0 <= i < metas.len() && (#[trigger] metas[i]).slot == slot
}

/// The first of `0..cells` no notebook of `metas` stands in, or `cells`
/// when all are taken.
pub open spec fn first_free(metas: Seq<NoteMeta>, cells: u32) -> u32 {
    if exists|c: u32| c < cells && !slot_used(metas, c) && forall|d: u32| d < c ==> slot_used(metas, d) {
        choose|c: u32| c < cells && !slot_used(metas, c) && forall|d: u32| d < c ==> slot_used(metas, d)
    } else {
        cells
    }
}

/// Some notebook of `metas` has id `id`.
pub open spec fn has_id(metas: Seq<NoteMeta>, id: u128) -> bool {
    exists|i: int| 0 <= i < metas.len() && (#[trigger] metas[i]).id == id
}

fn slot_taken(metas: &Vec<NoteMeta>, slot: u32) -> (r: bool)
    ensures
        r == slot_used(metas@, slot),
{
    let mut i: usize = 0;
    while i < metas.len()
        invariant
            0 <= i <= metas@.len(),
            forall|j: int| 0 <= j < i ==> (#[trigger] metas@[j]).slot != slot,
        decreases metas.len() - i,
    {
        if metas[i].slot == slot {
            return true;
        }
        i = i + 1;
    }
    false
}

/// The cells the notebooks of `metas` stand in.
fn slots_used(metas: &Vec<NoteMeta>) -> (r: HashSet<u32>)
    ensures
        forall|d: u32| #[trigger] r@.contains(d) <==> slot_used(metas@, d),
{
    let mut used: HashSet<u32> = HashSet::new();
    let mut i: usize = 0;
    while i < metas.len()
        invariant
            0 <= i <= metas@.len(),
            forall|d: u32| #[trigger] used@.contains(d) <==> exists|a: int| 0 <= a < i && metas@[a].slot == d,
        decreases metas.len() - i,
    {
        let ghost before = used@;
        used.insert(metas[i].slot);
        proof {
            assert forall|d: u32| #[trigger] used@.contains(d) <==> exists|a: int|
                0 <= a < i + 1 && metas@[a].slot == d by {
                if d == metas@[i as int].slot {
                    assert(metas@[i as int].slot == d);
                }
                if exists|a: int| 0 <= a < i + 1 && metas@[a].slot == d {
                    let a = choose|a: int| 0 <= a < i + 1 && metas@[a].slot == d;
                    if a < i {
                        assert(before.contains(d));
                    }
                }
            }
        }
        i = i + 1;
    }
    proof {
        assert forall|d: u32| #[trigger] used@.contains(d) <==> slot_used(metas@, d) by {
            if slot_used(metas@, d) {
                let a = choose|a: int| 0 <= a < metas@.len() && (#[trigger] metas@[a]).slot == d;
                assert(metas@[a].slot == d);
            }
        }
    }
    used
}

fn free_slot_in(metas: &Vec<NoteMeta>, cells: u32) -> (r: u32)
    ensures
        r == first_free(metas@, cells),
        r <= cells,
        r < cells ==> !slot_used(metas@, r),
        forall|d: u32| d < r ==> slot_used(metas@, d),
{
    let used = slots_used(metas);
    let mut c: u32 = 0;
    while c < cells
        invariant
            0 <= c <= cells,
            forall|d: u32| d < c ==> slot_used(metas@, d),
            forall|d: u32| #[trigger] used@.contains(d) <==> slot_used(metas@, d),
        decreases cells - c,
    {
        if !used.contains(&c) {
            proof {
                let w = choose|w: u32|
                    w < cells && !slot_used(metas@, w) && forall|d: u32| d < w ==> slot_used(metas@, d);
                if w < c {
                    assert(slot_used(metas@, w));
                } else if w > c {
                    assert(slot_used(metas@, c));
                }
            }
            return c;
        }
        c = c + 1;
    }
    proof {
        if exists|w: u32|
            w < cells && !slot_used(metas@, w) && forall|d: u32| d < w ==> slot_used(metas@, d) {
            let w = choose|w: u32|
                w < cells && !slot_used(metas@, w) && forall|d: u32| d < w ==> slot_used(metas@, d);
            assert(slot_used(metas@, w));
        }
    }
    cells
}

fn holds_id(metas: &Vec<NoteMeta>, id: u128) -> (r: bool)
    ensures
        r == has_id(metas@, id),
{
    let mut i: usize = 0;
    while i < metas.len()
        invariant
            0 <= i <= metas@.len(),
            forall|j: int| 0 <= j < i ==> (#[trigger] metas@[j]).id != id,
        decreases metas.len() - i,
    {
        if metas[i].id == id {
            return true;
        }
        i = i + 1;
    }
    false
}

impl Library {
    /// The first free shelf cell, or `SHELF_SLOTS` when the shelf is full.
    pub fn first_free_slot(&self) -> (r: u32)
        ensures
            r == first_free(self.index.notes@, SHELF_SLOTS),
            r <= SHELF_SLOTS,
    {
        free_slot_in(&self.index.notes, SHELF_SLOTS)
    }

    /// The first free bin cell, or `TRASH_SLOTS` when the bin row is full.
    pub fn first_free_trash_slot(&self) -> (r: u32)
        ensures
            r == first_free(self.index.trash@, TRASH_SLOTS),
            r <= TRASH_SLOTS,
    {
        free_slot_in(&self.index.trash, TRASH_SLOTS)
    }

    /// The notebook `id` lies in the bin.
    pub fn is_trashed(&self, id: u128) -> (r: bool)
        ensures
            r == has_id(self.index.trash@, id),
    {
        holds_id(&self.index.trash, id)
    }

    /// What starting the program does about the example notebooks: write
    /// them into an empty shelf that never had them, only note them as
    /// written where the shelf already holds notebooks, nothing once noted.
    pub fn seed_step(&self) -> (r: SeedStep)
        ensures
            r == (if self.index.seeded {
                SeedStep::Nothing
            } else if self.index.notes@.len() > 0 {
                SeedStep::MarkOnly
            } else {
                SeedStep::Seed
            }),
    {
        if self.index.seeded {
            SeedStep::Nothing
        } else if self.index.notes.len() > 0 {
            SeedStep::MarkOnly
        } else {
            SeedStep::Seed
        }
    }

    /// Marks the first-launch notebooks as written.
    pub fn mark_seeded(&mut self)
        ensures
            final(self).index.seeded,
            final(self).root == old(self).root,
            final(self).index.notes@ == old(self).index.notes@,
            final(self).index.trash@ == old(self).index.trash@,
            final(self).index.dock == old(self).index.dock,
            final(self).index.mode == old(self).index.mode,
            final(self).index.fiche_pliee == old(self).index.fiche_pliee,
            final(self).index.shelf_cols == old(self).index.shelf_cols,
    {
        self.index.seeded = true;
    }
}

} // verus!

verus! {

/// Cell `slot` of a shelf `old_cols` wide, on the current shelf: same row,
/// same column.
pub open spec fn remapped(slot: u32, old_cols: u32) -> int {
    slot % old_cols + (slot / old_cols) * SHELF_COLS
}

/// Moves a cell of a shelf `old_cols` wide onto the current shelf.
pub fn remap_slot(slot: u32, old_cols: u32) -> (r: u32)
    requires
        1 <= old_cols,
        remapped(slot, old_cols) <= u32::MAX,
    ensures
        r == remapped(slot, old_cols),
{
    let col = slot % old_cols;
    let row = slot / old_cols;
    assert(0 <= row * SHELF_COLS <= remapped(slot, old_cols)) by (nonlinear_arith)
        requires
            0 <= col,
            0 <= row,
            remapped(slot, old_cols) == col + row * SHELF_COLS,
    ;
    row * SHELF_COLS + col
}

/// A cell of a shelf no wider than the current one keeps its row and column.
pub proof fn law_remap_keeps_row_and_column(slot: u32, old_cols: u32)
    requires
        1 <= old_cols <= SHELF_COLS,
    ensures
        remapped(slot, old_cols) / (SHELF_COLS as int) == slot / old_cols,
        remapped(slot, old_cols) % (SHELF_COLS as int) == slot % old_cols,
{
    let col = slot % old_cols;
    let row = slot / old_cols;
    vstd::arithmetic::div_mod::lemma_fundamental_div_mod_converse(
        remapped(slot, old_cols),
        SHELF_COLS as int,
        row as int,
        col as int,
    );
}

/// Every cell of `metas` moves onto the current shelf without overflow.
pub open spec fn remap_fits(metas: Seq<NoteMeta>, old_cols: u32) -> bool {
    forall|i: int| 0 <= i < metas.len() ==> remapped((#[trigger] metas[i]).slot, old_cols) <= u32::MAX
}

/// `metas` with every cell moved by `remapped`.
pub open spec fn remap_seq(metas: Seq<NoteMeta>, old_cols: u32) -> Seq<NoteMeta> {
    Seq::new(
        metas.len(),
        |i: int| NoteMeta { slot: remapped(metas[i].slot, old_cols) as u32, ..metas[i] },
    )
}

fn remap_all(metas: &mut Vec<NoteMeta>, old_cols: u32)
    requires
        1 <= old_cols,
        remap_fits(old(metas)@, old_cols),
    ensures
        final(metas)@ == remap_seq(old(metas)@, old_cols),
{
    let mut i: usize = 0;
    while i < metas.len()
        invariant
            0 <= i <= metas@.len(),
            1 <= old_cols,
            metas@.len() == old(metas)@.len(),
            remap_fits(old(metas)@, old_cols),
            forall|j: int|
                i <= j < metas@.len() ==> #[trigger] metas@[j] == old(metas)@[j],
            forall|j: int|
                0 <= j < i ==> #[trigger] metas@[j] == (NoteMeta {
                    slot: remapped(old(metas)@[j].slot, old_cols) as u32,
                    ..old(metas)@[j]
                }),
        decreases metas.len() - i,
    {
        assert(metas@[i as int] == old(metas)@[i as int]);
        let s = remap_slot(metas[i].slot, old_cols);
        let m = metas[i].with_slot(s);
        metas.set(i, m);
        i = i + 1;
    }
    assert(metas@ =~= remap_seq(old(metas)@, old_cols));
}

/// Whether every cell of `metas` moves onto the current shelf without
/// overflow.
fn cells_remap(metas: &Vec<NoteMeta>, old_cols: u32) -> (r: bool)
    requires
        1 <= old_cols,
    ensures
        r == remap_fits(metas@, old_cols),
{
    let mut i: usize = 0;
    while i < metas.len()
        invariant
            0 <= i <= metas@.len(),
            1 <= old_cols,
            forall|j: int| 0 <= j < i ==> remapped((#[trigger] metas@[j]).slot, old_cols) <= u32::MAX,
        decreases metas.len() - i,
    {
        let slot = metas[i].slot;
        let col: u64 = (slot % old_cols) as u64;
        let row: u64 = (slot / old_cols) as u64;
        assert(row * 10 <= 0xffff_ffff * 10) by (nonlinear_arith)
            requires
                row <= 0xffff_ffff,
        ;
        if row * 10 + col > 0xffff_ffff {
            return false;
        }
        i = i + 1;
    }
    true
}

impl Library {
    /// The column count the slots were written for, at least 1.
    pub open spec fn old_cols(&self) -> u32 {
        if self.index.shelf_cols >= 1 {
            self.index.shelf_cols
        } else {
            1
        }
    }

    /// Whether the slots, written for a shelf of another width, all move
    /// onto the current shelf without overflow (the condition
    /// `remap_shelf_cols` and `ensure_slots` ask for).
    pub fn slots_remap(&self) -> (r: bool)
        ensures
            r == (self.old_cols() != SHELF_COLS ==> remap_fits(self.index.notes@, self.old_cols())
                && remap_fits(self.index.trash@, self.old_cols())),
    {
        let old_cols: u32 = if self.index.shelf_cols >= 1 {
            self.index.shelf_cols
        } else {
            1
        };
        if old_cols == SHELF_COLS {
            return true;
        }
        cells_remap(&self.index.notes, old_cols) && cells_remap(&self.index.trash, old_cols)
    }

    /// Moves slots written for a shelf of another width onto the current
    /// shelf, row for row and column for column. Returns whether anything
    /// changed.
    pub fn remap_shelf_cols(&mut self) -> (changed: bool)
        requires
            old(self).old_cols() != SHELF_COLS ==> remap_fits(old(self).index.notes@, old(self).old_cols())
                && remap_fits(old(self).index.trash@, old(self).old_cols()),
        ensures
            changed == (old(self).old_cols() != SHELF_COLS),
            final(self).root == old(self).root,
            final(self).index.seeded == old(self).index.seeded,
            final(self).index.dock == old(self).index.dock,
            final(self).index.mode == old(self).index.mode,
            final(self).index.fiche_pliee == old(self).index.fiche_pliee,
            !changed ==> final(self).index.notes@ == old(self).index.notes@ && final(self).index.trash@
                == old(self).index.trash@ && final(self).index.shelf_cols == old(self).index.shelf_cols,
            changed ==> final(self).index.shelf_cols == SHELF_COLS && final(self).index.notes@
                == remap_seq(old(self).index.notes@, old(self).old_cols()) && final(self).index.trash@
                == remap_seq(old(self).index.trash@, old(self).old_cols()),
    {
        let old_cols = if self.index.shelf_cols >= 1 {
            self.index.shelf_cols
        } else {
            1
        };
        if old_cols == SHELF_COLS {
            return false;
        }
        remap_all(&mut self.index.notes, old_cols);
        remap_all(&mut self.index.trash, old_cols);
        self.index.shelf_cols = SHELF_COLS;
        true
    }
}

} // verus!

verus! {

/// Two notebooks of `metas` stand in the same cell.
pub open spec fn clash(metas: Seq<NoteMeta>) -> bool {
    exists|i: int, j: int|
        0 <= i < j < metas.len() && (#[trigger] metas[i]).slot == (#[trigger] metas[j]).slot
}

/// Several notebooks, all in cell 0: how an index of older versions reads.
pub open spec fn all_zero(metas: Seq<NoteMeta>) -> bool {
    metas.len() > 1 && forall|i: int| 0 <= i < metas.len() ==> (#[trigger] metas[i]).slot == 0
}

/// Each notebook in the cell of its position.
pub open spec fn numbered(metas: Seq<NoteMeta>) -> Seq<NoteMeta> {
    Seq::new(metas.len(), |i: int| NoteMeta { slot: i as u32, ..metas[i] })
}

/// The cells of `0..n` no notebook of `metas` stands in, ascending.
pub open spec fn free_cells(metas: Seq<NoteMeta>, n: int) -> Seq<u32>
    decreases n,
{
    if n <= 0 {
        seq![]
    } else {
        free_cells(metas, n - 1) + if slot_used(metas, (n - 1) as u32) {
            seq![]
        } else {
            seq![(n - 1) as u32]
        }
    }
}

/// How many of the first `i` notebooks stand outside `0..cells`.
pub open spec fn outside_before(metas: Seq<NoteMeta>, cells: u32, i: int) -> int
    decreases i,
{
    if i <= 0 {
        0
    } else {
        outside_before(metas, cells, i - 1) + if metas[i - 1].slot >= cells {
            1int
        } else {
            0
        }
    }
}

/// Notebooks standing outside `0..cells` take the free cells in order,
/// while free cells last; the others stay.
pub open spec fn settle(metas: Seq<NoteMeta>, cells: u32) -> Seq<NoteMeta> {
    let free = free_cells(metas, cells as int);
    Seq::new(
        metas.len(),
        |i: int|
            if metas[i].slot < cells || outside_before(metas, cells, i) >= free.len() {
                metas[i]
            } else {
                NoteMeta { slot: free[outside_before(metas, cells, i)], ..metas[i] }
            },
    )
}

/// Numbered afresh when two share a cell (or, with `zero_reset`, when all
/// stand in cell 0), then settled into `0..cells`.
pub open spec fn settled(metas: Seq<NoteMeta>, cells: u32, zero_reset: bool) -> Seq<NoteMeta> {
    let reset = clash(metas) || (zero_reset && all_zero(metas));
    settle(if reset { numbered(metas) } else { metas }, cells)
}

/// No two notebooks of `metas` stand in the same cell.
pub open spec fn distinct_slots(metas: Seq<NoteMeta>) -> bool {
    forall|i: int, j: int|
        0 <= i < j < metas.len() ==> (#[trigger] metas[i]).slot != (#[trigger] metas[j]).slot
}

proof fn lemma_free_cells(metas: Seq<NoteMeta>, n: int)
    requires
        0 <= n <= u32::MAX + 1,
    ensures
        forall|k: int|
            0 <= k < free_cells(metas, n).len() ==> (#[trigger] free_cells(metas, n)[k]) < n
                && !slot_used(metas, free_cells(metas, n)[k]),
        forall|a: int, b: int|
            0 <= a < b < free_cells(metas, n).len() ==> (#[trigger] free_cells(metas, n)[a]) < (
            #[trigger] free_cells(metas, n)[b]),
        free_cells(metas, n).len() <= n,
    decreases n,
{
    if n > 0 {
        lemma_free_cells(metas, n - 1);
        let f = free_cells(metas, n - 1);
        if !slot_used(metas, (n - 1) as u32) {
            assert(free_cells(metas, n) == f.push((n - 1) as u32));
        } else {
            assert(free_cells(metas, n) == f);
        }
    }
}

proof fn lemma_outside_before(metas: Seq<NoteMeta>, cells: u32, i: int, j: int)
    requires
        0 <= i <= j <= metas.len(),
    ensures
        0 <= outside_before(metas, cells, i) <= outside_before(metas, cells, j),
        i < j && metas[i].slot >= cells ==> outside_before(metas, cells, i) < outside_before(
            metas,
            cells,
            j,
        ),
    decreases j,
{
    if i < j {
        lemma_outside_before(metas, cells, i, j - 1);
    } else {
        lemma_outside_before_nonneg(metas, cells, i);
    }
}

proof fn lemma_outside_before_nonneg(metas: Seq<NoteMeta>, cells: u32, i: int)
    requires
        0 <= i <= metas.len(),
    ensures
        0 <= outside_before(metas, cells, i),
    decreases i,
{
    if i > 0 {
        lemma_outside_before_nonneg(metas, cells, i - 1);
    }
}

/// Settling keeps every notebook in place in the list, changes nothing
/// but cells, and leaves no two in one cell when there were none before.
proof fn lemma_settle_distinct(metas: Seq<NoteMeta>, cells: u32)
    requires
        distinct_slots(metas),
    ensures
        distinct_slots(settle(metas, cells)),
{
    let s = settle(metas, cells);
    let f = free_cells(metas, cells as int);
    lemma_free_cells(metas, cells as int);
    assert forall|i: int, j: int| 0 <= i < j < s.len() implies (#[trigger] s[i]).slot != (
    #[trigger] s[j]).slot by {
        lemma_outside_before(metas, cells, i, j);
        let ri = outside_before(metas, cells, i);
        let rj = outside_before(metas, cells, j);
        let moved_i = metas[i].slot >= cells && ri < f.len();
        let moved_j = metas[j].slot >= cells && rj < f.len();
        if moved_i && moved_j {
            assert(f[ri] < f[rj]);
        } else if moved_i {
            assert(!slot_used(metas, f[ri]));
            assert(metas[j].slot != f[ri]);
        } else if moved_j {
            assert(!slot_used(metas, f[rj]));
            assert(metas[i].slot != f[rj]);
        } else {
            assert(metas[i].slot != metas[j].slot);
        }
    }
}

/// The settled list leaves no two notebooks in one cell.
pub proof fn lemma_settled_distinct(metas: Seq<NoteMeta>, cells: u32, zero_reset: bool)
    requires
        metas.len() <= u32::MAX + 1,
    ensures
        distinct_slots(settled(metas, cells, zero_reset)),
{
    let reset = clash(metas) || (zero_reset && all_zero(metas));
    if reset {
        let n = numbered(metas);
        assert forall|i: int, j: int| 0 <= i < j < n.len() implies (#[trigger] n[i]).slot != (
        #[trigger] n[j]).slot by {}
        lemma_settle_distinct(n, cells);
    } else {
        lemma_settle_distinct(metas, cells);
    }
}

} // verus!

verus! {

/// Some notebook outside `0..cells` gets a free cell.
pub open spec fn moves_any(metas: Seq<NoteMeta>, cells: u32) -> bool {
    exists|i: int|
        0 <= i < metas.len() && (#[trigger] metas[i]).slot >= cells && outside_before(metas, cells, i)
            < free_cells(metas, cells as int).len()
}

fn has_clash(metas: &Vec<NoteMeta>) -> (r: bool)
    ensures
        r == clash(metas@),
{
    let n = metas.len();
    let mut seen: HashSet<u32> = HashSet::new();
    let mut i: usize = 0;
    while i < n
        invariant
            n == metas@.len(),
            0 <= i <= n,
            forall|s: u32| #[trigger] seen@.contains(s) <==> exists|a: int| 0 <= a < i && metas@[a].slot == s,
            forall|a: int, b: int| 0 <= a < b < i ==> (#[trigger] metas@[a]).slot != (#[trigger] metas@[b]).slot,
        decreases n - i,
    {
        let slot = metas[i].slot;
        let ghost before = seen@;
        if !seen.insert(slot) {
            proof {
                assert(before.contains(slot));
                let a = choose|a: int| 0 <= a < i && metas@[a].slot == slot;
                assert(metas@[a].slot == metas@[i as int].slot);
            }
            return true;
        }
        proof {
            assert forall|s: u32| #[trigger] seen@.contains(s) <==> exists|a: int|
                0 <= a < i + 1 && metas@[a].slot == s by {
                if s == slot {
                    assert(metas@[i as int].slot == s);
                }
                if exists|a: int| 0 <= a < i + 1 && metas@[a].slot == s {
                    let a = choose|a: int| 0 <= a < i + 1 && metas@[a].slot == s;
                    if a < i {
                        assert(before.contains(s));
                    }
                }
            }
            assert forall|a: int, b: int| 0 <= a < b < i + 1 implies (#[trigger] metas@[a]).slot
                != (#[trigger] metas@[b]).slot by {
                if b == i {
                    if metas@[a].slot == slot {
                        assert(before.contains(slot));
                    }
                }
            }
        }
        i = i + 1;
    }
    false
}

fn all_at_zero(metas: &Vec<NoteMeta>) -> (r: bool)
    ensures
        r == all_zero(metas@),
{
    if metas.len() <= 1 {
        return false;
    }
    let mut i: usize = 0;
    while i < metas.len()
        invariant
            0 <= i <= metas@.len(),
            forall|j: int| 0 <= j < i ==> (#[trigger] metas@[j]).slot == 0,
        decreases metas.len() - i,
    {
        if metas[i].slot != 0 {
            return false;
        }
        i = i + 1;
    }
    true
}

fn renumber(metas: &mut Vec<NoteMeta>)
    requires
        old(metas)@.len() <= u32::MAX + 1,
    ensures
        final(metas)@ == numbered(old(metas)@),
{
    let mut i: usize = 0;
    while i < metas.len()
        invariant
            0 <= i <= metas@.len(),
            metas@.len() == old(metas)@.len(),
            old(metas)@.len() <= u32::MAX + 1,
            forall|j: int| i <= j < metas@.len() ==> #[trigger] metas@[j] == old(metas)@[j],
            forall|j: int|
                0 <= j < i ==> #[trigger] metas@[j] == (NoteMeta { slot: j as u32, ..old(metas)@[j] }),
        decreases metas.len() - i,
    {
        let m = metas[i].with_slot(i as u32);
        metas.set(i, m);
        i = i + 1;
    }
    assert(metas@ =~= numbered(old(metas)@));
}

fn free_list(metas: &Vec<NoteMeta>, cells: u32) -> (r: Vec<u32>)
    ensures
        r@ == free_cells(metas@, cells as int),
{
    let mut out: Vec<u32> = Vec::new();
    let mut c: u32 = 0;
    while c < cells
        invariant
            0 <= c <= cells,
            out@ == free_cells(metas@, c as int),
        decreases cells - c,
    {
        if !slot_taken(metas, c) {
            out.push(c);
        }
        c = c + 1;
        proof {
            if slot_used(metas@, (c - 1) as u32) {
                assert(out@ =~= free_cells(metas@, c as int));
            } else {
                assert(out@ =~= free_cells(metas@, c as int));
            }
        }
    }
    out
}

/// Gives each notebook outside `0..cells` the next free cell while free
/// cells last.
fn settle_in(metas: &mut Vec<NoteMeta>, cells: u32) -> (moved: bool)
    ensures
        final(metas)@ == settle(old(metas)@, cells),
        moved == moves_any(old(metas)@, cells),
{
    let ghost orig = metas@;
    let free = free_list(metas, cells);
    let mut next: usize = 0;
    let mut moved = false;
    let mut i: usize = 0;
    while i < metas.len()
        invariant
            0 <= i <= metas@.len(),
            metas@.len() == orig.len(),
            free@ == free_cells(orig, cells as int),
            next as int == if outside_before(orig, cells, i as int) < free@.len() {
                outside_before(orig, cells, i as int)
            } else {
                free@.len() as int
            },
            forall|j: int| i <= j < metas@.len() ==> #[trigger] metas@[j] == orig[j],
            forall|j: int| 0 <= j < i ==> #[trigger] metas@[j] == settle(orig, cells)[j],
            moved == exists|j: int|
                0 <= j < i && (#[trigger] orig[j]).slot >= cells && outside_before(orig, cells, j)
                    < free@.len(),
        decreases metas.len() - i,
    {
        proof {
            lemma_outside_before_nonneg(orig, cells, i as int);
        }
        assert(metas@[i as int] == orig[i as int]);
        if metas[i].slot >= cells && next < free.len() {
            let m = metas[i].with_slot(free[next]);
            metas.set(i, m);
            next = next + 1;
            moved = true;
        }
        i = i + 1;
    }
    assert(metas@ =~= settle(orig, cells));
    moved
}

/// Numbers the notebooks afresh when two share a cell (or, with
/// `zero_reset`, when all stand in cell 0), then gives those outside
/// `0..cells` the free cells in order. Returns whether anything changed.
fn settle_slots(metas: &mut Vec<NoteMeta>, cells: u32, zero_reset: bool) -> (dirty: bool)
    requires
        old(metas)@.len() <= u32::MAX + 1,
    ensures
        final(metas)@ == settled(old(metas)@, cells, zero_reset),
        dirty == (clash(old(metas)@) || (zero_reset && all_zero(old(metas)@)) || moves_any(
            if clash(old(metas)@) || (zero_reset && all_zero(old(metas)@)) {
                numbered(old(metas)@)
            } else {
                old(metas)@
            },
            cells,
        )),
        distinct_slots(final(metas)@),
{
    let reset = has_clash(metas) || (zero_reset && all_at_zero(metas));
    if reset {
        renumber(metas);
    }
    let moved = settle_in(metas, cells);
    proof {
        lemma_settled_distinct(old(metas)@, cells, zero_reset);
    }
    reset || moved
}

} // verus!

verus! {

impl Library {
    /// The slots the notebooks stand in once moved onto the current shelf.
    pub open spec fn shelf_slots_now(&self, metas: Seq<NoteMeta>) -> Seq<NoteMeta> {
        if self.old_cols() != SHELF_COLS {
            remap_seq(metas, self.old_cols())
        } else {
            metas
        }
    }

    /// Puts every notebook on its own shelf cell: slots of an older shelf
    /// width are moved over, notebooks sharing a cell (or all standing in
    /// cell 0) are numbered afresh, and those off the shelf take the free
    /// cells in order. Returns whether the index changed and should be saved.
    pub fn ensure_slots(&mut self) -> (dirty: bool)
        requires
            old(self).old_cols() != SHELF_COLS ==> remap_fits(old(self).index.notes@, old(self).old_cols())
                && remap_fits(old(self).index.trash@, old(self).old_cols()),
            old(self).index.notes@.len() <= u32::MAX + 1,
        ensures
            final(self).root == old(self).root,
            final(self).index.seeded == old(self).index.seeded,
            final(self).index.dock == old(self).index.dock,
            final(self).index.mode == old(self).index.mode,
            final(self).index.fiche_pliee == old(self).index.fiche_pliee,
            final(self).index.shelf_cols == SHELF_COLS,
            final(self).index.notes@ == settled(
                old(self).shelf_slots_now(old(self).index.notes@),
                SHELF_SLOTS,
                true,
            ),
            final(self).index.trash@ == old(self).shelf_slots_now(old(self).index.trash@),
            distinct_slots(final(self).index.notes@),
            old(self).index.notes@.len() <= SHELF_SLOTS ==> forall|i: int|
                0 <= i < final(self).index.notes@.len() ==> (#[trigger] final(self).index.notes@[i]).slot
                    < SHELF_SLOTS,
            dirty == (final(self).index.notes@ != old(self).index.notes@ || final(self).index.trash@
                != old(self).index.trash@ || final(self).index.shelf_cols != old(self).index.shelf_cols),
    {
        let remapped = self.remap_shelf_cols();
        let ghost mid = self.index.notes@;
        let dirty = settle_slots(&mut self.index.notes, SHELF_SLOTS, true);
        proof {
            lemma_settle_dirty(mid, SHELF_SLOTS, true);
            if old(self).index.notes@.len() <= SHELF_SLOTS {
                law_settled_within(mid, SHELF_SLOTS, true);
            }
        }
        remapped || dirty
    }

    /// Puts every binned notebook on its own bin cell: notebooks sharing a
    /// cell are numbered afresh and those off the bin row take the free
    /// cells in order. Returns whether the index changed and should be saved.
    pub fn ensure_trash_slots(&mut self) -> (dirty: bool)
        requires
            old(self).index.trash@.len() <= u32::MAX + 1,
        ensures
            final(self).root == old(self).root,
            final(self).index.seeded == old(self).index.seeded,
            final(self).index.dock == old(self).index.dock,
            final(self).index.mode == old(self).index.mode,
            final(self).index.fiche_pliee == old(self).index.fiche_pliee,
            final(self).index.shelf_cols == old(self).index.shelf_cols,
            final(self).index.notes@ == old(self).index.notes@,
            final(self).index.trash@ == settled(old(self).index.trash@, TRASH_SLOTS, false),
            distinct_slots(final(self).index.trash@),
            old(self).index.trash@.len() <= TRASH_SLOTS ==> forall|i: int|
                0 <= i < final(self).index.trash@.len() ==> (#[trigger] final(self).index.trash@[i]).slot
                    < TRASH_SLOTS,
            dirty == (final(self).index.trash@ != old(self).index.trash@),
    {
        let dirty = settle_slots(&mut self.index.trash, TRASH_SLOTS, false);
        proof {
            lemma_settle_dirty(old(self).index.trash@, TRASH_SLOTS, false);
            if old(self).index.trash@.len() <= TRASH_SLOTS {
                law_settled_within(old(self).index.trash@, TRASH_SLOTS, false);
            }
        }
        dirty
    }
}

/// Settling reports a change exactly when it changes a cell.
proof fn lemma_settle_dirty(metas: Seq<NoteMeta>, cells: u32, zero_reset: bool)
    requires
        metas.len() <= u32::MAX + 1,
    ensures
        (clash(metas) || (zero_reset && all_zero(metas)) || moves_any(
            if clash(metas) || (zero_reset && all_zero(metas)) {
                numbered(metas)
            } else {
                metas
            },
            cells,
        )) <==> settled(metas, cells, zero_reset) != metas,
{
    let reset = clash(metas) || (zero_reset && all_zero(metas));
    lemma_settled_distinct(metas, cells, zero_reset);
    let out = settled(metas, cells, zero_reset);
    if reset {
        if clash(metas) {
            let (i, j) = choose|i: int, j: int|
                0 <= i < j < metas.len() && (#[trigger] metas[i]).slot == (#[trigger] metas[j]).slot;
            if out == metas {
                assert(out[i].slot != out[j].slot);
            }
        } else {
            assert(metas[0].slot == 0 && metas[1].slot == 0);
            if out == metas {
                assert(out[0].slot != out[1].slot);
            }
        }
    } else if moves_any(metas, cells) {
        let i = choose|i: int|
            0 <= i < metas.len() && (#[trigger] metas[i]).slot >= cells && outside_before(metas, cells, i)
                < free_cells(metas, cells as int).len();
        lemma_free_cells(metas, cells as int);
        lemma_outside_before_nonneg(metas, cells, i);
        let f = free_cells(metas, cells as int);
        assert(f[outside_before(metas, cells, i)] < cells);
        assert(out[i].slot < cells);
        assert(out[i] != metas[i]);
    } else {
        lemma_settle_unmoved(metas, cells);
    }
}

/// When no notebook gets a free cell, settling changes nothing.
proof fn lemma_settle_unmoved(metas: Seq<NoteMeta>, cells: u32)
    requires
        !moves_any(metas, cells),
    ensures
        settle(metas, cells) == metas,
{
    assert(settle(metas, cells) =~= metas);
}

} // verus!

verus! {

/// How many cells of `0..n` some notebook of `metas` stands in.
pub open spec fn used_upto(metas: Seq<NoteMeta>, n: int) -> int
    decreases n,
{
    if n <= 0 {
        0
    } else {
        used_upto(metas, n - 1) + if slot_used(metas, (n - 1) as u32) {
            1int
        } else {
            0
        }
    }
}

proof fn lemma_free_plus_used(metas: Seq<NoteMeta>, n: int)
    requires
        0 <= n,
    ensures
        free_cells(metas, n).len() + used_upto(metas, n) == n,
    decreases n,
{
    if n > 0 {
        lemma_free_plus_used(metas, n - 1);
    }
}

proof fn lemma_used_drop_last(metas: Seq<NoteMeta>, n: int)
    requires
        0 <= n <= u32::MAX + 1,
        metas.len() > 0,
        distinct_slots(metas),
    ensures
        used_upto(metas, n) == used_upto(metas.drop_last(), n) + if metas.last().slot < n {
            1int
        } else {
            0
        },
    decreases n,
{
    let d = metas.drop_last();
    let last = metas.last();
    if n > 0 {
        lemma_used_drop_last(metas, n - 1);
        let c = (n - 1) as u32;
        if slot_used(metas, c) && !slot_used(d, c) {
            let i = choose|i: int| 0 <= i < metas.len() && (#[trigger] metas[i]).slot == c;
            if i < d.len() {
                assert(d[i] == metas[i]);
            }
            assert(last.slot == c);
        }
        if slot_used(d, c) {
            let i = choose|i: int| 0 <= i < d.len() && (#[trigger] d[i]).slot == c;
            assert(metas[i] == d[i]);
            assert(slot_used(metas, c));
            assert(last.slot != c) by {
                assert(metas[i].slot != metas[metas.len() - 1].slot);
            }
        }
        if last.slot == c {
            assert(metas[metas.len() - 1].slot == c);
            assert(slot_used(metas, c));
        }
    }
}

proof fn lemma_outside_prefix(metas: Seq<NoteMeta>, cells: u32, k: int)
    requires
        0 <= k < metas.len(),
    ensures
        outside_before(metas, cells, k) == outside_before(metas.drop_last(), cells, k),
    decreases k,
{
    if k > 0 {
        lemma_outside_prefix(metas, cells, k - 1);
    }
}

proof fn lemma_used_none(metas: Seq<NoteMeta>, n: int)
    requires
        metas.len() == 0,
    ensures
        used_upto(metas, n) == 0,
    decreases n,
{
    if n > 0 {
        lemma_used_none(metas, n - 1);
    }
}

proof fn lemma_used_count(metas: Seq<NoteMeta>, cells: u32)
    requires
        distinct_slots(metas),
    ensures
        used_upto(metas, cells as int) == metas.len() - outside_before(metas, cells, metas.len() as int),
    decreases metas.len(),
{
    if metas.len() > 0 {
        let d = metas.drop_last();
        assert(distinct_slots(d)) by {
            assert forall|i: int, j: int| 0 <= i < j < d.len() implies (#[trigger] d[i]).slot != (
            #[trigger] d[j]).slot by {
                assert(d[i] == metas[i] && d[j] == metas[j]);
            }
        }
        lemma_used_count(d, cells);
        lemma_used_drop_last(metas, cells as int);
        lemma_outside_prefix(metas, cells, metas.len() - 1);
    } else {
        lemma_used_none(metas, cells as int);
    }
}

/// With no more notebooks than cells, settling leaves every notebook in a
/// cell of `0..cells`.
pub proof fn law_settled_within(metas: Seq<NoteMeta>, cells: u32, zero_reset: bool)
    requires
        metas.len() <= cells,
    ensures
        forall|i: int|
            0 <= i < settled(metas, cells, zero_reset).len() ==> (#[trigger] settled(
                metas,
                cells,
                zero_reset,
            )[i]).slot < cells,
{
    let reset = clash(metas) || (zero_reset && all_zero(metas));
    let u = if reset {
        numbered(metas)
    } else {
        metas
    };
    if reset {
        assert forall|i: int, j: int| 0 <= i < j < u.len() implies (#[trigger] u[i]).slot != (
        #[trigger] u[j]).slot by {}
    }
    assert(distinct_slots(u));
    let f = free_cells(u, cells as int);
    lemma_free_plus_used(u, cells as int);
    lemma_used_count(u, cells);
    lemma_free_cells(u, cells as int);
    let s = settle(u, cells);
    assert forall|i: int| 0 <= i < s.len() implies (#[trigger] s[i]).slot < cells by {
        if u[i].slot >= cells {
            lemma_outside_before(u, cells, i, u.len() as int);
            assert(outside_before(u, cells, i) < f.len());
        }
    }
}

} // verus!

verus! {

/// `i` is the position of the first notebook of `metas` with id `id`.
pub open spec fn is_first_id(metas: Seq<NoteMeta>, id: u128, i: int) -> bool {
    &&& 0 <= i < metas.len()
    &&& metas[i].id == id
    &&& forall|j: int| 0 <= j < i ==> (#[trigger] metas[j]).id != id
}

/// The position of the first notebook with id `id`.
pub open spec fn find_id(metas: Seq<NoteMeta>, id: u128) -> Option<int> {
    if exists|i: int| is_first_id(metas, id, i) {
        Some(choose|i: int| is_first_id(metas, id, i))
    } else {
        None
    }
}

/// `j` is the position of the first notebook in cell `target` other than
/// the one at position `i`.
pub open spec fn is_first_other_at(metas: Seq<NoteMeta>, target: u32, i: int, j: int) -> bool {
    &&& 0 <= j < metas.len()
    &&& j != i
    &&& metas[j].slot == target
    &&& forall|k: int| 0 <= k < j ==> !((#[trigger] metas[k]).slot == target && k != i)
}

/// The position of the first notebook in cell `target` other than the one
/// at position `i`.
pub open spec fn find_other_at(metas: Seq<NoteMeta>, target: u32, i: int) -> Option<int> {
    if exists|j: int| is_first_other_at(metas, target, i, j) {
        Some(choose|j: int| is_first_other_at(metas, target, i, j))
    } else {
        None
    }
}

/// Step `k` of a move onto cells `dest, dest + 1, …`: `moving[k]`, when
/// present, takes cell `dest + k`, and a notebook standing there swaps over
/// to the cell `moving[k]` left. Past the last cell nothing moves.
pub open spec fn place_step(metas: Seq<NoteMeta>, moving: Seq<u128>, dest: u32, cells: u32, k: int) -> Seq<
    NoteMeta,
> {
    if dest + k >= cells {
        metas
    } else {
        let target = (dest + k) as u32;
        match find_id(metas, moving[k]) {
            None => metas,
            Some(i) => {
                let from = metas[i].slot;
                let m1 = metas.update(i, NoteMeta { slot: target, ..metas[i] });
                match find_other_at(metas, target, i) {
                    Some(j) => m1.update(j, NoteMeta { slot: from, ..metas[j] }),
                    None => m1,
                }
            },
        }
    }
}

/// The first `k` steps of a move.
pub open spec fn placed(metas: Seq<NoteMeta>, moving: Seq<u128>, dest: u32, cells: u32, k: int) -> Seq<NoteMeta>
    decreases k,
{
    if k <= 0 {
        metas
    } else {
        place_step(placed(metas, moving, dest, cells, k - 1), moving, dest, cells, k - 1)
    }
}

/// The first cell a move can start from: `dest`, at most the last cell.
pub open spec fn start_cell(dest: u32, cells: u32) -> u32 {
    if dest < cells - 1 {
        dest
    } else {
        (cells - 1) as u32
    }
}

/// Notebooks `moving` placed on cells `dest, dest + 1, …` of `0..cells`.
pub open spec fn place_spec(metas: Seq<NoteMeta>, moving: Seq<u128>, dest: u32, cells: u32) -> Seq<NoteMeta> {
    if moving.len() == 0 {
        metas
    } else {
        placed(metas, moving, start_cell(dest, cells), cells, moving.len() as int)
    }
}

/// `after` holds the notebooks of `before`, in the same order, changed in
/// nothing but their cells.
pub open spec fn same_but_slots(before: Seq<NoteMeta>, after: Seq<NoteMeta>) -> bool {
    &&& after.len() == before.len()
    &&& forall|i: int|
        0 <= i < before.len() ==> #[trigger] after[i] == (NoteMeta { slot: after[i].slot, ..before[i] })
}

fn position_of(metas: &Vec<NoteMeta>, id: u128) -> (r: Option<usize>)
    ensures
        r is None <==> find_id(metas@, id) is None,
        r matches Some(i) ==> find_id(metas@, id) == Some(i as int) && is_first_id(metas@, id, i as int),
{
    let mut i: usize = 0;
    while i < metas.len()
        invariant
            0 <= i <= metas@.len(),
            forall|j: int| 0 <= j < i ==> (#[trigger] metas@[j]).id != id,
        decreases metas.len() - i,
    {
        if metas[i].id == id {
            proof {
                assert(is_first_id(metas@, id, i as int));
                let w = choose|w: int| is_first_id(metas@, id, w);
                if w < i {
                } else if w > i {
                    assert(metas@[i as int].id != id);
                }
            }
            return Some(i);
        }
        i = i + 1;
    }
    None
}

fn has_u128(v: &[u128], x: u128) -> (r: bool)
    ensures
        r == v@.contains(x),
{
    let mut i: usize = 0;
    while i < v.len()
        invariant
            0 <= i <= v@.len(),
            forall|j: int| 0 <= j < i ==> v@[j] != x,
        decreases v.len() - i,
    {
        if v[i] == x {
            return true;
        }
        i = i + 1;
    }
    false
}

fn position_other_at(metas: &Vec<NoteMeta>, target: u32, i: usize) -> (r: Option<usize>)
    ensures
        r is None <==> find_other_at(metas@, target, i as int) is None,
        r matches Some(j) ==> find_other_at(metas@, target, i as int) == Some(j as int),
{
    let mut j: usize = 0;
    while j < metas.len()
        invariant
            0 <= j <= metas@.len(),
            forall|k: int| 0 <= k < j ==> !((#[trigger] metas@[k]).slot == target && k != i),
        decreases metas.len() - j,
    {
        if metas[j].slot == target && j != i {
            proof {
                assert(is_first_other_at(metas@, target, i as int, j as int));
                let w = choose|w: int| is_first_other_at(metas@, target, i as int, w);
                if w > j {
                    assert(!(metas@[j as int].slot == target && j != i));
                }
            }
            return Some(j);
        }
        j = j + 1;
    }
    None
}

/// Places notebooks `moving` on cells `dest, dest + 1, …` of `0..cells`.
fn place_in(metas: &mut Vec<NoteMeta>, moving: &[u128], dest: u32, cells: u32)
    requires
        1 <= cells,
    ensures
        final(metas)@ == place_spec(old(metas)@, moving@, dest, cells),
{
    if moving.len() == 0 {
        return;
    }
    let d: u32 = if dest < cells - 1 {
        dest
    } else {
        cells - 1
    };
    let ghost orig = metas@;
    let mut k: usize = 0;
    while k < moving.len()
        invariant
            0 <= k <= moving@.len(),
            1 <= cells,
            d < cells,
            d == start_cell(dest, cells),
            metas@ == placed(orig, moving@, d, cells, k as int),
        decreases moving.len() - k,
    {
        if (k as u64) < ((cells - d) as u64) {
            let target: u32 = d + k as u32;
            match position_of(metas, moving[k]) {
                Some(i) => {
                    let from = metas[i].slot;
                    let other = position_other_at(metas, target, i);
                    let m = metas[i].with_slot(target);
                    metas.set(i, m);
                    match other {
                        Some(j) => {
                            let o = metas[j].with_slot(from);
                            metas.set(j, o);
                        },
                        None => {},
                    }
                },
                None => {},
            }
        }
        k = k + 1;
    }
}

} // verus!

verus! {

proof fn lemma_same_find(before: Seq<NoteMeta>, after: Seq<NoteMeta>, id: u128)
    requires
        same_but_slots(before, after),
    ensures
        find_id(after, id) == find_id(before, id),
{
    assert forall|j: int| 0 <= j < before.len() implies (#[trigger] after[j]).id == before[j].id by {
        assert(after[j] == (NoteMeta { slot: after[j].slot, ..before[j] }));
    }
    assert forall|i: int| is_first_id(after, id, i) implies is_first_id(before, id, i) by {
        assert(after[i].id == before[i].id);
        assert forall|j: int| 0 <= j < i implies (#[trigger] before[j]).id != id by {
            assert(after[j].id == before[j].id);
        }
    }
    assert forall|i: int| is_first_id(before, id, i) implies is_first_id(after, id, i) by {
        assert(after[i].id == before[i].id);
        assert forall|j: int| 0 <= j < i implies (#[trigger] after[j]).id != id by {
            assert(after[j].id == before[j].id);
        }
    }
}

proof fn lemma_same_trans(a: Seq<NoteMeta>, b: Seq<NoteMeta>, c: Seq<NoteMeta>)
    requires
        same_but_slots(a, b),
        same_but_slots(b, c),
    ensures
        same_but_slots(a, c),
{
    assert forall|i: int| 0 <= i < a.len() implies #[trigger] c[i] == (NoteMeta { slot: c[i].slot, ..a[i] }) by {
        assert(b[i] == (NoteMeta { slot: b[i].slot, ..a[i] }));
        assert(c[i] == (NoteMeta { slot: c[i].slot, ..b[i] }));
    }
}

proof fn lemma_first_other_unique(metas: Seq<NoteMeta>, target: u32, i: int, j: int, w: int)
    requires
        is_first_other_at(metas, target, i, j),
        is_first_other_at(metas, target, i, w),
    ensures
        j == w,
{
    if w < j {
        assert(!(metas[w].slot == target && w != i));
    } else if j < w {
        assert(!(metas[j].slot == target && j != i));
    }
}

proof fn lemma_step_same(metas: Seq<NoteMeta>, moving: Seq<u128>, dest: u32, cells: u32, k: int)
    requires
        0 <= k < moving.len(),
    ensures
        same_but_slots(metas, place_step(metas, moving, dest, cells, k)),
{
    if dest + k < cells {
        let target = (dest + k) as u32;
        if let Some(i) = find_id(metas, moving[k]) {
            let wi = choose|wi: int| is_first_id(metas, moving[k], wi);
            assert(i == wi);
            let from = metas[i].slot;
            let m1 = metas.update(i, NoteMeta { slot: target, ..metas[i] });
            assert(same_but_slots(metas, m1));
            if let Some(j) = find_other_at(metas, target, i) {
                let w = choose|w: int| is_first_other_at(metas, target, i, w);
                assert(j == w);
                let m2 = m1.update(j, NoteMeta { slot: from, ..metas[j] });
                assert(m1[j] == metas[j]);
                assert(same_but_slots(m1, m2));
                lemma_same_trans(metas, m1, m2);
            }
        }
    } else {
        assert(same_but_slots(metas, metas));
    }
}

/// A step is a swap of two cells, so it keeps notebooks in cells of their own.
proof fn lemma_step_distinct(metas: Seq<NoteMeta>, moving: Seq<u128>, dest: u32, cells: u32, k: int)
    requires
        0 <= k < moving.len(),
        distinct_slots(metas),
    ensures
        distinct_slots(place_step(metas, moving, dest, cells, k)),
{
    if dest + k < cells {
        let target = (dest + k) as u32;
        if let Some(i) = find_id(metas, moving[k]) {
            let wi = choose|wi: int| is_first_id(metas, moving[k], wi);
            assert(i == wi);
            let from = metas[i].slot;
            let m1 = metas.update(i, NoteMeta { slot: target, ..metas[i] });
            match find_other_at(metas, target, i) {
                Some(j) => {
                    let w = choose|w: int| is_first_other_at(metas, target, i, w);
                    assert(j == w);
                    let m2 = m1.update(j, NoteMeta { slot: from, ..metas[j] });
                    assert forall|a: int, b: int| 0 <= a < b < m2.len() implies (#[trigger] m2[a]).slot
                        != (#[trigger] m2[b]).slot by {
                        if a != i && a != j && b != i && b != j {
                            assert(metas[a].slot != metas[b].slot);
                        } else if a == i || b == i {
                            let o = if a == i { b } else { a };
                            if o != j {
                                if o < j {
                                    assert(metas[o].slot != metas[j].slot);
                                } else {
                                    assert(metas[j].slot != metas[o].slot);
                                }
                            }
                        } else {
                            let o = if a == j { b } else { a };
                            if o < i {
                                assert(metas[o].slot != metas[i].slot);
                            } else {
                                assert(metas[i].slot != metas[o].slot);
                            }
                        }
                    }
                },
                None => {
                    assert forall|a: int, b: int| 0 <= a < b < m1.len() implies (#[trigger] m1[a]).slot
                        != (#[trigger] m1[b]).slot by {
                        if a != i && b != i {
                            assert(metas[a].slot != metas[b].slot);
                        } else {
                            let o = if a == i { b } else { a };
                            if metas[o].slot == target {
                                assert(is_first_other_at(metas, target, i, o)) by {
                                    assert forall|q: int| 0 <= q < o implies !((#[trigger] metas[q]).slot
                                        == target && q != i) by {
                                        if q != i && metas[q].slot == target {
                                            if q < o {
                                                assert(metas[q].slot != metas[o].slot);
                                            }
                                        }
                                    }
                                }
                            }
                        }
                    }
                },
            }
        }
    }
}

proof fn lemma_placed_same(metas: Seq<NoteMeta>, moving: Seq<u128>, dest: u32, cells: u32, k: int)
    requires
        0 <= k <= moving.len(),
    ensures
        same_but_slots(metas, placed(metas, moving, dest, cells, k)),
    decreases k,
{
    if k > 0 {
        lemma_placed_same(metas, moving, dest, cells, k - 1);
        let m = placed(metas, moving, dest, cells, k - 1);
        lemma_step_same(m, moving, dest, cells, k - 1);
        lemma_same_trans(metas, m, placed(metas, moving, dest, cells, k));
    } else {
        assert(same_but_slots(metas, metas));
    }
}

proof fn lemma_placed_distinct(metas: Seq<NoteMeta>, moving: Seq<u128>, dest: u32, cells: u32, k: int)
    requires
        0 <= k <= moving.len(),
        distinct_slots(metas),
    ensures
        distinct_slots(placed(metas, moving, dest, cells, k)),
    decreases k,
{
    if k > 0 {
        lemma_placed_distinct(metas, moving, dest, cells, k - 1);
        lemma_step_distinct(placed(metas, moving, dest, cells, k - 1), moving, dest, cells, k - 1);
    }
}

/// After step `k`, `moving[k]` (when present) stands in cell `dest + k`;
/// later steps, moving other notebooks, leave it there.
proof fn lemma_placed_lands(metas: Seq<NoteMeta>, moving: Seq<u128>, dest: u32, cells: u32, k0: int, k: int)
    requires
        0 <= k0 < k <= moving.len(),
        dest + k0 < cells,
        forall|a: int, b: int| 0 <= a < b < moving.len() ==> moving[a] != moving[b],
        find_id(metas, moving[k0]) is Some,
    ensures
        placed(metas, moving, dest, cells, k)[find_id(metas, moving[k0]).unwrap()].slot == dest + k0,
    decreases k,
{
    let p = find_id(metas, moving[k0]).unwrap();
    let w = choose|w: int| is_first_id(metas, moving[k0], w);
    assert(p == w);
    let m = placed(metas, moving, dest, cells, k - 1);
    lemma_placed_same(metas, moving, dest, cells, k - 1);
    lemma_same_find(metas, m, moving[k0]);
    assert(m[p].id == moving[k0]);
    let target = (dest + (k - 1)) as u32;
    lemma_step_same(m, moving, dest, cells, k - 1);
    let m2 = place_step(m, moving, dest, cells, k - 1);
    if k - 1 == k0 {
        assert(find_id(m, moving[k0]) == Some(p));
        let wi = choose|wi: int| is_first_id(m, moving[k0], wi);
        assert(p == wi);
        if let Some(j) = find_other_at(m, target, p) {
            let wj = choose|wj: int| is_first_other_at(m, target, p, wj);
            assert(j == wj);
        }
        assert(m2[p].slot == dest + k0);
    } else {
        lemma_placed_lands(metas, moving, dest, cells, k0, k - 1);
        if dest + (k - 1) < cells {
            let idk = moving[k - 1];
            if let Some(i) = find_id(m, idk) {
                let wi = choose|wi: int| is_first_id(m, idk, wi);
                assert(i == wi);
                assert(m[i].id == moving[k - 1]);
                assert(moving[k - 1] != moving[k0]);
                assert(i != p);
                if let Some(j) = find_other_at(m, target, i) {
                    let wj = choose|wj: int| is_first_other_at(m, target, i, wj);
                    assert(j == wj);
                    assert(m[j].slot == target);
                    assert(j != p);
                }
            }
        }
        assert(m2[p] == m[p]);
    }
}

impl Library {
    /// Places notebooks `moving` on shelf cells `dest, dest + 1, …`
    /// (`dest` at most the last cell). A notebook already standing in one
    /// of those cells swaps over to the cell the mover left, so no two
    /// notebooks ever end up sharing a cell.
    pub fn place_at(&mut self, moving: &[u128], dest: u32)
        ensures
            final(self).root == old(self).root,
            final(self).index.seeded == old(self).index.seeded,
            final(self).index.dock == old(self).index.dock,
            final(self).index.mode == old(self).index.mode,
            final(self).index.fiche_pliee == old(self).index.fiche_pliee,
            final(self).index.shelf_cols == old(self).index.shelf_cols,
            final(self).index.trash@ == old(self).index.trash@,
            final(self).index.notes@ == place_spec(old(self).index.notes@, moving@, dest, SHELF_SLOTS),
            same_but_slots(old(self).index.notes@, final(self).index.notes@),
            distinct_slots(old(self).index.notes@) ==> distinct_slots(final(self).index.notes@),
            (forall|a: int, b: int| 0 <= a < b < moving@.len() ==> moving@[a] != moving@[b]) ==> forall|j: int|
                0 <= j < old(self).index.notes@.len() && !moving@.contains(old(self).index.notes@[j].id) ==> {
                    let c = (#[trigger] final(self).index.notes@[j]).slot;
                    c == old(self).index.notes@[j].slot || mover_cell(old(self).index.notes@, moving@, c)
                },
            (forall|a: int, b: int| 0 <= a < b < moving@.len() ==> moving@[a] != moving@[b])
                ==> forall|k: int|
                0 <= k < moving@.len() && start_cell(dest, SHELF_SLOTS) + k < SHELF_SLOTS && find_id(
                    old(self).index.notes@,
                    #[trigger] moving@[k],
                ) is Some ==> final(self).index.notes@[find_id(
                    old(self).index.notes@,
                    moving@[k],
                ).unwrap()].slot == start_cell(dest, SHELF_SLOTS) + k,
    {
        place_in(&mut self.index.notes, moving, dest, SHELF_SLOTS);
        proof {
            lemma_place_laws(old(self).index.notes@, moving@, dest, SHELF_SLOTS);
        }
    }

    /// Places binned notebooks `moving` on bin cells `dest, dest + 1, …`
    /// (`dest` at most the last cell), swapping as `place_at` does.
    pub fn place_trash_at(&mut self, moving: &[u128], dest: u32)
        ensures
            final(self).root == old(self).root,
            final(self).index.seeded == old(self).index.seeded,
            final(self).index.dock == old(self).index.dock,
            final(self).index.mode == old(self).index.mode,
            final(self).index.fiche_pliee == old(self).index.fiche_pliee,
            final(self).index.shelf_cols == old(self).index.shelf_cols,
            final(self).index.notes@ == old(self).index.notes@,
            final(self).index.trash@ == place_spec(old(self).index.trash@, moving@, dest, TRASH_SLOTS),
            same_but_slots(old(self).index.trash@, final(self).index.trash@),
            distinct_slots(old(self).index.trash@) ==> distinct_slots(final(self).index.trash@),
            (forall|a: int, b: int| 0 <= a < b < moving@.len() ==> moving@[a] != moving@[b]) ==> forall|j: int|
                0 <= j < old(self).index.trash@.len() && !moving@.contains(old(self).index.trash@[j].id) ==> {
                    let c = (#[trigger] final(self).index.trash@[j]).slot;
                    c == old(self).index.trash@[j].slot || mover_cell(old(self).index.trash@, moving@, c)
                },
            (forall|a: int, b: int| 0 <= a < b < moving@.len() ==> moving@[a] != moving@[b])
                ==> forall|k: int|
                0 <= k < moving@.len() && start_cell(dest, TRASH_SLOTS) + k < TRASH_SLOTS && find_id(
                    old(self).index.trash@,
                    #[trigger] moving@[k],
                ) is Some ==> final(self).index.trash@[find_id(
                    old(self).index.trash@,
                    moving@[k],
                ).unwrap()].slot == start_cell(dest, TRASH_SLOTS) + k,
    {
        place_in(&mut self.index.trash, moving, dest, TRASH_SLOTS);
        proof {
            lemma_place_laws(old(self).index.trash@, moving@, dest, TRASH_SLOTS);
        }
    }
}

/// Cell `c` is one that a notebook of `moving` stood in, in `metas`.
pub open spec fn mover_cell(metas: Seq<NoteMeta>, moving: Seq<u128>, c: u32) -> bool {
    exists|m: int| 0 <= m < metas.len() && moving.contains(metas[m].id) && (#[trigger] metas[m]).slot == c
}

/// Notebook `j` of `metas` is moved onto its cell by one of the first `k`
/// steps of a move.
pub open spec fn placed_by(metas: Seq<NoteMeta>, moving: Seq<u128>, dest: u32, cells: u32, k: int, j: int) -> bool {
    exists|q: int| 0 <= q < k && dest + q < cells && #[trigger] find_id(metas, moving[q]) == Some(j)
}

/// After the first `k` steps of a move of distinct notebooks, each notebook
/// not yet moved onto its cell stands in its own cell or in one a mover
/// stood in.
proof fn lemma_placed_displaced(metas: Seq<NoteMeta>, moving: Seq<u128>, dest: u32, cells: u32, k: int)
    requires
        0 <= k <= moving.len(),
        forall|a: int, b: int| 0 <= a < b < moving.len() ==> moving[a] != moving[b],
    ensures
        forall|j: int|
            0 <= j < metas.len() && !placed_by(metas, moving, dest, cells, k, j) ==> {
                let c = (#[trigger] placed(metas, moving, dest, cells, k)[j]).slot;
                c == metas[j].slot || mover_cell(metas, moving, c)
            },
    decreases k,
{
    if k > 0 {
        let q = k - 1;
        lemma_placed_displaced(metas, moving, dest, cells, q);
        let m = placed(metas, moving, dest, cells, q);
        let m2 = placed(metas, moving, dest, cells, k);
        assert(m2 == place_step(m, moving, dest, cells, q));
        lemma_placed_same(metas, moving, dest, cells, q);
        lemma_same_find(metas, m, moving[q]);
        assert forall|j: int|
            0 <= j < metas.len() && !placed_by(metas, moving, dest, cells, k, j) implies {
                let c = (#[trigger] m2[j]).slot;
                c == metas[j].slot || mover_cell(metas, moving, c)
            } by {
            assert(!placed_by(metas, moving, dest, cells, q, j)) by {
                if placed_by(metas, moving, dest, cells, q, j) {
                    let w = choose|w: int| 0 <= w < q && dest + w < cells && #[trigger] find_id(metas, moving[w]) == Some(j);
                    assert(0 <= w < k && dest + w < cells && find_id(metas, moving[w]) == Some(j));
                }
            }
            assert(m[j] == placed(metas, moving, dest, cells, q)[j]);
            if dest + q < cells {
                let target = (dest + q) as u32;
                if let Some(i) = find_id(m, moving[q]) {
                    let wi = choose|wi: int| is_first_id(m, moving[q], wi);
                    assert(i == wi);
                    assert(find_id(metas, moving[q]) == Some(i));
                    assert(j != i);
                    let from = m[i].slot;
                    if let Some(o) = find_other_at(m, target, i) {
                        let wo = choose|wo: int| is_first_other_at(m, target, i, wo);
                        assert(o == wo);
                        if j == o {
                            assert(m2[j].slot == from);
                            let wm = choose|wm: int| is_first_id(metas, moving[q], wm);
                            assert(wm == i);
                            assert(metas[i].id == moving[q]);
                            assert(!placed_by(metas, moving, dest, cells, q, i)) by {
                                if placed_by(metas, moving, dest, cells, q, i) {
                                    let w = choose|w: int|
                                        0 <= w < q && dest + w < cells && #[trigger] find_id(metas, moving[w]) == Some(i);
                                    let ww = choose|ww: int| is_first_id(metas, moving[w], ww);
                                    assert(ww == i);
                                    assert(moving[w] == metas[i].id);
                                }
                            }
                            assert(m[i] == placed(metas, moving, dest, cells, q)[i]);
                            assert(moving.contains(metas[i].id)) by {
                                assert(moving[q] == metas[i].id);
                            }
                            if from == metas[i].slot {
                                assert(mover_cell(metas, moving, from)) by {
                                    assert(moving.contains(metas[i].id) && metas[i].slot == from);
                                }
                            }
                        } else {
                            assert(m2[j] == m[j]);
                        }
                    } else {
                        assert(m2[j] == m[j]);
                    }
                } else {
                    assert(m2 == m);
                }
            } else {
                assert(m2 == m);
            }
        }
    }
}

/// A move changes nothing but cells, and each notebook moved (of distinct
/// ones) lands in its cell.
proof fn lemma_place_laws(metas: Seq<NoteMeta>, moving: Seq<u128>, dest: u32, cells: u32)
    requires
        1 <= cells,
    ensures
        same_but_slots(metas, place_spec(metas, moving, dest, cells)),
        distinct_slots(metas) ==> distinct_slots(place_spec(metas, moving, dest, cells)),
        (forall|a: int, b: int| 0 <= a < b < moving.len() ==> moving[a] != moving[b]) ==> forall|k: int|
            0 <= k < moving.len() && start_cell(dest, cells) + k < cells && find_id(
                metas,
                #[trigger] moving[k],
            ) is Some ==> place_spec(metas, moving, dest, cells)[find_id(
                metas,
                moving[k],
            ).unwrap()].slot == start_cell(dest, cells) + k,
        (forall|a: int, b: int| 0 <= a < b < moving.len() ==> moving[a] != moving[b]) ==> forall|j: int|
            0 <= j < metas.len() && !moving.contains(metas[j].id) ==> {
                let c = (#[trigger] place_spec(metas, moving, dest, cells)[j]).slot;
                c == metas[j].slot || mover_cell(metas, moving, c)
            },
{
    if moving.len() == 0 {
        assert(same_but_slots(metas, metas));
    } else {
        let d = start_cell(dest, cells);
        if forall|a: int, b: int| 0 <= a < b < moving.len() ==> moving[a] != moving[b] {
            lemma_placed_displaced(metas, moving, d, cells, moving.len() as int);
            assert forall|j: int| 0 <= j < metas.len() && !moving.contains(metas[j].id) implies !placed_by(
                metas,
                moving,
                d,
                cells,
                moving.len() as int,
                j,
            ) by {
                if placed_by(metas, moving, d, cells, moving.len() as int, j) {
                    let w = choose|w: int|
                        0 <= w < moving.len() && d + w < cells && #[trigger] find_id(metas, moving[w]) == Some(j);
                    let ww = choose|ww: int| is_first_id(metas, moving[w], ww);
                    assert(ww == j);
                    assert(moving[w] == metas[j].id);
                }
            }
        }
        let d = start_cell(dest, cells);
        lemma_placed_same(metas, moving, d, cells, moving.len() as int);
        if distinct_slots(metas) {
            lemma_placed_distinct(metas, moving, d, cells, moving.len() as int);
        }
        if forall|a: int, b: int| 0 <= a < b < moving.len() ==> moving[a] != moving[b] {
            assert forall|k: int|
                0 <= k < moving.len() && d + k < cells && find_id(metas, #[trigger] moving[k]) is Some
                    implies place_spec(metas, moving, dest, cells)[find_id(metas, moving[k]).unwrap()].slot
                == d + k by {
                lemma_placed_lands(metas, moving, d, cells, k, moving.len() as int);
            }
        }
    }
}

} // verus!

verus! {

/// A notebook other than `id`.
pub open spec fn other_id(id: u128) -> spec_fn(NoteMeta) -> bool {
    |m: NoteMeta| m.id != id
}

/// The notebooks of `metas` other than `id`, in order.
fn without_id(metas: Vec<NoteMeta>, id: u128) -> (r: Vec<NoteMeta>)
    ensures
        r@ == metas@.filter(other_id(id)),
{
    let ghost orig = metas@;
    let n = metas.len();
    let mut rev = reversed(metas);
    let mut out: Vec<NoteMeta> = Vec::new();
    let mut k: usize = 0;
    assert(orig.take(0).filter(other_id(id)) =~= Seq::<NoteMeta>::empty()) by {
        reveal(Seq::filter);
    }
    while k < n
        invariant
            0 <= k <= n,
            n == orig.len(),
            rev@.len() == n - k,
            forall|t: int| 0 <= t < rev@.len() ==> #[trigger] rev@[t] == orig[n - 1 - t],
            out@ == orig.take(k as int).filter(other_id(id)),
        decreases n - k,
    {
        let m = rev.pop().unwrap();
        assert(m == orig[k as int]);
        proof {
            reveal(Seq::filter);
            assert(orig.take(k + 1).drop_last() =~= orig.take(k as int));
            assert(orig.take(k + 1).last() == m);
        }
        if m.id != id {
            out.push(m);
        }
        k = k + 1;
    }
    assert(orig.take(n as int) =~= orig);
    out
}

/// Shelf and bin once notebook `id` goes to the bin: it leaves the shelf
/// (its first entry), any older bin entry of it goes, and it takes the
/// first free bin cell.
pub open spec fn trashed(notes: Seq<NoteMeta>, trash: Seq<NoteMeta>, id: u128) -> (Seq<NoteMeta>, Seq<NoteMeta>) {
    match find_id(notes, id) {
        None => (notes, trash),
        Some(i) => {
            let kept = trash.filter(other_id(id));
            (notes.remove(i), kept.push(NoteMeta { slot: first_free(kept, TRASH_SLOTS), ..notes[i] }))
        },
    }
}

/// Shelf and bin once notebook `id` comes out of the bin: it leaves the
/// bin (its first entry), any shelf entry of it goes, and it keeps its
/// cell when that is a free shelf cell, else takes the first free one.
pub open spec fn restored(notes: Seq<NoteMeta>, trash: Seq<NoteMeta>, id: u128) -> (Seq<NoteMeta>, Seq<NoteMeta>) {
    match find_id(trash, id) {
        None => (notes, trash),
        Some(i) => {
            let kept = notes.filter(other_id(id));
            let m = trash[i];
            let slot = if m.slot >= SHELF_SLOTS || slot_used(kept, m.slot) {
                first_free(kept, SHELF_SLOTS)
            } else {
                m.slot
            };
            (kept.push(NoteMeta { slot, ..m }), trash.remove(i))
        },
    }
}

/// Shelf and bin once each of `ids` goes to the bin in turn.
pub open spec fn trashed_each(notes: Seq<NoteMeta>, trash: Seq<NoteMeta>, ids: Seq<u128>) -> (Seq<NoteMeta>, Seq<NoteMeta>)
    decreases ids.len(),
{
    if ids.len() == 0 {
        (notes, trash)
    } else {
        let prev = trashed_each(notes, trash, ids.drop_last());
        trashed(prev.0, prev.1, ids.last())
    }
}

/// Shelf and bin once each of `ids` comes out of the bin in turn.
pub open spec fn restored_each(notes: Seq<NoteMeta>, trash: Seq<NoteMeta>, ids: Seq<u128>) -> (Seq<NoteMeta>, Seq<NoteMeta>)
    decreases ids.len(),
{
    if ids.len() == 0 {
        (notes, trash)
    } else {
        let prev = restored_each(notes, trash, ids.drop_last());
        restored(prev.0, prev.1, ids.last())
    }
}

impl Library {
    /// Moves notebook `id` into the bin (its files stay). Returns whether
    /// it was on the shelf.
    pub fn trash_note(&mut self, id: u128) -> (r: bool)
        ensures
            r == has_id(old(self).index.notes@, id),
            (final(self).index.notes@, final(self).index.trash@) == trashed(
                old(self).index.notes@,
                old(self).index.trash@,
                id,
            ),
            final(self).root == old(self).root,
            final(self).index.seeded == old(self).index.seeded,
            final(self).index.dock == old(self).index.dock,
            final(self).index.mode == old(self).index.mode,
            final(self).index.fiche_pliee == old(self).index.fiche_pliee,
            final(self).index.shelf_cols == old(self).index.shelf_cols,
    {
        match position_of(&self.index.notes, id) {
            None => {
                proof {
                    if has_id(old(self).index.notes@, id) {
                        lemma_first_exists(old(self).index.notes@, id);
                    }
                }
                false
            },
            Some(i) => {
                let meta = self.index.notes.remove(i);
                let mut taken: Vec<NoteMeta> = Vec::new();
                std::mem::swap(&mut taken, &mut self.index.trash);
                self.index.trash = without_id(taken, id);
                let slot = self.first_free_trash_slot();
                self.index.trash.push(NoteMeta { slot, ..meta });
                true
            },
        }
    }

    /// Takes notebook `id` out of the bin back onto the shelf. Returns
    /// whether it was in the bin.
    pub fn restore_note(&mut self, id: u128) -> (r: bool)
        ensures
            r == has_id(old(self).index.trash@, id),
            (final(self).index.notes@, final(self).index.trash@) == restored(
                old(self).index.notes@,
                old(self).index.trash@,
                id,
            ),
            final(self).root == old(self).root,
            final(self).index.seeded == old(self).index.seeded,
            final(self).index.dock == old(self).index.dock,
            final(self).index.mode == old(self).index.mode,
            final(self).index.fiche_pliee == old(self).index.fiche_pliee,
            final(self).index.shelf_cols == old(self).index.shelf_cols,
    {
        match position_of(&self.index.trash, id) {
            None => {
                proof {
                    if has_id(old(self).index.trash@, id) {
                        lemma_first_exists(old(self).index.trash@, id);
                    }
                }
                false
            },
            Some(i) => {
                let meta = self.index.trash.remove(i);
                let mut taken: Vec<NoteMeta> = Vec::new();
                std::mem::swap(&mut taken, &mut self.index.notes);
                self.index.notes = without_id(taken, id);
                let slot = if meta.slot >= SHELF_SLOTS || slot_taken(&self.index.notes, meta.slot) {
                    self.first_free_slot()
                } else {
                    meta.slot
                };
                self.index.notes.push(NoteMeta { slot, ..meta });
                true
            },
        }
    }

    /// Takes each of `moving` out of the bin, then places them on shelf
    /// cells `dest, dest + 1, …`.
    pub fn restore_at(&mut self, moving: &[u128], dest: u32)
        ensures
            final(self).index.notes@ == place_spec(
                restored_each(old(self).index.notes@, old(self).index.trash@, moving@).0,
                moving@,
                dest,
                SHELF_SLOTS,
            ),
            final(self).index.trash@ == restored_each(old(self).index.notes@, old(self).index.trash@, moving@).1,
            distinct_slots(restored_each(old(self).index.notes@, old(self).index.trash@, moving@).0)
                ==> distinct_slots(final(self).index.notes@),
            final(self).root == old(self).root,
            final(self).index.seeded == old(self).index.seeded,
            final(self).index.dock == old(self).index.dock,
            final(self).index.mode == old(self).index.mode,
            final(self).index.fiche_pliee == old(self).index.fiche_pliee,
            final(self).index.shelf_cols == old(self).index.shelf_cols,
    {
        let mut k: usize = 0;
        while k < moving.len()
            invariant
                0 <= k <= moving@.len(),
                (self.index.notes@, self.index.trash@) == restored_each(
                    old(self).index.notes@,
                    old(self).index.trash@,
                    moving@.take(k as int),
                ),
                self.root == old(self).root,
                self.index.seeded == old(self).index.seeded,
                self.index.dock == old(self).index.dock,
                self.index.mode == old(self).index.mode,
                self.index.fiche_pliee == old(self).index.fiche_pliee,
                self.index.shelf_cols == old(self).index.shelf_cols,
            decreases moving.len() - k,
        {
            self.restore_note(moving[k]);
            assert(moving@.take(k + 1).drop_last() =~= moving@.take(k as int));
            k = k + 1;
        }
        assert(moving@.take(k as int) =~= moving@);
        self.place_at(moving, dest);
    }

    /// Moves each of `moving` into the bin, then places them on bin cells
    /// `dest, dest + 1, …`.
    pub fn trash_at(&mut self, moving: &[u128], dest: u32)
        ensures
            final(self).index.notes@ == trashed_each(old(self).index.notes@, old(self).index.trash@, moving@).0,
            distinct_slots(trashed_each(old(self).index.notes@, old(self).index.trash@, moving@).1)
                ==> distinct_slots(final(self).index.trash@),
            final(self).index.trash@ == place_spec(
                trashed_each(old(self).index.notes@, old(self).index.trash@, moving@).1,
                moving@,
                dest,
                TRASH_SLOTS,
            ),
            final(self).root == old(self).root,
            final(self).index.seeded == old(self).index.seeded,
            final(self).index.dock == old(self).index.dock,
            final(self).index.mode == old(self).index.mode,
            final(self).index.fiche_pliee == old(self).index.fiche_pliee,
            final(self).index.shelf_cols == old(self).index.shelf_cols,
    {
        let mut k: usize = 0;
        while k < moving.len()
            invariant
                0 <= k <= moving@.len(),
                (self.index.notes@, self.index.trash@) == trashed_each(
                    old(self).index.notes@,
                    old(self).index.trash@,
                    moving@.take(k as int),
                ),
                self.root == old(self).root,
                self.index.seeded == old(self).index.seeded,
                self.index.dock == old(self).index.dock,
                self.index.mode == old(self).index.mode,
                self.index.fiche_pliee == old(self).index.fiche_pliee,
                self.index.shelf_cols == old(self).index.shelf_cols,
            decreases moving.len() - k,
        {
            self.trash_note(moving[k]);
            assert(moving@.take(k + 1).drop_last() =~= moving@.take(k as int));
            k = k + 1;
        }
        assert(moving@.take(k as int) =~= moving@);
        self.place_trash_at(moving, dest);
    }

    /// Brings notebook `id` to the front of the list. Returns whether the
    /// list changed.
    pub fn bring_front(&mut self, id: u128) -> (r: bool)
        ensures
            r == (find_id(old(self).index.notes@, id) matches Some(i) && i != 0),
            r ==> final(self).index.notes@ == seq![old(self).index.notes@[find_id(old(self).index.notes@, id).unwrap()]]
                + old(self).index.notes@.remove(find_id(old(self).index.notes@, id).unwrap()),
            !r ==> final(self).index.notes@ == old(self).index.notes@,
            final(self).index.trash@ == old(self).index.trash@,
            final(self).root == old(self).root,
            final(self).index.seeded == old(self).index.seeded,
            final(self).index.dock == old(self).index.dock,
            final(self).index.mode == old(self).index.mode,
            final(self).index.fiche_pliee == old(self).index.fiche_pliee,
            final(self).index.shelf_cols == old(self).index.shelf_cols,
    {
        match position_of(&self.index.notes, id) {
            Some(i) => {
                if i == 0 {
                    return false;
                }
                let m = self.index.notes.remove(i);
                self.index.notes.insert(0, m);
                assert(self.index.notes@ =~= seq![old(self).index.notes@[i as int]]
                    + old(self).index.notes@.remove(i as int));
                true
            },
            None => false,
        }
    }

    /// Drops notebook `id` from the bin (the program deletes its files).
    pub fn purge_trashed(&mut self, id: u128)
        ensures
            final(self).index.trash@ == old(self).index.trash@.filter(other_id(id)),
            final(self).index.notes@ == old(self).index.notes@,
            final(self).root == old(self).root,
            final(self).index.seeded == old(self).index.seeded,
            final(self).index.dock == old(self).index.dock,
            final(self).index.mode == old(self).index.mode,
            final(self).index.fiche_pliee == old(self).index.fiche_pliee,
            final(self).index.shelf_cols == old(self).index.shelf_cols,
    {
        let mut taken: Vec<NoteMeta> = Vec::new();
        std::mem::swap(&mut taken, &mut self.index.trash);
        self.index.trash = without_id(taken, id);
    }

    /// Empties the bin; returns the ids that were in it, in order, whose
    /// files the program deletes.
    pub fn empty_trash(&mut self) -> (ids: Vec<u128>)
        ensures
            ids@ == old(self).index.trash@.map_values(|m: NoteMeta| m.id),
            final(self).index.trash@ == Seq::<NoteMeta>::empty(),
            final(self).index.notes@ == old(self).index.notes@,
            final(self).root == old(self).root,
            final(self).index.seeded == old(self).index.seeded,
            final(self).index.dock == old(self).index.dock,
            final(self).index.mode == old(self).index.mode,
            final(self).index.fiche_pliee == old(self).index.fiche_pliee,
            final(self).index.shelf_cols == old(self).index.shelf_cols,
    {
        let mut ids: Vec<u128> = Vec::new();
        let mut k: usize = 0;
        while k < self.index.trash.len()
            invariant
                0 <= k <= self.index.trash@.len(),
                self.index.trash@ == old(self).index.trash@,
                ids@ == old(self).index.trash@.take(k as int).map_values(|m: NoteMeta| m.id),
            decreases self.index.trash.len() - k,
        {
            ids.push(self.index.trash[k].id);
            k = k + 1;
            assert(ids@ =~= old(self).index.trash@.take(k as int).map_values(|m: NoteMeta| m.id));
        }
        assert(old(self).index.trash@.take(k as int) =~= old(self).index.trash@);
        self.index.trash.clear();
        ids
    }
}

/// A notebook of `metas` with id `id` means a first one.
proof fn lemma_first_exists(metas: Seq<NoteMeta>, id: u128)
    requires
        has_id(metas, id),
    ensures
        find_id(metas, id) is Some,
    decreases metas.len(),
{
    let i = choose|i: int| 0 <= i < metas.len() && (#[trigger] metas[i]).id == id;
    if exists|j: int| 0 <= j < i && (#[trigger] metas[j]).id == id {
        let j = choose|j: int| 0 <= j < i && (#[trigger] metas[j]).id == id;
        let pre = metas.take(i);
        assert(pre[j] == metas[j]);
        lemma_first_exists(pre, id);
        let w = choose|w: int| is_first_id(pre, id, w);
        assert(pre[w] == metas[w]);
        assert forall|k: int| 0 <= k < w implies (#[trigger] metas[k]).id != id by {
            assert(pre[k] == metas[k]);
        }
        assert(is_first_id(metas, id, w));
    } else {
        assert(is_first_id(metas, id, i));
    }
}

} // verus!

verus! {

/// The shelf entry of `note`, standing in cell `slot`.
pub open spec fn meta_of<B>(note: Note<B>, slot: u32) -> NoteMeta {
    NoteMeta {
        id: note.id,
        title: note.title,
        updated: note.updated,
        pinned: note.pinned,
        cover: note.cover,
        emoji: note.emoji,
        slot,
    }
}

/// The shelf once `note` is saved: its entry takes the notebook's title,
/// time, pin, cover and emoji and keeps its cell; a notebook new to the
/// shelf goes first, in the first free cell.
pub open spec fn recorded<B>(notes: Seq<NoteMeta>, note: Note<B>) -> Seq<NoteMeta> {
    match find_id(notes, note.id) {
        Some(i) => notes.update(i, meta_of(note, notes[i].slot)),
        None => seq![meta_of(note, first_free(notes, SHELF_SLOTS))] + notes,
    }
}

impl Library {
    /// Updates the shelf entry of `note` after it is saved, or puts a new
    /// notebook on the shelf.
    pub fn record_note<B>(&mut self, note: &Note<B>)
        ensures
            final(self).index.notes@ == recorded(old(self).index.notes@, *note),
            final(self).index.trash@ == old(self).index.trash@,
            final(self).root == old(self).root,
            final(self).index.seeded == old(self).index.seeded,
            final(self).index.dock == old(self).index.dock,
            final(self).index.mode == old(self).index.mode,
            final(self).index.fiche_pliee == old(self).index.fiche_pliee,
            final(self).index.shelf_cols == old(self).index.shelf_cols,
    {
        match position_of(&self.index.notes, note.id) {
            Some(i) => {
                let slot = self.index.notes[i].slot;
                let m = NoteMeta {
                    id: note.id,
                    title: note.title.clone(),
                    updated: note.updated,
                    pinned: note.pinned,
                    cover: note.cover,
                    emoji: note.emoji.clone(),
                    slot,
                };
                self.index.notes.set(i, m);
            },
            None => {
                let slot = self.first_free_slot();
                let m = NoteMeta {
                    id: note.id,
                    title: note.title.clone(),
                    updated: note.updated,
                    pinned: note.pinned,
                    cover: note.cover,
                    emoji: note.emoji.clone(),
                    slot,
                };
                self.index.notes.insert(0, m);
                assert(self.index.notes@ =~= seq![m] + old(self).index.notes@);
            },
        }
    }
}

/// Leaving out notebook `id` keeps exactly the other ids.
proof fn lemma_filter_has_id(metas: Seq<NoteMeta>, id: u128, x: u128)
    ensures
        has_id(metas.filter(other_id(id)), x) <==> (x != id && has_id(metas, x)),
{
    let f = other_id(id);
    let kept = metas.filter(f);
    if has_id(kept, x) {
        let k = choose|k: int| 0 <= k < kept.len() && (#[trigger] kept[k]).id == x;
        metas.lemma_filter_pred(f, k);
        assert(kept.contains(kept[k]));
        metas.lemma_filter_contains_rev(f, kept[k]);
        let j = choose|j: int| 0 <= j < metas.len() && metas[j] == kept[k];
        assert(metas[j].id == x);
    }
    if x != id && has_id(metas, x) {
        let j = choose|j: int| 0 <= j < metas.len() && (#[trigger] metas[j]).id == x;
        metas.lemma_filter_contains(f, j);
        let k = choose|k: int| 0 <= k < kept.len() && kept[k] == metas[j];
        assert(kept[k].id == x);
    }
}

/// Taking out the notebook at `i`, which has id `id`, keeps every other id.
proof fn lemma_remove_has_id(metas: Seq<NoteMeta>, i: int, id: u128, x: u128)
    requires
        0 <= i < metas.len(),
        metas[i].id == id,
        x != id,
    ensures
        has_id(metas.remove(i), x) <==> has_id(metas, x),
{
    let r = metas.remove(i);
    if has_id(r, x) {
        let k = choose|k: int| 0 <= k < r.len() && (#[trigger] r[k]).id == x;
        if k < i {
            assert(metas[k].id == x);
        } else {
            assert(metas[k + 1].id == x);
        }
    }
    if has_id(metas, x) {
        let j = choose|j: int| 0 <= j < metas.len() && (#[trigger] metas[j]).id == x;
        if j < i {
            assert(r[j].id == x);
        } else {
            assert(j != i);
            assert(r[j - 1].id == x);
        }
    }
}

/// Removing the last notebook frees at most the one cell it stood in.
proof fn lemma_used_step(metas: Seq<NoteMeta>, n: int)
    requires
        0 <= n <= u32::MAX + 1,
        metas.len() > 0,
    ensures
        used_upto(metas, n) <= used_upto(metas.drop_last(), n) + if metas.last().slot < n {
            1int
        } else {
            0
        },
    decreases n,
{
    if n > 0 {
        lemma_used_step(metas, n - 1);
        let d = metas.drop_last();
        let c = (n - 1) as u32;
        if slot_used(metas, c) && !slot_used(d, c) {
            let i = choose|i: int| 0 <= i < metas.len() && (#[trigger] metas[i]).slot == c;
            if i < metas.len() - 1 {
                assert(d[i].slot == c);
            }
            assert(metas.last().slot == c);
        }
        if slot_used(d, c) {
            let i = choose|i: int| 0 <= i < d.len() && (#[trigger] d[i]).slot == c;
            assert(metas[i].slot == c);
        }
    }
}

/// No more cells are taken than there are notebooks.
proof fn lemma_used_le(metas: Seq<NoteMeta>, n: int)
    requires
        0 <= n <= u32::MAX + 1,
    ensures
        used_upto(metas, n) <= metas.len(),
    decreases metas.len(),
{
    if metas.len() == 0 {
        lemma_used_none(metas, n);
    } else {
        lemma_used_le(metas.drop_last(), n);
        lemma_used_step(metas, n);
    }
}

/// Below a free cell `c` there is a first free cell.
proof fn lemma_first_free_exists(metas: Seq<NoteMeta>, cells: u32, c: u32)
    requires
        c < cells,
        !slot_used(metas, c),
    ensures
        first_free(metas, cells) < cells,
        !slot_used(metas, first_free(metas, cells)),
    decreases c,
{
    if forall|d: u32| d < c ==> slot_used(metas, d) {
        assert(c < cells && !slot_used(metas, c) && forall|d: u32| d < c ==> slot_used(metas, d));
    } else {
        let d = choose|d: u32| d < c && !slot_used(metas, d);
        lemma_first_free_exists(metas, cells, d);
    }
}

/// With fewer notebooks than cells, the first free cell is a real one.
proof fn lemma_first_free_room(metas: Seq<NoteMeta>, cells: u32)
    requires
        metas.len() < cells,
    ensures
        first_free(metas, cells) < cells,
        !slot_used(metas, first_free(metas, cells)),
{
    lemma_free_plus_used(metas, cells as int);
    lemma_used_le(metas, cells as int);
    lemma_free_cells(metas, cells as int);
    let f = free_cells(metas, cells as int);
    assert(f.len() > 0);
    lemma_first_free_exists(metas, cells, f[0]);
}

/// A notebook thrown in the bin and taken out again is back on the shelf,
/// out of the bin, with all it had but maybe its cell; shelf and bin hold
/// the same notebooks as before; and, with room on the shelf, its cell is
/// a shelf cell no other notebook stands in.
pub proof fn law_trash_then_restore(notes: Seq<NoteMeta>, trash: Seq<NoteMeta>, id: u128)
    requires
        has_id(notes, id),
        !has_id(trash, id),
    ensures
        ({
            let (n1, t1) = trashed(notes, trash, id);
            let (n2, t2) = restored(n1, t1, id);
            &&& has_id(n2, id)
            &&& !has_id(t2, id)
            &&& n2.last() == (NoteMeta { slot: n2.last().slot, ..notes[find_id(notes, id).unwrap()] })
            &&& forall|x: u128| has_id(n2, x) <==> has_id(notes, x)
            &&& forall|x: u128| has_id(t2, x) <==> has_id(trash, x)
            &&& notes.len() <= SHELF_SLOTS ==> n2.last().slot < SHELF_SLOTS && forall|k: int|
                0 <= k < n2.len() - 1 ==> (#[trigger] n2[k]).slot != n2.last().slot
        }),
{
    lemma_first_exists(notes, id);
    let i = find_id(notes, id).unwrap();
    let w = choose|w: int| is_first_id(notes, id, w);
    assert(i == w);
    let f = other_id(id);
    let kept = trash.filter(f);
    let (n1, t1) = trashed(notes, trash, id);
    assert(t1 == kept.push(NoteMeta { slot: first_free(kept, TRASH_SLOTS), ..notes[i] }));
    assert forall|k: int| 0 <= k < kept.len() implies (#[trigger] kept[k]).id != id by {
        trash.lemma_filter_pred(f, k);
    }
    let last = kept.len() as int;
    assert(t1[last].id == id);
    assert forall|k: int| 0 <= k < last implies (#[trigger] t1[k]).id != id by {
        assert(t1[k] == kept[k]);
    }
    assert(is_first_id(t1, id, last));
    let w2 = choose|w2: int| is_first_id(t1, id, w2);
    assert(w2 == last);
    let (n2, t2) = restored(n1, t1, id);
    assert(t2 =~= kept);
    assert(n2.last().id == id);
    assert(n2[n2.len() - 1].id == id);
    let shelf = n1.filter(f);
    assert(n2 == shelf.push(n2.last()));
    assert forall|x: u128| has_id(n2, x) <==> has_id(notes, x) by {
        lemma_filter_has_id(n1, id, x);
        if x != id {
            lemma_remove_has_id(notes, i, id, x);
            if has_id(shelf, x) {
                let k = choose|k: int| 0 <= k < shelf.len() && (#[trigger] shelf[k]).id == x;
                assert(n2[k].id == x);
            }
            if has_id(n2, x) {
                let k = choose|k: int| 0 <= k < n2.len() && (#[trigger] n2[k]).id == x;
                assert(k < shelf.len());
                assert(shelf[k].id == x);
            }
        }
    }
    assert forall|x: u128| has_id(t2, x) <==> has_id(trash, x) by {
        lemma_filter_has_id(trash, id, x);
    }
    if notes.len() <= SHELF_SLOTS {
        trash.lemma_filter_len(f);
        n1.lemma_filter_len(f);
        assert(shelf.len() < SHELF_SLOTS);
        lemma_first_free_room(shelf, SHELF_SLOTS);
        assert forall|k: int| 0 <= k < n2.len() - 1 implies (#[trigger] n2[k]).slot != n2.last().slot by {
            assert(n2[k] == shelf[k]);
        }
    }
}

/// The longest side a picture keeps once it is stored in a notebook.
pub const MAX_PICTURE_SIDE: u32 = 2048;

/// The size a `w × h` picture is stored at: unchanged where both sides fit
/// in `MAX_PICTURE_SIDE`; else scaled so that the longer side is exactly
/// `MAX_PICTURE_SIDE`, the other side rounded down.
pub open spec fn stored_size(w: u32, h: u32) -> (int, int) {
    if w > MAX_PICTURE_SIDE || h > MAX_PICTURE_SIDE {
        let m: int = if w >= h {
            w as int
        } else {
            h as int
        };
        (w * MAX_PICTURE_SIDE / m, h * MAX_PICTURE_SIDE / m)
    } else {
        (w as int, h as int)
    }
}

/// The PNG a picture file `bytes` is stored as: decoded, brought to its
/// stored size with the triangle filter where it is too large, and encoded
/// again as PNG.
pub open spec fn stored_png(bytes: Seq<u8>) -> Option<Seq<u8>> {
    match decoded_rgba(bytes) {
        None => None,
        Some(d) => {
            let (w, h, px) = d;
            let s = stored_size(w, h);
            if w > MAX_PICTURE_SIDE || h > MAX_PICTURE_SIDE {
                png_encoded(s.0 as u32, s.1 as u32, resized_rgba(px, w, h, s.0 as u32, s.1 as u32))
            } else {
                png_encoded(w, h, px)
            }
        },
    }
}

/// A stored picture is at most `MAX_PICTURE_SIDE` pixels on a side: one
/// that fits keeps its size, and a larger one gets exactly
/// `MAX_PICTURE_SIDE` on its longer side.
pub proof fn law_stored_size_fits(w: u32, h: u32)
    ensures
        0 <= stored_size(w, h).0 <= MAX_PICTURE_SIDE,
        0 <= stored_size(w, h).1 <= MAX_PICTURE_SIDE,
        w <= MAX_PICTURE_SIDE && h <= MAX_PICTURE_SIDE ==> stored_size(w, h) == (w as int, h as int),
        (w > MAX_PICTURE_SIDE || h > MAX_PICTURE_SIDE) && w >= h ==> stored_size(w, h).0 == MAX_PICTURE_SIDE,
        (w > MAX_PICTURE_SIDE || h > MAX_PICTURE_SIDE) && h >= w ==> stored_size(w, h).1 == MAX_PICTURE_SIDE,
{
    if w > MAX_PICTURE_SIDE || h > MAX_PICTURE_SIDE {
        let m: int = if w >= h {
            w as int
        } else {
            h as int
        };
        assert(w * 2048 / m <= 2048 && h * 2048 / m <= 2048 && 0 <= w * 2048 / m && 0 <= h * 2048 / m)
            by (nonlinear_arith)
            requires
                w <= m,
                h <= m,
                1 <= m,
        ;
        assert(m * 2048 / m == 2048) by (nonlinear_arith)
            requires
                1 <= m,
        ;
    }
}

/// Turns any picture file the `image` crate reads into the PNG the
/// notebook stores, at most `MAX_PICTURE_SIDE` pixels on a side; `None`
/// where the bytes do not decode or the result does not encode.
pub fn ensure_png(bytes: &[u8]) -> (r: Option<Vec<u8>>)
    ensures
        stored_png(bytes@) == match r {
            Some(v) => Some(v@),
            None => None::<Seq<u8>>,
        },
{
    let (w, h, px) = match decode_rgba(bytes) {
        Some(d) => d,
        None => return None,
    };
    if w > MAX_PICTURE_SIDE || h > MAX_PICTURE_SIDE {
        let m: u64 = if w >= h {
            w as u64
        } else {
            h as u64
        };
        let nw: u64 = w as u64 * MAX_PICTURE_SIDE as u64 / m;
        let nh: u64 = h as u64 * MAX_PICTURE_SIDE as u64 / m;
        assert(nw <= MAX_PICTURE_SIDE && nh <= MAX_PICTURE_SIDE) by (nonlinear_arith)
            requires
                w <= m,
                h <= m,
                1 <= m,
                nw == (w * 2048) as int / m as int,
                nh == (h * 2048) as int / m as int,
        ;
        let small = resize_triangle(px, w, h, nw as u32, nh as u32);
        encode_png(nw as u32, nh as u32, small)
    } else {
        encode_png(w, h, px)
    }
}

/// A notebook thrown in the bin goes at the end of the bin list, with all
/// it had but its cell; the other binned notebooks are those that were
/// there (but any older entry of it); and, when the bin row has a cell
/// none of them takes, its cell is the first such cell.
pub proof fn law_trash_takes_first_free_bin_cell(notes: Seq<NoteMeta>, trash: Seq<NoteMeta>, id: u128)
    requires
        has_id(notes, id),
    ensures
        ({
            let t1 = trashed(notes, trash, id).1;
            let others = t1.drop_last();
            let m = t1.last();
            &&& t1.len() >= 1
            &&& m.id == id
            &&& exists|i: int| 0 <= i < notes.len() && notes[i].id == id && m == (NoteMeta { slot: m.slot, ..notes[i] })
            &&& forall|x: u128| has_id(others, x) <==> (x != id && has_id(trash, x))
            &&& (exists|c: u32| c < TRASH_SLOTS && !slot_used(others, c)) ==> {
                &&& m.slot < TRASH_SLOTS
                &&& !slot_used(others, m.slot)
                &&& forall|d: u32| d < m.slot ==> slot_used(others, d)
            }
        }),
{
    lemma_first_exists(notes, id);
    let i = find_id(notes, id).unwrap();
    let w = choose|w: int| is_first_id(notes, id, w);
    assert(i == w);
    let kept = trash.filter(other_id(id));
    let t1 = trashed(notes, trash, id).1;
    assert(t1 == kept.push(NoteMeta { slot: first_free(kept, TRASH_SLOTS), ..notes[i] }));
    assert(t1.drop_last() =~= kept);
    assert forall|x: u128| has_id(t1.drop_last(), x) <==> (x != id && has_id(trash, x)) by {
        lemma_filter_has_id(trash, id, x);
    }
    if exists|c: u32| c < TRASH_SLOTS && !slot_used(kept, c) {
        let c = choose|c: u32| c < TRASH_SLOTS && !slot_used(kept, c);
        lemma_first_free_exists(kept, TRASH_SLOTS, c);
    }
}

/// Recording a saved notebook that is on the shelf gives its (first)
/// entry the notebook's id, title, time, pin, cover and emoji, keeps that
/// entry's cell, and leaves every other entry as it was.
pub proof fn law_record_updates_entry<B>(notes: Seq<NoteMeta>, note: Note<B>, i: int)
    requires
        0 <= i < notes.len(),
        notes[i].id == note.id,
        forall|j: int| 0 <= j < i ==> (#[trigger] notes[j]).id != note.id,
    ensures
        ({
            let r = recorded(notes, note);
            &&& r.len() == notes.len()
            &&& r[i].id == note.id
            &&& r[i].title == note.title
            &&& r[i].updated == note.updated
            &&& r[i].pinned == note.pinned
            &&& r[i].cover == note.cover
            &&& r[i].emoji == note.emoji
            &&& r[i].slot == notes[i].slot
            &&& forall|k: int| 0 <= k < notes.len() && k != i ==> #[trigger] r[k] == notes[k]
        }),
{
    assert(is_first_id(notes, note.id, i));
    let w = choose|w: int| is_first_id(notes, note.id, w);
    if w < i {
        assert(notes[w].id != note.id);
    } else if w > i {
        assert(notes[i].id != note.id);
    }
}

/// Recording a notebook new to the shelf puts its entry first, with the
/// notebook's id, title, time, pin, cover and emoji, keeps the other
/// entries after it, and, with room on the shelf, gives it the first shelf
/// cell no other notebook takes.
pub proof fn law_record_shelves_new<B>(notes: Seq<NoteMeta>, note: Note<B>)
    requires
        !has_id(notes, note.id),
    ensures
        ({
            let r = recorded(notes, note);
            &&& r.len() == notes.len() + 1
            &&& r[0].id == note.id
            &&& r[0].title == note.title
            &&& r[0].updated == note.updated
            &&& r[0].pinned == note.pinned
            &&& r[0].cover == note.cover
            &&& r[0].emoji == note.emoji
            &&& r.drop_first() == notes
            &&& notes.len() < SHELF_SLOTS ==> {
                &&& r[0].slot < SHELF_SLOTS
                &&& !slot_used(notes, r[0].slot)
                &&& forall|d: u32| d < r[0].slot ==> slot_used(notes, d)
            }
        }),
{
    if find_id(notes, note.id) is Some {
        let w = choose|w: int| is_first_id(notes, note.id, w);
        assert(notes[w].id == note.id);
    }
    let r = recorded(notes, note);
    assert(r.drop_first() =~= notes);
    if notes.len() < SHELF_SLOTS {
        lemma_first_free_room(notes, SHELF_SLOTS);
    }
}

/// A notebook taken out of the bin goes at the end of the shelf list with
/// all it had but maybe its cell; the other shelf notebooks are those that
/// were there (but any older entry of it); it keeps its cell when that is a
/// shelf cell none of them takes, and else, when the shelf has a cell none
/// of them takes, it gets the first such cell.
pub proof fn law_restore_cell(notes: Seq<NoteMeta>, trash: Seq<NoteMeta>, id: u128)
    requires
        has_id(trash, id),
    ensures
        ({
            let n2 = restored(notes, trash, id).0;
            let others = n2.drop_last();
            let m = n2.last();
            &&& n2.len() >= 1
            &&& m.id == id
            &&& exists|i: int| 0 <= i < trash.len() && trash[i].id == id && m == (NoteMeta { slot: m.slot, ..trash[i] }) && (
                if trash[i].slot < SHELF_SLOTS && !slot_used(others, trash[i].slot) {
                    m.slot == trash[i].slot
                } else {
                    (exists|c: u32| c < SHELF_SLOTS && !slot_used(others, c)) ==> {
                        &&& m.slot < SHELF_SLOTS
                        &&& !slot_used(others, m.slot)
                        &&& forall|d: u32| d < m.slot ==> slot_used(others, d)
                    }
                })
            &&& forall|x: u128| has_id(others, x) <==> (x != id && has_id(notes, x))
        }),
{
    lemma_first_exists(trash, id);
    let i = find_id(trash, id).unwrap();
    let w = choose|w: int| is_first_id(trash, id, w);
    assert(i == w);
    let kept = notes.filter(other_id(id));
    let n2 = restored(notes, trash, id).0;
    assert(n2.drop_last() =~= kept);
    assert forall|x: u128| has_id(n2.drop_last(), x) <==> (x != id && has_id(notes, x)) by {
        lemma_filter_has_id(notes, id, x);
    }
    if !(trash[i].slot < SHELF_SLOTS && !slot_used(kept, trash[i].slot)) {
        if exists|c: u32| c < SHELF_SLOTS && !slot_used(kept, c) {
            let c = choose|c: u32| c < SHELF_SLOTS && !slot_used(kept, c);
            lemma_first_free_exists(kept, SHELF_SLOTS, c);
        }
    }
}

} // verus!
