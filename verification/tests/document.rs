use cahier::document::{clamp_cell, copy_title, Note, Page, PaperKind, SheetJoin};

/// A landscape A4 sheet, in paper points.
const PAGE_W: f32 = 1123.0;
const PAGE_H: f32 = 794.0;

/// A page body in these tests: single-point marks.
type Marks = Vec<(f32, f32)>;

fn blank() -> Note<Marks> {
    Note::blank("t".to_string(), 0, Vec::new())
}

fn cells(n: &Note<Marks>) -> Vec<(i32, i32)> {
    n.pages.iter().map(|p| (p.col, p.row)).collect()
}

fn grow(n: &mut Note<Marks>, cols: i32, rows: i32) {
    n.span_cols = cols;
    n.span_rows = rows;
    n.unit_size = cols == 1 && rows == 1;
}

/// The marks of a grown sheet, each moved onto the unit page under it, in
/// the order of `tile_cells`.
fn split(n: &Note<Marks>) -> Vec<Marks> {
    let cols = n.span_cols;
    let rows = n.span_rows;
    let tiles = n.tile_cells();
    let mut out: Vec<Marks> = vec![Vec::new(); tiles.len()];
    let p = &n.pages[0];
    for &(x, y) in &p.body {
        let (c, r) = clamp_cell(
            (x / PAGE_W).floor() as i32,
            (y / PAGE_H).floor() as i32,
            cols,
            rows,
        );
        let at = tiles.iter().position(|&t| t == (p.col + c, p.row + r)).unwrap();
        out[at].push((x - c as f32 * PAGE_W, y - r as f32 * PAGE_H));
    }
    out
}

#[test]
fn normalize_spreads_legacy_stack() {
    let mut n = blank();
    n.pages.push(Page::at(0, 0, Vec::new()));
    n.pages.push(Page::at(0, 0, Vec::new()));
    n.normalize_page_grid();
    assert_eq!(cells(&n), vec![(0, 0), (0, 1), (0, 2)]);
}

#[test]
fn normalize_keeps_placed_grid() {
    let mut n = blank();
    n.pages = vec![Page::at(0, 0, Vec::new()), Page::at(1, 0, Vec::new()), Page::at(0, 1, Vec::new())];
    n.normalize_page_grid();
    assert_eq!(cells(&n), vec![(0, 0), (1, 0), (0, 1)]);
}

#[test]
fn sheet_join_default_is_linked() {
    let n = blank();
    assert_eq!(n.sheet_join, SheetJoin::Linked);
    assert_eq!(SheetJoin::default(), SheetJoin::Linked);
    let empty: Note<Marks> = Note { pages: Vec::new(), ..blank() };
    assert_eq!(empty.sheet_join, SheetJoin::Linked);
    assert!(empty.pages.is_empty());
}

#[test]
fn separate_splits_grown_sheet_into_unit_pages() {
    let mut n = blank();
    grow(&mut n, 2, 1);
    n.pages[0].body.push((10.0, 12.0));
    n.pages[0].body.push((PAGE_W + 40.0, 8.0));
    let bodies = split(&n);
    n.apply_sheet_join(SheetJoin::Separate, Vec::new(), bodies);
    assert_eq!(n.sheet_join, SheetJoin::Separate);
    assert!(n.unit_size);
    assert_eq!((n.span_cols, n.span_rows), (1, 1));
    assert_eq!(n.pages.len(), 2);
    assert_eq!(cells(&n), vec![(0, 0), (1, 0)]);
    assert_eq!(n.pages[0].body[0].0, 10.0);
    assert!((n.pages[1].body[0].0 - 40.0).abs() < 0.01);
}

#[test]
fn linked_keeps_holes() {
    let mut n = blank();
    n.sheet_join = SheetJoin::Separate;
    n.pages = vec![Page::at(0, 0, Vec::new()), Page::at(1, 0, Vec::new()), Page::at(0, 1, Vec::new())];
    n.pages[1].body.push((40.0, 8.0));
    n.apply_sheet_join(SheetJoin::Linked, Vec::new(), Vec::new());
    assert_eq!(n.sheet_join, SheetJoin::Linked);
    assert!(n.unit_size);
    let mut c = cells(&n);
    c.sort();
    assert_eq!(c, vec![(0, 0), (0, 1), (1, 0)]);
    let right = n.pages.iter().find(|p| p.col == 1 && p.row == 0).unwrap();
    assert_eq!(right.body[0].0, 40.0);
}

#[test]
fn unit_cells_pave_grown_sheet() {
    let mut n = blank();
    grow(&mut n, 2, 2);
    let mut c = n.unit_cells();
    c.sort();
    assert_eq!(c, vec![(0, 0), (0, 1), (1, 0), (1, 1)]);
    assert_eq!(n.free_unit_edges().len(), 8);
    assert!(n.unit_tabs().iter().all(|t| !t.center));
    assert_eq!(n.unit_tabs().len(), 8);
}

#[test]
fn diagonal_pages_share_center_tabs() {
    let mut n = blank();
    n.sheet_join = SheetJoin::Separate;
    n.pages = vec![Page::at(0, 0, Vec::new()), Page::at(1, 1, Vec::new())];
    let tabs = n.unit_tabs();
    let mut dests: Vec<_> = tabs.iter().map(|t| (t.dest_col, t.dest_row)).collect();
    dests.sort();
    dests.dedup();
    assert_eq!(dests.len(), tabs.len());
    let mut centers: Vec<_> = tabs.iter().filter(|t| t.center).map(|t| (t.dest_col, t.dest_row)).collect();
    centers.sort();
    assert_eq!(centers, vec![(0, 1), (1, 0)]);
    assert_eq!(tabs.len(), 6);
}

#[test]
fn linked_add_right_on_strip_keeps_units() {
    let mut n = blank();
    grow(&mut n, 2, 1);
    n.pages[0].body.push((10.0, 12.0));
    let bodies = split(&n);
    assert!(n.add_unit_neighbor(1, 0, 1, 0, Vec::new(), bodies));
    assert_eq!(n.sheet_join, SheetJoin::Linked);
    assert!(n.unit_size);
    assert_eq!((n.span_cols, n.span_rows), (1, 1));
    let mut c = cells(&n);
    c.sort();
    assert_eq!(c, vec![(0, 0), (1, 0), (2, 0)]);
    let home = n.pages.iter().find(|p| p.col == 0 && p.row == 0).unwrap();
    assert_eq!(home.body[0].0, 10.0);
}

#[test]
fn linked_add_on_block_keeps_one_cell() {
    let mut n = blank();
    grow(&mut n, 2, 2);
    n.pages[0].body.push((10.0, 12.0));
    let bodies = split(&n);
    assert!(n.add_unit_neighbor(1, 0, 1, 0, Vec::new(), bodies));
    assert_eq!(n.sheet_join, SheetJoin::Linked);
    assert!(n.unit_size);
    assert_eq!((n.span_cols, n.span_rows), (1, 1));
    let mut c = cells(&n);
    c.sort();
    assert_eq!(c, vec![(0, 0), (0, 1), (1, 0), (1, 1), (2, 0)]);
    let home = n.pages.iter().find(|p| p.col == 0 && p.row == 0).unwrap();
    assert_eq!(home.body[0].0, 10.0);
}

#[test]
fn join_roundtrip_keeps_marks() {
    let mut n = blank();
    grow(&mut n, 2, 2);
    n.pages[0].body.push((PAGE_W + 5.0, PAGE_H + 6.0));
    let bodies = split(&n);
    n.apply_sheet_join(SheetJoin::Separate, Vec::new(), bodies);
    n.apply_sheet_join(SheetJoin::Linked, Vec::new(), Vec::new());
    assert_eq!(n.sheet_join, SheetJoin::Linked);
    assert_eq!(n.pages.len(), 4);
    assert!(n.unit_size);
    assert_eq!((n.span_cols, n.span_rows), (1, 1));
    let p = n.pages.iter().find(|p| p.col == 1 && p.row == 1).unwrap();
    let pt = p.body[0];
    assert!((pt.0 - 5.0).abs() < 0.05);
    assert!((pt.1 - 6.0).abs() < 0.05);
}

#[test]
fn tear_unit_keeps_the_rest() {
    let mut n = blank();
    n.sheet_join = SheetJoin::Separate;
    n.pages = vec![Page::at(0, 0, Vec::new()), Page::at(1, 0, Vec::new()), Page::at(0, 1, Vec::new())];
    n.pages[1].body.push((4.0, 5.0));
    assert!(n.remove_unit(0, 0, Vec::new(), Vec::new()));
    let mut c = cells(&n);
    c.sort();
    assert_eq!(c, vec![(0, 1), (1, 0)]);
    let right = n.pages.iter().find(|p| p.col == 1).unwrap();
    assert_eq!(right.body[0].0, 4.0);
}

#[test]
fn tear_last_unit_is_refused() {
    let mut n = blank();
    assert!(!n.can_tear_unit());
    assert!(!n.remove_unit(0, 0, Vec::new(), Vec::new()));
    assert_eq!(n.pages.len(), 1);
}

#[test]
fn tear_from_grown_sheet_explodes() {
    let mut n = blank();
    grow(&mut n, 2, 1);
    n.pages[0].body.push((10.0, 12.0));
    n.pages[0].body.push((PAGE_W + 40.0, 8.0));
    let bodies = split(&n);
    assert!(n.remove_unit(1, 0, Vec::new(), bodies));
    assert_eq!(n.pages.len(), 1);
    assert_eq!(n.pages[0].col, 0);
    assert_eq!(n.pages[0].body[0].0, 10.0);
}

#[test]
fn paper_cycles_through_all_six_kinds() {
    let mut k = PaperKind::Blank;
    let mut seen = vec![k];
    for _ in 0..5 {
        k = k.cycle();
        seen.push(k);
    }
    assert_eq!(k.cycle(), PaperKind::Blank);
    assert_eq!(seen.len(), 6);
    assert_eq!(PaperKind::Millimetre.label(), "Millimeter");
    assert_eq!(PaperKind::default(), PaperKind::Millimetre);
}

#[test]
fn clamp_cell_keeps_inside_the_block() {
    assert_eq!(clamp_cell(-3, 7, 2, 3), (0, 2));
    assert_eq!(clamp_cell(1, 1, 0, 0), (0, 0));
    assert_eq!(clamp_cell(5, -1, 4, 4), (3, 0));
}

#[test]
fn blank_note_is_one_unit_page_with_random_id() {
    let n = blank();
    assert_eq!(n.pages.len(), 1);
    assert_eq!((n.pages[0].col, n.pages[0].row), (0, 0));
    assert_eq!(n.paper, PaperKind::Millimetre);
    assert_eq!(n.created, n.updated);
    assert!(n.created.nanos < 1_000_000_000);
    assert_eq!((n.id >> 76) & 0xF, 4);
    assert_eq!((n.id >> 62) & 0x3, 2);
    let other = blank();
    assert_ne!(n.id, other.id);
}

#[test]
fn copy_gets_its_own_id_and_title() {
    assert_eq!(copy_title("Mindset"), "Mindset copy");
    assert_eq!(copy_title("  \t"), "Untitled copy");
    let mut n = blank();
    n.pinned = true;
    let id = n.id;
    n.become_copy();
    assert_ne!(n.id, id);
    assert_eq!(n.title, "t copy");
    assert!(!n.pinned);
}

#[test]
fn add_refused_on_an_occupied_cell() {
    let mut n = blank();
    assert!(!n.add_unit_at(0, 0, Vec::new(), Vec::new()));
    assert!(n.add_unit_at(0, 1, Vec::new(), Vec::new()));
    assert_eq!(cells(&n), vec![(0, 0), (0, 1)]);
    assert!(n.can_tear_unit());
}

#[test]
fn tear_keeps_a_page_when_all_are_stacked_on_the_cell() {
    let mut n = blank();
    n.pages = vec![Page::at(0, 0, vec![(1.0, 1.0)]), Page::at(0, 0, vec![(2.0, 2.0)])];
    assert!(n.remove_unit(0, 0, vec![(9.0, 9.0)], Vec::new()));
    assert_eq!(cells(&n), vec![(0, 0)]);
    assert_eq!(n.pages[0].body, vec![(9.0, 9.0)]);
}

#[test]
fn soundness_check_rejects_what_the_model_cannot_hold() {
    let mut n = blank();
    assert!(n.is_sound());
    grow(&mut n, 3, 2);
    assert!(n.is_sound());
    n.pages[0].col = i32::MAX - 2;
    assert!(!n.is_sound());
    n.pages[0].col = 0;
    n.span_rows = 0;
    assert!(!n.is_sound());
    n.span_rows = 2;
    n.unit_size = true;
    assert!(!n.is_sound());
    let mut m = blank();
    m.pages[0].row = i32::MIN;
    assert!(!m.is_sound());
}
