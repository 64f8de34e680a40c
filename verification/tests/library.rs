use cahier::document::{Moment, Note};
use cahier::library::{
    default_old_shelf_cols, default_true, remap_slot, DockEdge, Index, Library, NoteMeta, NoteMode, SeedStep,
    SHELF_COLS, SHELF_SLOTS, TRASH_SLOTS,
};
use cahier::shelf::{title_matches, Selection, ShelfDrop};

fn meta(id: u128, slot: u32) -> NoteMeta {
    NoteMeta {
        id,
        title: format!("n{id}"),
        updated: Moment { secs: 0, nanos: 0 },
        pinned: false,
        cover: 0,
        emoji: String::new(),
        slot,
    }
}

fn lib(notes: Vec<NoteMeta>, trash: Vec<NoteMeta>) -> Library {
    let mut index = Index::default();
    index.notes = notes;
    index.trash = trash;
    Library { root: "/tmp/cahier-test".to_string(), index }
}

fn slots(v: &[NoteMeta]) -> Vec<(u128, u32)> {
    v.iter().map(|m| (m.id, m.slot)).collect()
}

#[test]
fn remap_5_to_10_keeps_rows() {
    let old = 5u32;
    let remap = |slot: u32| remap_slot(slot, old);
    assert_eq!(remap(0), 0);
    assert_eq!(remap(4), 4);
    assert_eq!(remap(5), 10);
    assert_eq!(remap(9), 14);
    assert_eq!(remap(10), 20);
    assert_eq!(remap(14), 24);
}

#[test]
fn index_defaults() {
    let i = Index::default();
    assert!(!i.seeded);
    assert!(i.fiche_pliee);
    assert_eq!(i.shelf_cols, SHELF_COLS);
    assert_eq!(i.dock, DockEdge::Bottom);
    assert_eq!(i.mode, NoteMode::Pupitre);
    assert!(default_true());
    assert_eq!(default_old_shelf_cols(), 5);
    assert_eq!(SHELF_SLOTS, 30);
    assert_eq!(TRASH_SLOTS, 10);
    assert!(DockEdge::Left.vertical());
    assert!(!DockEdge::Top.vertical());
}

#[test]
fn ensure_slots_moves_old_shelf_and_settles_clashes() {
    let mut l = lib(vec![meta(1, 7), meta(2, 7), meta(3, 2)], vec![]);
    l.index.shelf_cols = 5;
    assert!(l.ensure_slots());
    assert_eq!(l.index.shelf_cols, SHELF_COLS);
    // 7 on a 5-wide shelf is row 1, column 2: cell 12 now; the clash renumbers.
    assert_eq!(slots(&l.index.notes), vec![(1, 0), (2, 1), (3, 2)]);
    assert!(!l.ensure_slots());
}

#[test]
fn ensure_slots_puts_stray_notebooks_in_free_cells() {
    let mut l = lib(vec![meta(1, 40), meta(2, 0), meta(3, 99), meta(4, 1)], vec![]);
    assert!(l.ensure_slots());
    assert_eq!(slots(&l.index.notes), vec![(1, 2), (2, 0), (3, 3), (4, 1)]);
}

#[test]
fn ensure_slots_spreads_all_zero_index() {
    let mut l = lib(vec![meta(1, 0), meta(2, 0), meta(3, 0)], vec![]);
    assert!(l.ensure_slots());
    assert_eq!(slots(&l.index.notes), vec![(1, 0), (2, 1), (3, 2)]);
}

#[test]
fn ensure_trash_slots_renumbers_clashes_only() {
    let mut l = lib(vec![], vec![meta(1, 3), meta(2, 3), meta(3, 12)]);
    assert!(l.ensure_trash_slots());
    assert_eq!(slots(&l.index.trash), vec![(1, 0), (2, 1), (3, 2)]);
    let mut ok = lib(vec![], vec![meta(1, 4), meta(2, 9)]);
    assert!(!ok.ensure_trash_slots());
}

#[test]
fn first_free_slot_skips_taken_cells() {
    let l = lib(vec![meta(1, 0), meta(2, 1), meta(3, 3)], vec![meta(9, 0)]);
    assert_eq!(l.first_free_slot(), 2);
    assert_eq!(l.first_free_trash_slot(), 1);
    let full = lib((0..30).map(|i| meta(i as u128 + 1, i)).collect(), vec![]);
    assert_eq!(full.first_free_slot(), SHELF_SLOTS);
}

#[test]
fn place_at_swaps_with_the_occupant() {
    let mut l = lib(vec![meta(1, 0), meta(2, 5), meta(3, 6)], vec![]);
    l.place_at(&[1], 5);
    assert_eq!(slots(&l.index.notes), vec![(1, 5), (2, 0), (3, 6)]);
}

#[test]
fn place_at_lays_a_pile_on_consecutive_cells() {
    let mut l = lib(vec![meta(1, 0), meta(2, 1), meta(3, 10)], vec![]);
    l.place_at(&[1, 2], 28);
    assert_eq!(slots(&l.index.notes), vec![(1, 28), (2, 29), (3, 10)]);
    // The occupant of cell 29 swaps to the mover's old cell; past the
    // last cell nothing moves.
    l.place_at(&[3, 1], 29);
    assert_eq!(slots(&l.index.notes), vec![(1, 28), (2, 10), (3, 29)]);
}

#[test]
fn place_at_never_doubles_a_cell() {
    // A in 5, B in 6, C in 7: moving A and B onto 6 and 7 sends C to the
    // cell the movers left.
    let mut l = lib(vec![meta(1, 5), meta(2, 6), meta(3, 7)], vec![]);
    l.place_at(&[1, 2], 6);
    assert_eq!(slots(&l.index.notes), vec![(1, 6), (2, 7), (3, 5)]);
    let mut t = lib(vec![], vec![meta(1, 2), meta(2, 3), meta(3, 4)]);
    t.place_trash_at(&[1, 2], 3);
    assert_eq!(slots(&t.index.trash), vec![(1, 3), (2, 4), (3, 2)]);
}

#[test]
fn ensure_slots_reports_exactly_a_change() {
    let mut l = lib(vec![meta(1, 0), meta(2, 3)], vec![]);
    l.index.shelf_cols = SHELF_COLS;
    assert!(!l.ensure_slots());
    let mut m = lib(vec![meta(1, 4), meta(2, 4), meta(3, 500)], vec![]);
    m.index.shelf_cols = SHELF_COLS;
    assert!(m.ensure_slots());
    assert_eq!(slots(&m.index.notes), vec![(1, 0), (2, 1), (3, 2)]);
    let mut t = lib(vec![], vec![meta(1, 0), meta(2, 99)]);
    assert!(t.ensure_trash_slots());
    assert_eq!(slots(&t.index.trash), vec![(1, 0), (2, 1)]);
    assert!(!t.ensure_trash_slots());
}

#[test]
fn trash_then_restore_brings_the_notebook_back() {
    let mut l = lib(vec![meta(1, 0), meta(2, 1)], vec![meta(7, 0)]);
    assert!(l.trash_note(2));
    assert!(l.is_trashed(2));
    assert_eq!(slots(&l.index.notes), vec![(1, 0)]);
    assert_eq!(slots(&l.index.trash), vec![(7, 0), (2, 1)]);
    assert!(!l.trash_note(2));
    assert!(l.restore_note(2));
    assert!(!l.is_trashed(2));
    assert_eq!(slots(&l.index.notes), vec![(1, 0), (2, 1)]);
    assert!(!l.restore_note(2));
}

#[test]
fn restore_into_a_taken_cell_takes_the_first_free_one() {
    let mut l = lib(vec![meta(1, 0), meta(2, 1)], vec![meta(3, 1)]);
    assert!(l.restore_note(3));
    assert_eq!(slots(&l.index.notes), vec![(1, 0), (2, 1), (3, 2)]);
}

#[test]
fn bring_front_moves_to_the_head() {
    let mut l = lib(vec![meta(1, 0), meta(2, 1), meta(3, 2)], vec![]);
    assert!(l.bring_front(3));
    assert_eq!(slots(&l.index.notes), vec![(3, 2), (1, 0), (2, 1)]);
    assert!(!l.bring_front(3));
    assert!(!l.bring_front(9));
}

#[test]
fn purge_and_empty_trash() {
    let mut l = lib(vec![], vec![meta(1, 0), meta(2, 1), meta(3, 2)]);
    l.purge_trashed(2);
    assert_eq!(slots(&l.index.trash), vec![(1, 0), (3, 2)]);
    assert_eq!(l.empty_trash(), vec![1, 3]);
    assert!(l.index.trash.is_empty());
}

#[test]
fn record_note_updates_or_shelves() {
    let mut l = lib(vec![meta(1, 0)], vec![]);
    let mut n: Note<Vec<u8>> = Note::blank("Mindset".to_string(), 4, Vec::new());
    l.record_note(&n);
    assert_eq!(l.index.notes.len(), 2);
    assert_eq!(l.index.notes[0].id, n.id);
    assert_eq!(l.index.notes[0].slot, 1);
    assert_eq!(l.index.notes[0].title, "Mindset");
    n.title = "Art direction".to_string();
    n.pinned = true;
    l.record_note(&n);
    assert_eq!(l.index.notes.len(), 2);
    assert_eq!(l.index.notes[0].title, "Art direction");
    assert!(l.index.notes[0].pinned);
    assert_eq!(l.index.notes[0].slot, 1);
}

#[test]
fn mark_seeded_sets_the_flag() {
    let mut l = lib(vec![], vec![]);
    l.mark_seeded();
    assert!(l.index.seeded);
}

#[test]
fn shelf_order_reads_cells_then_bin() {
    let l = lib(vec![meta(1, 5), meta(2, 0), meta(3, 5)], vec![meta(8, 2), meta(9, 1)]);
    assert_eq!(l.shelf_order(false), vec![2, 1, 3]);
    assert_eq!(l.shelf_order(true), vec![2, 1, 3, 9, 8]);
}

#[test]
fn drop_haul_places_in_cell_order() {
    let mut l = lib(vec![meta(1, 4), meta(2, 2), meta(3, 9)], vec![meta(5, 0)]);
    assert_eq!(l.by_slot(&[1, 2, 77]), vec![2, 1, 77]);
    l.drop_haul(&[1, 2], ShelfDrop::Shelf(20), false, false);
    assert_eq!(slots(&l.index.notes), vec![(1, 21), (2, 20), (3, 9)]);
    l.drop_haul(&[5], ShelfDrop::Shelf(0), true, false);
    assert!(!l.is_trashed(5));
    l.drop_haul(&[3], ShelfDrop::Bin(4), false, false);
    assert!(!l.is_trashed(3));
    l.drop_haul(&[3], ShelfDrop::Bin(4), false, true);
    assert!(l.is_trashed(3));
    assert_eq!(l.index.trash.iter().find(|m| m.id == 3).unwrap().slot, 4);
}

#[test]
fn haul_and_pin_decisions() {
    let mut l = lib(vec![meta(1, 0), meta(2, 1)], vec![meta(3, 0)]);
    assert_eq!(l.haul_ids(&[1, 3, 2], 2), vec![1, 2]);
    assert_eq!(l.haul_ids(&[1, 3, 2], 3), vec![3]);
    assert_eq!(l.haul_ids(&[1], 2), vec![2]);
    assert!(l.pin_target(&[1, 2]));
    l.index.notes[0].pinned = true;
    l.index.notes[1].pinned = true;
    assert!(!l.pin_target(&[1, 2, 3]));
}

#[test]
fn selection_select_toggle_range_band() {
    let mut s = Selection::new();
    s.select(4);
    assert_eq!(s.ids, vec![4]);
    s.toggle(6);
    assert_eq!(s.ids, vec![4, 6]);
    s.toggle(6);
    assert_eq!(s.ids, vec![4]);
    let order = [1, 2, 3, 4, 5, 6];
    s.anchor = Some(2);
    s.extend_to(5, &order);
    assert_eq!(s.ids, vec![2, 3, 4, 5]);
    s.extend_to(9, &order);
    assert_eq!(s.ids, vec![2, 3, 4, 5]);
    s.band(true, &[1], &[1, 3, 3, 4]);
    assert_eq!(s.ids, vec![1, 3, 4]);
    assert_eq!(s.anchor, Some(4));
    s.band(false, &[1], &[6]);
    assert_eq!(s.ids, vec![6]);
    s.clear();
    assert!(s.ids.is_empty() && s.anchor.is_none());
    s.extend_to(3, &order);
    assert_eq!(s.ids, vec![3]);
}

#[test]
fn search_matches_lowercased_titles() {
    assert!(title_matches("Art Direction", "direc"));
    assert!(title_matches("ÉTÉ", "été"));
    assert!(title_matches("Mindset", ""));
    assert!(!title_matches("Mindset", "art"));
}

#[test]
fn examples_are_written_once_into_an_empty_shelf() {
    let mut l = lib(vec![], vec![]);
    assert_eq!(l.seed_step(), SeedStep::Seed);
    l.mark_seeded();
    assert_eq!(l.seed_step(), SeedStep::Nothing);
    let l = lib(vec![meta(1, 0)], vec![]);
    assert_eq!(l.seed_step(), SeedStep::MarkOnly);
}

#[test]
fn remap_check_spots_cells_that_overflow() {
    let mut l = lib(vec![meta(1, 7)], vec![meta(2, 3)]);
    assert!(l.slots_remap());
    l.index.shelf_cols = 5;
    assert!(l.slots_remap());
    l.index.notes.push(meta(3, u32::MAX - 1));
    assert!(!l.slots_remap());
    l.index.shelf_cols = SHELF_COLS;
    assert!(l.slots_remap());
}
