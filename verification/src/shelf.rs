//! Working the shelf: the order notebooks are read in, search, the
//! selection, and where dragged notebooks are dropped.

use vstd::prelude::*;
use crate::library::{Library, NoteMeta, TRASH_SLOTS, SHELF_SLOTS, find_id, has_id, place_spec, restored_each, trashed_each};
use crate::text::{chars_of, lowercase, string_of, to_lowercase};

verus! {

/// How many entries of `r` have a key of at most `k`.
pub open spec fn count_upto(r: Seq<(u128, u32)>, k: u32) -> int
    decreases r.len(),
{
    if r.len() == 0 {
        0
    } else {
        count_upto(r.drop_last(), k) + if r.last().1 <= k {
            1int
        } else {
            0
        }
    }
}

/// `s` sorted by key, entries with equal keys in their order in `s`: each
/// entry in turn goes after every entry before it whose key is not larger.
pub open spec fn stable_sorted(s: Seq<(u128, u32)>) -> Seq<(u128, u32)>
    decreases s.len(),
{
    if s.len() == 0 {
        s
    } else {
        let r = stable_sorted(s.drop_last());
        r.insert(count_upto(r, s.last().1), s.last())
    }
}

/// Keys never decrease along `r`.
pub open spec fn keys_sorted(r: Seq<(u128, u32)>) -> bool {
    forall|i: int, j: int| 0 <= i <= j < r.len() ==> (#[trigger] r[i]).1 <= (#[trigger] r[j]).1
}

proof fn lemma_count_sorted(r: Seq<(u128, u32)>, k: u32)
    requires
        keys_sorted(r),
    ensures
        0 <= count_upto(r, k) <= r.len(),
        forall|i: int| 0 <= i < count_upto(r, k) ==> (#[trigger] r[i]).1 <= k,
        forall|i: int| count_upto(r, k) <= i < r.len() ==> (#[trigger] r[i]).1 > k,
    decreases r.len(),
{
    if r.len() > 0 {
        let d = r.drop_last();
        assert(keys_sorted(d)) by {
            assert forall|i: int, j: int| 0 <= i <= j < d.len() implies (#[trigger] d[i]).1 <= (
            #[trigger] d[j]).1 by {
                assert(d[i] == r[i] && d[j] == r[j]);
            }
        }
        lemma_count_sorted(d, k);
        assert forall|i: int| 0 <= i < d.len() implies (#[trigger] r[i]) == d[i] by {}
        if r.last().1 <= k {
            if count_upto(d, k) < d.len() {
                let c = count_upto(d, k);
                assert(d[c].1 > k);
                assert(r[c].1 <= r[r.len() - 1].1);
            }
            assert forall|i: int| 0 <= i < d.len() implies (#[trigger] r[i]).1 <= k by {
                assert(r[i].1 <= r[r.len() - 1].1);
            }
        } else {
            assert forall|i: int| count_upto(d, k) <= i < d.len() implies (#[trigger] r[i]).1 > k by {
                assert(d[i] == r[i]);
            }
        }
    }
}

/// The stable sort keeps keys in order.
pub proof fn lemma_stable_sorted(s: Seq<(u128, u32)>)
    ensures
        keys_sorted(stable_sorted(s)),
        stable_sorted(s).len() == s.len(),
    decreases s.len(),
{
    if s.len() > 0 {
        lemma_stable_sorted(s.drop_last());
        let r = stable_sorted(s.drop_last());
        let x = s.last();
        lemma_count_sorted(r, x.1);
        let p = count_upto(r, x.1);
        let t = r.insert(p, x);
        assert forall|i: int, j: int| 0 <= i <= j < t.len() implies (#[trigger] t[i]).1 <= (
        #[trigger] t[j]).1 by {
            if i < p && j < p {
                assert(t[i] == r[i] && t[j] == r[j]);
            } else if i < p && j == p {
                assert(t[i] == r[i]);
            } else if i < p {
                assert(t[i] == r[i] && t[j] == r[j - 1]);
            } else if i == p && j > p {
                assert(t[j] == r[j - 1]);
            } else if i > p {
                assert(t[i] == r[i - 1] && t[j] == r[j - 1]);
            }
        }
    }
}

fn count_le(r: &Vec<(u128, u32)>, k: u32) -> (c: usize)
    ensures
        c == count_upto(r@, k),
        c <= r@.len(),
{
    let mut c: usize = 0;
    let mut i: usize = 0;
    while i < r.len()
        invariant
            0 <= i <= r@.len(),
            c == count_upto(r@.take(i as int), k),
            c <= i,
        decreases r.len() - i,
    {
        assert(r@.take(i + 1).drop_last() =~= r@.take(i as int));
        if r[i].1 <= k {
            c = c + 1;
        }
        i = i + 1;
    }
    assert(r@.take(i as int) =~= r@);
    c
}

/// Sorts `(id, key)` entries by key, keeping the order of equal keys.
pub fn sort_stable(s: &Vec<(u128, u32)>) -> (r: Vec<(u128, u32)>)
    ensures
        r@ == stable_sorted(s@),
        keys_sorted(r@),
{
    let mut out: Vec<(u128, u32)> = Vec::new();
    let mut i: usize = 0;
    while i < s.len()
        invariant
            0 <= i <= s@.len(),
            out@ == stable_sorted(s@.take(i as int)),
        decreases s.len() - i,
    {
        assert(s@.take(i + 1).drop_last() =~= s@.take(i as int));
        proof {
            lemma_stable_sorted(s@.take(i as int));
        }
        let p = count_le(&out, s[i].1);
        out.insert(p, s[i]);
        i = i + 1;
    }
    assert(s@.take(i as int) =~= s@);
    proof {
        lemma_stable_sorted(s@);
    }
    out
}

/// The `(id, slot)` entries of `metas`, in order.
pub open spec fn id_slots(metas: Seq<NoteMeta>) -> Seq<(u128, u32)> {
    metas.map_values(|m: NoteMeta| (m.id, m.slot))
}

fn id_slots_of(metas: &Vec<NoteMeta>) -> (r: Vec<(u128, u32)>)
    ensures
        r@ == id_slots(metas@),
{
    let mut out: Vec<(u128, u32)> = Vec::new();
    let mut i: usize = 0;
    while i < metas.len()
        invariant
            0 <= i <= metas@.len(),
            out@ == id_slots(metas@.take(i as int)),
        decreases metas.len() - i,
    {
        out.push((metas[i].id, metas[i].slot));
        i = i + 1;
        assert(out@ =~= id_slots(metas@.take(i as int)));
    }
    assert(metas@.take(i as int) =~= metas@);
    out
}

/// The ids of `entries`, in order.
pub open spec fn ids_of(entries: Seq<(u128, u32)>) -> Seq<u128> {
    entries.map_values(|e: (u128, u32)| e.0)
}

fn push_ids(out: &mut Vec<u128>, entries: &Vec<(u128, u32)>)
    ensures
        final(out)@ == old(out)@ + ids_of(entries@),
{
    let mut i: usize = 0;
    while i < entries.len()
        invariant
            0 <= i <= entries@.len(),
            out@ == old(out)@ + ids_of(entries@.take(i as int)),
        decreases entries.len() - i,
    {
        out.push(entries[i].0);
        i = i + 1;
        assert(out@ =~= old(out)@ + ids_of(entries@.take(i as int)));
    }
    assert(entries@.take(i as int) =~= entries@);
}

/// The shelf read cell by cell: shelf notebooks by slot, then, with the
/// bin open, binned ones by slot.
pub open spec fn shelf_order_spec(notes: Seq<NoteMeta>, trash: Seq<NoteMeta>, bin_open: bool) -> Seq<u128> {
    ids_of(stable_sorted(id_slots(notes))) + if bin_open {
        ids_of(stable_sorted(id_slots(trash)))
    } else {
        seq![]
    }
}

impl Library {
    /// The ids in the order the shelf is read for range selection.
    pub fn shelf_order(&self, bin_open: bool) -> (r: Vec<u128>)
        ensures
            r@ == shelf_order_spec(self.index.notes@, self.index.trash@, bin_open),
    {
        let mut out: Vec<u128> = Vec::new();
        let shelf = sort_stable(&id_slots_of(&self.index.notes));
        push_ids(&mut out, &shelf);
        if bin_open {
            let bin = sort_stable(&id_slots_of(&self.index.trash));
            push_ids(&mut out, &bin);
        } else {
            assert(out@ =~= out@ + Seq::<u128>::empty());
        }
        out
    }
}

} // verus!

verus! {

/// The first position of `x` in `s`.
pub open spec fn first_pos(s: Seq<u128>, x: u128) -> Option<int> {
    if exists|i: int| 0 <= i < s.len() && s[i] == x && forall|j: int| 0 <= j < i ==> s[j] != x {
        Some(choose|i: int| 0 <= i < s.len() && s[i] == x && forall|j: int| 0 <= j < i ==> s[j] != x)
    } else {
        None
    }
}

fn position(s: &[u128], x: u128) -> (r: Option<usize>)
    ensures
        r is None <==> first_pos(s@, x) is None,
        r is None <==> !s@.contains(x),
        r matches Some(i) ==> first_pos(s@, x) == Some(i as int) && i < s@.len() && s@[i as int] == x,
{
    let mut i: usize = 0;
    while i < s.len()
        invariant
            0 <= i <= s@.len(),
            forall|j: int| 0 <= j < i ==> s@[j] != x,
        decreases s.len() - i,
    {
        if s[i] == x {
            proof {
                let w = choose|w: int|
                    0 <= w < s@.len() && s@[w] == x && forall|j: int| 0 <= j < w ==> s@[j] != x;
                if w < i {
                } else if w > i {
                    assert(s@[i as int] != x);
                }
            }
            return Some(i);
        }
        i = i + 1;
    }
    None
}

/// `base`, followed by each of `hits` not yet in it.
pub open spec fn merged(base: Seq<u128>, hits: Seq<u128>) -> Seq<u128>
    decreases hits.len(),
{
    if hits.len() == 0 {
        base
    } else {
        let m = merged(base, hits.drop_last());
        if m.contains(hits.last()) {
            m
        } else {
            m.push(hits.last())
        }
    }
}

/// The notebooks picked on the shelf, and the one a range selection
/// extends from.
pub struct Selection {
    pub ids: Vec<u128>,
    pub anchor: Option<u128>,
}

impl Selection {
    pub fn new() -> (s: Self)
        ensures
            s.ids@ == Seq::<u128>::empty(),
            s.anchor is None,
    {
        Selection { ids: Vec::new(), anchor: None }
    }

    /// Picks `id` alone.
    pub fn select(&mut self, id: u128)
        ensures
            final(self).ids@ == seq![id],
            final(self).anchor == Some(id),
    {
        let mut v: Vec<u128> = Vec::new();
        v.push(id);
        self.ids = v;
        self.anchor = Some(id);
    }

    /// Adds `id` to the picked notebooks, or takes it out when it is picked.
    pub fn toggle(&mut self, id: u128)
        ensures
            final(self).anchor == Some(id),
            match first_pos(old(self).ids@, id) {
                Some(p) => final(self).ids@ == old(self).ids@.remove(p),
                None => final(self).ids@ == old(self).ids@.push(id),
            },
    {
        match position(self.ids.as_slice(), id) {
            Some(p) => {
                self.ids.remove(p);
            },
            None => {
                self.ids.push(id);
            },
        }
        self.anchor = Some(id);
    }

    /// Picks every notebook between the anchor (or, without one, the last
    /// picked) and `id`, in the shelf's `order`; with nothing to extend
    /// from, picks `id` alone. When either end is not in `order` nothing
    /// changes.
    pub fn extend_to(&mut self, id: u128, order: &[u128])
        ensures
            ({
                let from = match old(self).anchor {
                    Some(a) => Some(a),
                    None => if old(self).ids@.len() > 0 {
                        Some(old(self).ids@.last())
                    } else {
                        None
                    },
                };
                match from {
                    None => final(self).ids@ == seq![id] && final(self).anchor == Some(id),
                    Some(a) => match (first_pos(order@, a), first_pos(order@, id)) {
                        (Some(ia), Some(ib)) => final(self).anchor == old(self).anchor
                            && final(self).ids@ == order@.subrange(
                            if ia <= ib { ia } else { ib },
                            (if ia <= ib { ib } else { ia }) + 1,
                        ),
                        _ => final(self).ids@ == old(self).ids@ && final(self).anchor == old(self).anchor,
                    },
                }
            }),
    {
        let from: Option<u128> = match self.anchor {
            Some(a) => Some(a),
            None => if self.ids.len() > 0 {
                Some(self.ids[self.ids.len() - 1])
            } else {
                None
            },
        };
        match from {
            None => {
                self.select(id);
            },
            Some(a) => {
                match (position(order, a), position(order, id)) {
                    (Some(ia), Some(ib)) => {
                        let lo = if ia <= ib {
                            ia
                        } else {
                            ib
                        };
                        let hi = if ia <= ib {
                            ib
                        } else {
                            ia
                        };
                        let mut v: Vec<u128> = Vec::new();
                        let mut k: usize = lo;
                        while k <= hi
                            invariant
                                lo <= k <= hi + 1,
                                hi < order@.len(),
                                v@ == order@.subrange(lo as int, k as int),
                            decreases hi + 1 - k,
                        {
                            v.push(order[k]);
                            k = k + 1;
                            assert(v@ =~= order@.subrange(lo as int, k as int));
                        }
                        self.ids = v;
                    },
                    _ => {},
                }
            },
        }
    }

    /// Drops every pick.
    pub fn clear(&mut self)
        ensures
            final(self).ids@ == Seq::<u128>::empty(),
            final(self).anchor is None,
    {
        self.ids.clear();
        self.anchor = None;
    }

    /// The picks of a rubber band: `hits` alone, or with `add` the picks
    /// `base` had when the band began plus the new hits. The last pick
    /// becomes the anchor.
    pub fn band(&mut self, add: bool, base: &[u128], hits: &[u128])
        ensures
            final(self).ids@ == if add {
                merged(base@, hits@)
            } else {
                hits@
            },
            final(self).anchor == if final(self).ids@.len() > 0 {
                Some(final(self).ids@.last())
            } else {
                old(self).anchor
            },
    {
        let mut out: Vec<u128> = Vec::new();
        if add {
            let mut i: usize = 0;
            while i < base.len()
                invariant
                    0 <= i <= base@.len(),
                    out@ == base@.take(i as int),
                decreases base.len() - i,
            {
                out.push(base[i]);
                i = i + 1;
                assert(out@ =~= base@.take(i as int));
            }
            assert(base@.take(i as int) =~= base@);
            let mut j: usize = 0;
            while j < hits.len()
                invariant
                    0 <= j <= hits@.len(),
                    out@ == merged(base@, hits@.take(j as int)),
                decreases hits.len() - j,
            {
                assert(hits@.take(j + 1).drop_last() =~= hits@.take(j as int));
                if position(out.as_slice(), hits[j]).is_none() {
                    out.push(hits[j]);
                }
                j = j + 1;
            }
            assert(hits@.take(j as int) =~= hits@);
        } else {
            let mut j: usize = 0;
            while j < hits.len()
                invariant
                    0 <= j <= hits@.len(),
                    out@ == hits@.take(j as int),
                decreases hits.len() - j,
            {
                out.push(hits[j]);
                j = j + 1;
                assert(out@ =~= hits@.take(j as int));
            }
            assert(hits@.take(j as int) =~= hits@);
        }
        if out.len() > 0 {
            self.anchor = Some(out[out.len() - 1]);
        }
        self.ids = out;
    }
}

/// Toggling a notebook that is not picked, then toggling it again, leaves
/// the picks as they were.
pub proof fn law_toggle_twice(ids: Seq<u128>, id: u128)
    requires
        !ids.contains(id),
    ensures
        first_pos(ids.push(id), id) == Some(ids.len() as int),
        ids.push(id).remove(ids.len() as int) == ids,
{
    let s = ids.push(id);
    assert(s[ids.len() as int] == id);
    assert forall|j: int| 0 <= j < ids.len() implies s[j] != id by {
        assert(s[j] == ids[j]);
    }
    let w = choose|w: int| 0 <= w < s.len() && s[w] == id && forall|j: int| 0 <= j < w ==> s[j] != id;
    if w < ids.len() {
        assert(s[w] == ids[w]);
    }
    assert(s.remove(ids.len() as int) =~= ids);
}

} // verus!

verus! {

/// What a dragged pile of notebooks is dropped on: a shelf cell or a bin cell.
#[derive(Clone, Copy, Debug, PartialEq, Eq, Structural)]
pub enum ShelfDrop {
    Shelf(u32),
    Bin(u32),
}

/// The cell notebook `id` stands in, on the shelf or else in the bin;
/// `u32::MAX` when it is in neither.
pub open spec fn slot_key(notes: Seq<NoteMeta>, trash: Seq<NoteMeta>, id: u128) -> u32 {
    match find_id(notes + trash, id) {
        Some(i) => (notes + trash)[i].slot,
        None => u32::MAX,
    }
}

/// `ids` with the cell each stands in.
pub open spec fn keyed(notes: Seq<NoteMeta>, trash: Seq<NoteMeta>, ids: Seq<u128>) -> Seq<(u128, u32)> {
    ids.map_values(|id: u128| (id, slot_key(notes, trash, id)))
}

/// What dropping `ids` does to shelf and bin.
pub open spec fn dropped(
    notes: Seq<NoteMeta>,
    trash: Seq<NoteMeta>,
    ids: Seq<u128>,
    drop: ShelfDrop,
    from_bin: bool,
    bin_open: bool,
) -> (Seq<NoteMeta>, Seq<NoteMeta>) {
    let sorted = ids_of(stable_sorted(keyed(notes, trash, ids)));
    match drop {
        ShelfDrop::Shelf(cell) => if from_bin {
            let r = restored_each(notes, trash, sorted);
            (place_spec(r.0, sorted, cell, SHELF_SLOTS), r.1)
        } else {
            (place_spec(notes, sorted, cell, SHELF_SLOTS), trash)
        },
        ShelfDrop::Bin(cell) => if from_bin {
            (notes, place_spec(trash, sorted, cell, TRASH_SLOTS))
        } else if bin_open {
            let t = trashed_each(notes, trash, sorted);
            (t.0, place_spec(t.1, sorted, cell, TRASH_SLOTS))
        } else {
            (notes, trash)
        },
    }
}

fn find_in(metas: &Vec<NoteMeta>, id: u128) -> (r: Option<usize>)
    ensures
        r is None <==> forall|i: int| 0 <= i < metas@.len() ==> (#[trigger] metas@[i]).id != id,
        r matches Some(i) ==> i < metas@.len() && metas@[i as int].id == id && forall|j: int|
            0 <= j < i ==> (#[trigger] metas@[j]).id != id,
{
    let mut i: usize = 0;
    while i < metas.len()
        invariant
            0 <= i <= metas@.len(),
            forall|j: int| 0 <= j < i ==> (#[trigger] metas@[j]).id != id,
        decreases metas.len() - i,
    {
        if metas[i].id == id {
            return Some(i);
        }
        i = i + 1;
    }
    None
}

impl Library {
    /// The cell notebook `id` stands in, on the shelf or else in the bin;
    /// `u32::MAX` when it is in neither.
    pub fn slot_of(&self, id: u128) -> (r: u32)
        ensures
            r == slot_key(self.index.notes@, self.index.trash@, id),
    {
        let ghost all = self.index.notes@ + self.index.trash@;
        let ghost n = self.index.notes@.len();
        match find_in(&self.index.notes, id) {
            Some(i) => {
                proof {
                    assert(all[i as int] == self.index.notes@[i as int]);
                    assert forall|j: int| 0 <= j < i implies (#[trigger] all[j]).id != id by {
                        assert(all[j] == self.index.notes@[j]);
                    }
                    assert(crate::library::is_first_id(all, id, i as int));
                    let w = choose|w: int| crate::library::is_first_id(all, id, w);
                    if w < i {
                    } else if w > i {
                        assert(all[i as int].id == id);
                    }
                }
                self.index.notes[i].slot
            },
            None => match find_in(&self.index.trash, id) {
                Some(i) => {
                    proof {
                        assert(all[n + i] == self.index.trash@[i as int]);
                        assert forall|j: int| 0 <= j < n + i implies (#[trigger] all[j]).id != id by {
                            if j < n {
                                assert(all[j] == self.index.notes@[j]);
                            } else {
                                assert(all[j] == self.index.trash@[j - n]);
                            }
                        }
                        assert(crate::library::is_first_id(all, id, n + i));
                        let w = choose|w: int| crate::library::is_first_id(all, id, w);
                        if w < n + i {
                        } else if w > n + i {
                            assert(all[n + i].id == id);
                        }
                    }
                    self.index.trash[i].slot
                },
                None => {
                    proof {
                        if exists|w: int| crate::library::is_first_id(all, id, w) {
                            let w = choose|w: int| crate::library::is_first_id(all, id, w);
                            if w < n {
                                assert(all[w] == self.index.notes@[w]);
                            } else {
                                assert(all[w] == self.index.trash@[w - n]);
                            }
                        }
                    }
                    u32::MAX
                },
            },
        }
    }

    /// `ids` ordered by the cell each stands in, equal cells in their order.
    pub fn by_slot(&self, ids: &[u128]) -> (r: Vec<u128>)
        ensures
            r@ == ids_of(stable_sorted(keyed(self.index.notes@, self.index.trash@, ids@))),
    {
        let mut entries: Vec<(u128, u32)> = Vec::new();
        let mut k: usize = 0;
        while k < ids.len()
            invariant
                0 <= k <= ids@.len(),
                entries@ == keyed(self.index.notes@, self.index.trash@, ids@.take(k as int)),
            decreases ids.len() - k,
        {
            let s = self.slot_of(ids[k]);
            entries.push((ids[k], s));
            k = k + 1;
            assert(entries@ =~= keyed(self.index.notes@, self.index.trash@, ids@.take(k as int)));
        }
        assert(ids@.take(k as int) =~= ids@);
        let sorted = sort_stable(&entries);
        let mut out: Vec<u128> = Vec::new();
        push_ids(&mut out, &sorted);
        assert(out@ =~= ids_of(sorted@));
        out
    }

    /// Drops the dragged notebooks `ids`, taken in the order of their
    /// cells: onto shelf cell `cell` (out of the bin first when they come
    /// from it), or onto bin cell `cell` (into the bin first when they come
    /// from the shelf, which only an open bin row takes).
    pub fn drop_haul(&mut self, ids: &[u128], drop: ShelfDrop, from_bin: bool, bin_open: bool)
        ensures
            (final(self).index.notes@, final(self).index.trash@) == dropped(
                old(self).index.notes@,
                old(self).index.trash@,
                ids@,
                drop,
                from_bin,
                bin_open,
            ),
            final(self).root == old(self).root,
            final(self).index.seeded == old(self).index.seeded,
            final(self).index.dock == old(self).index.dock,
            final(self).index.mode == old(self).index.mode,
            final(self).index.fiche_pliee == old(self).index.fiche_pliee,
            final(self).index.shelf_cols == old(self).index.shelf_cols,
    {
        let sorted = self.by_slot(ids);
        proof {
            lemma_stable_sorted(keyed(self.index.notes@, self.index.trash@, ids@));
        }
        match drop {
            ShelfDrop::Shelf(cell) => {
                if from_bin {
                    self.restore_at(sorted.as_slice(), cell);
                } else {
                    self.place_at(sorted.as_slice(), cell);
                }
            },
            ShelfDrop::Bin(cell) => {
                if from_bin {
                    self.place_trash_at(sorted.as_slice(), cell);
                } else if bin_open {
                    self.trash_at(sorted.as_slice(), cell);
                }
            },
        }
    }

    /// The notebooks a drag from `id` carries: when `id` is picked, every
    /// pick on the same side (shelf or bin) as `id`, in pick order; else
    /// `id` alone.
    pub fn haul_ids(&self, picks: &[u128], id: u128) -> (r: Vec<u128>)
        ensures
            picks@.contains(id) ==> r@ == picks@.filter(
                |x: u128| has_id(self.index.trash@, x) == has_id(self.index.trash@, id),
            ),
            !picks@.contains(id) ==> r@ == seq![id],
    {
        let ghost f = |x: u128| has_id(self.index.trash@, x) == has_id(self.index.trash@, id);
        let mut out: Vec<u128> = Vec::new();
        if position(picks, id).is_none() {
            out.push(id);
            return out;
        }
        let from_bin = self.is_trashed(id);
        let mut k: usize = 0;
        assert(picks@.take(0).filter(f) =~= Seq::<u128>::empty()) by {
            reveal(Seq::filter);
        }
        while k < picks.len()
            invariant
                0 <= k <= picks@.len(),
                from_bin == has_id(self.index.trash@, id),
                f == (|x: u128| has_id(self.index.trash@, x) == has_id(self.index.trash@, id)),
                out@ == picks@.take(k as int).filter(f),
            decreases picks.len() - k,
        {
            proof {
                reveal(Seq::filter);
                assert(picks@.take(k + 1).drop_last() =~= picks@.take(k as int));
            }
            if self.is_trashed(picks[k]) == from_bin {
                out.push(picks[k]);
            }
            k = k + 1;
        }
        assert(picks@.take(k as int) =~= picks@);
        out
    }

    /// Whether pinning `ids` turns pins on: some of them on the shelf is
    /// not pinned yet.
    pub fn pin_target(&self, ids: &[u128]) -> (r: bool)
        ensures
            r == exists|k: int|
                0 <= k < ids@.len() && (find_id(self.index.notes@, #[trigger] ids@[k]) matches Some(i)
                    && !self.index.notes@[i].pinned),
    {
        let mut k: usize = 0;
        while k < ids.len()
            invariant
                0 <= k <= ids@.len(),
                forall|j: int|
                    0 <= j < k ==> !(find_id(self.index.notes@, #[trigger] ids@[j]) matches Some(i)
                        && !self.index.notes@[i].pinned),
            decreases ids.len() - k,
        {
            match find_in(&self.index.notes, ids[k]) {
                Some(i) => {
                    proof {
                        assert(crate::library::is_first_id(self.index.notes@, ids@[k as int], i as int));
                        let w = choose|w: int|
                            crate::library::is_first_id(self.index.notes@, ids@[k as int], w);
                        if w < i {
                        } else if w > i {
                            assert(self.index.notes@[i as int].id == ids@[k as int]);
                        }
                    }
                    if !self.index.notes[i].pinned {
                        return true;
                    }
                },
                None => {
                    proof {
                        if exists|w: int| crate::library::is_first_id(self.index.notes@, ids@[k as int], w) {
                            let w = choose|w: int|
                                crate::library::is_first_id(self.index.notes@, ids@[k as int], w);
                            assert(self.index.notes@[w].id == ids@[k as int]);
                        }
                    }
                },
            }
            k = k + 1;
        }
        false
    }
}

/// `needle` occurs in `hay` as a run of consecutive characters.
pub open spec fn contains_run(hay: Seq<char>, needle: Seq<char>) -> bool {
    exists|i: int| 0 <= i <= hay.len() - needle.len() && #[trigger] hay.subrange(i, i + needle.len()) == needle
}

/// A title matches a lowercased search: the lowercased title contains it.
pub fn title_matches(title: &str, query: &str) -> (r: bool)
    ensures
        r == contains_run(lowercase(title@), query@),
{
    let low = to_lowercase(title);
    let hay = chars_of(low.as_str());
    let needle = chars_of(query);
    let hn = hay.len();
    let nn = needle.len();
    if nn > hn {
        return false;
    }
    let mut i: usize = 0;
    while i <= hn - nn
        invariant
            hay@ == lowercase(title@),
            needle@ == query@,
            hn == hay@.len(),
            nn == needle@.len(),
            nn <= hn,
            0 <= i <= hn - nn + 1,
            forall|k: int| 0 <= k < i ==> #[trigger] hay@.subrange(k, k + needle@.len()) != needle@,
        decreases hn - nn + 1 - i,
    {
        let mut j: usize = 0;
        while j < nn && hay[i + j] == needle[j]
            invariant
                hn == hay@.len(),
                nn == needle@.len(),
                i + nn <= hn,
                0 <= j <= nn,
                forall|t: int| 0 <= t < j ==> hay@[i + t] == needle@[t],
            decreases nn - j,
        {
            j = j + 1;
        }
        if j == nn {
            assert(hay@.subrange(i as int, i + needle@.len()) =~= needle@);
            assert(contains_run(hay@, needle@));
            return true;
        }
        assert(hay@.subrange(i as int, i + needle@.len())[j as int] != needle@[j as int]);
        i = i + 1;
    }
    false
}

/// A title as a spine shows it: one of more than 14 characters is cut to
/// its first 12 and an ellipsis.
pub open spec fn clipped_title(t: Seq<char>) -> Seq<char> {
    if t.len() > 14 {
        t.take(12).push('\u{2026}')
    } else {
        t
    }
}

/// The title `title` as a spine shows it.
pub fn clip_title(title: &str) -> (r: String)
    ensures
        r@ == clipped_title(title@),
{
    let cs = chars_of(title);
    if cs.len() <= 14 {
        return string_of(cs.as_slice());
    }
    let mut out: Vec<char> = Vec::new();
    let mut i: usize = 0;
    while i < 12
        invariant
            0 <= i <= 12,
            cs@.len() > 14,
            out@ == cs@.take(i as int),
        decreases 12 - i,
    {
        out.push(cs[i]);
        i = i + 1;
        assert(out@ =~= cs@.take(i as int));
    }
    out.push('\u{2026}');
    string_of(out.as_slice())
}

} // verus!
