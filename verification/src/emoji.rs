//! Shelf icons drawn from a colour-emoji font.
//!
//! Noto Color Emoji is a CBDT bitmap font (PNG strips, no outlines), so the
//! glyphs are read straight from its tables: the table directory, the
//! format-12 `cmap` subtable mapping code points to glyph ids, the `CBLC`
//! index locating each glyph's bitmap, and the `CBDT` data holding it. All
//! numbers in these tables are big-endian.

use vstd::prelude::*;
use std::collections::HashMap;
use vstd::utf8::valid_utf8;
use crate::picture::{decode_rgba, decoded_rgba, resize_triangle, resized_rgba};

verus! {

/// The big-endian 16-bit number at `at`.
pub open spec fn be16(s: Seq<u8>, at: int) -> int {
    s[at] * 256 + s[at + 1]
}

/// The big-endian 32-bit number at `at`.
pub open spec fn be32(s: Seq<u8>, at: int) -> int {
    ((s[at] * 256 + s[at + 1]) * 256 + s[at + 2]) * 256 + s[at + 3]
}

/// Reads the big-endian `u16` at `at`, if the two bytes are there.
pub fn read_u16(data: &[u8], at: usize) -> (r: Option<u16>)
    ensures
        r is Some <==> at + 2 <= data@.len(),
        r matches Some(v) ==> v == be16(data@, at as int),
{
    if at > data.len() || data.len() - at < 2 {
        return None;
    }
    let v: u16 = data[at] as u16 * 256 + data[at + 1] as u16;
    Some(v)
}

/// Reads the big-endian `u32` at `at`, if the four bytes are there.
pub fn read_u32(data: &[u8], at: usize) -> (r: Option<u32>)
    ensures
        r is Some <==> at + 4 <= data@.len(),
        r matches Some(v) ==> v == be32(data@, at as int),
{
    if at > data.len() || data.len() - at < 4 {
        return None;
    }
    let b0 = data[at] as u32;
    let b1 = data[at + 1] as u32;
    let b2 = data[at + 2] as u32;
    let b3 = data[at + 3] as u32;
    assert(((b0 * 256 + b1) * 256 + b2) * 256 + b3 <= u32::MAX) by (nonlinear_arith)
        requires
            b0 < 256,
            b1 < 256,
            b2 < 256,
            b3 < 256,
    ;
    Some(((b0 * 256 + b1) * 256 + b2) * 256 + b3)
}

/// The bytes `span.1` long starting at `span.0`, if they are all there.
pub fn slice(data: &[u8], span: (usize, usize)) -> (r: Option<&[u8]>)
    ensures
        r is Some <==> span.0 + span.1 <= data@.len(),
        r matches Some(s) ==> s@ == data@.subrange(span.0 as int, span.0 + span.1),
{
    if span.0 > data.len() || data.len() - span.0 < span.1 {
        return None;
    }
    Some(&data[span.0..span.0 + span.1])
}

/// A code point worth an icon of its own: not a joiner, variation
/// selector, keycap or tag, not private use, and either past the Latin-1
/// letters or in the dingbat and symbol blocks.
pub open spec fn usable_cp(cp: u32) -> bool {
    &&& !(cp == 0x200D || cp == 0xFE0E || cp == 0xFE0F || cp == 0x20E3)
    &&& !(0xE0020 <= cp && cp <= 0xE007F)
    &&& !(0xE000 <= cp && cp <= 0xF8FF)
    &&& (cp >= 0x00A9 || (0x203C <= cp && cp <= 0x3299))
}

pub fn usable(cp: u32) -> (r: bool)
    ensures
        r == usable_cp(cp),
{
    if cp == 0x200D || cp == 0xFE0E || cp == 0xFE0F || cp == 0x20E3 {
        return false;
    }
    if 0xE0020 <= cp && cp <= 0xE007F {
        return false;
    }
    if 0xE000 <= cp && cp <= 0xF8FF {
        return false;
    }
    cp >= 0x00A9 || (0x203C <= cp && cp <= 0x3299)
}

/// `std::str::from_utf8` on `bytes`, asked only whether it succeeds: the
/// standard library documents that it fails exactly when the bytes are
/// not valid UTF-8.
#[verifier::external_body]
fn is_utf8(bytes: &[u8]) -> (r: bool)
    ensures
        r == valid_utf8(bytes@),
{
    std::str::from_utf8(bytes).is_ok()
}

/// Where the `i`th table record of the directory starts.
pub open spec fn record_at(i: int) -> int {
    12 + i * 16
}

/// The directory's table count.
pub open spec fn table_count(d: Seq<u8>) -> int {
    be16(d, 4)
}

/// The `i`th table record is all there, its tag readable as UTF-8.
pub open spec fn record_ok(d: Seq<u8>, i: int) -> bool {
    record_at(i) + 16 <= d.len() && valid_utf8(d.subrange(record_at(i), record_at(i) + 4))
}

/// The file starts with a TrueType header and every table record is ok.
pub open spec fn directory_ok(d: Seq<u8>) -> bool {
    &&& d.len() >= 12
    &&& d[0] == 0 && d[1] == 1 && d[2] == 0 && d[3] == 0
    &&& forall|i: int| 0 <= i < table_count(d) ==> #[trigger] record_ok(d, i)
}

/// The `i`th record of the directory: its tag as a big-endian number, and
/// the table's offset and length.
pub open spec fn record(d: Seq<u8>, i: int) -> (u32, usize, usize) {
    (
        be32(d, record_at(i)) as u32,
        be32(d, record_at(i) + 8) as usize,
        be32(d, record_at(i) + 12) as usize,
    )
}

/// The table directory of a TrueType file: for each tag, the span
/// `(offset, length)` of the last record bearing it.
pub fn tables(data: &[u8]) -> (r: Option<HashMap<u32, (usize, usize)>>)
    ensures
        r is Some <==> directory_ok(data@),
        r matches Some(m) ==> forall|tag: u32|
            #[trigger] span_of(m@, tag) == last_span(dir_records(data@), tag),
{
    if data.len() < 12 || data[0] != 0 || data[1] != 1 || data[2] != 0 || data[3] != 0 {
        return None;
    }
    let n = read_u16(data, 4).unwrap();
    let ghost recs = dir_records(data@);
    let mut out: HashMap<u32, (usize, usize)> = HashMap::new();
    let mut i: usize = 0;
    assert forall|tag: u32| #[trigger] span_of(out@, tag) == last_span(recs.take(0), tag) by {
        assert(recs.take(0).len() == 0);
    }
    while i < n as usize
        invariant
            data@.len() >= 12,
            data@[0] == 0 && data@[1] == 1 && data@[2] == 0 && data@[3] == 0,
            n == table_count(data@),
            recs == dir_records(data@),
            0 <= i <= n,
            forall|tag: u32| #[trigger] span_of(out@, tag) == last_span(recs.take(i as int), tag),
            forall|k: int| 0 <= k < i ==> #[trigger] record_ok(data@, k),
        decreases n - i,
    {
        let at: usize = 12 + i * 16;
        if at + 16 > data.len() {
            assert(!record_ok(data@, i as int));
            return None;
        }
        if !is_utf8(&data[at..at + 4]) {
            assert(!record_ok(data@, i as int));
            return None;
        }
        let tag = read_u32(data, at).unwrap();
        let off = read_u32(data, at + 8).unwrap();
        let len = read_u32(data, at + 12).unwrap();
        let ghost before = out@;
        out.insert(tag, (off as usize, len as usize));
        proof {
            let t1 = recs.take(i + 1);
            assert(t1.drop_last() =~= recs.take(i as int));
            assert(t1.last() == record(data@, i as int));
            assert(record(data@, i as int) == (tag, off as usize, len as usize));
            assert forall|t: u32| #[trigger] span_of(out@, t) == last_span(t1, t) by {
                if t != tag {
                    assert(span_of(before, t) == last_span(recs.take(i as int), t));
                }
            }
        }
        i = i + 1;
    }
    assert(recs.take(i as int) =~= recs);
    Some(out)
}

/// The span `m` holds for `tag`, if any.
pub open spec fn span_of(m: Map<u32, (usize, usize)>, tag: u32) -> Option<(usize, usize)> {
    if m.contains_key(tag) {
        Some(m[tag])
    } else {
        None
    }
}

/// The span of the last table tagged `tag`: a later record wins over an
/// earlier one with the same tag.
pub open spec fn last_span(v: Seq<(u32, usize, usize)>, tag: u32) -> Option<(usize, usize)>
    decreases v.len(),
{
    if v.len() == 0 {
        None
    } else if v.last().0 == tag {
        Some((v.last().1, v.last().2))
    } else {
        last_span(v.drop_last(), tag)
    }
}

/// The table tagged `tag`, as `(offset, length)`.
fn find_table(dir: &HashMap<u32, (usize, usize)>, tag: u32) -> (r: Option<(usize, usize)>)
    ensures
        r == span_of(dir@, tag),
{
    match dir.get(&tag) {
        Some(s) => Some(*s),
        None => None,
    }
}

} // verus!

verus! {

/// A run of consecutive code points mapped to consecutive glyph ids.
#[derive(Clone, Copy, Debug, PartialEq, Eq, Structural)]
pub struct Group {
    pub start: u32,
    pub end: u32,
    pub glyph: u32,
}

/// The group record at `o`.
pub open spec fn group_at(c: Seq<u8>, o: int) -> Group {
    Group { start: be32(c, o) as u32, end: be32(c, o + 4) as u32, glyph: be32(c, o + 8) as u32 }
}

/// The groups of the format-12 subtable at `sub`, if they are all there.
pub open spec fn subtable_groups(c: Seq<u8>, sub: int) -> Option<Seq<Group>> {
    if sub + 16 > c.len() {
        None
    } else if sub + 16 + 12 * be32(c, sub + 12) > c.len() {
        None
    } else {
        Some(Seq::new(be32(c, sub + 12) as nat, |g: int| group_at(c, sub + 16 + 12 * g)))
    }
}

/// The subtable offset given by the `i`th encoding record.
pub open spec fn encoding_sub(c: Seq<u8>, i: int) -> int {
    be32(c, 4 + 8 * i + 4)
}

/// Scanning the encoding records from the `i`th: the first record whose
/// subtable has format 12 gives the groups; a record or subtable format
/// that is cut short ends the scan with nothing.
pub open spec fn cmap_scan(c: Seq<u8>, i: int) -> Option<Seq<Group>>
    decreases be16(c, 2) - i,
{
    if i < 0 || i >= be16(c, 2) {
        None
    } else if 4 + 8 * i + 8 > c.len() {
        None
    } else if encoding_sub(c, i) + 2 > c.len() {
        None
    } else if be16(c, encoding_sub(c, i)) != 12 {
        cmap_scan(c, i + 1)
    } else {
        subtable_groups(c, encoding_sub(c, i))
    }
}

/// The code point groups of a `cmap` table.
pub open spec fn cmap_spec(c: Seq<u8>) -> Option<Seq<Group>> {
    if c.len() < 4 {
        None
    } else {
        cmap_scan(c, 0)
    }
}

/// The encoding record `i` of `c` and the format field of its subtable
/// are there to be read.
pub open spec fn record_readable(c: Seq<u8>, i: int) -> bool {
    4 + 8 * i + 8 <= c.len() && encoding_sub(c, i) + 2 <= c.len()
}

/// The code point groups of a `cmap` table are those of the subtable of
/// its first encoding record whose subtable has format 12: records whose
/// subtables have other formats are passed over, so long as they can be
/// read.
pub proof fn law_cmap_first_format12(c: Seq<u8>, j: int)
    requires
        c.len() >= 4,
        0 <= j < be16(c, 2),
        forall|i: int| 0 <= i <= j ==> #[trigger] record_readable(c, i),
        forall|i: int| 0 <= i < j ==> be16(c, #[trigger] encoding_sub(c, i)) != 12,
        be16(c, encoding_sub(c, j)) == 12,
    ensures
        cmap_spec(c) == subtable_groups(c, encoding_sub(c, j)),
{
    lemma_scan_reaches(c, j, 0);
}

proof fn lemma_scan_reaches(c: Seq<u8>, j: int, i: int)
    requires
        0 <= i <= j < be16(c, 2),
        forall|k: int| 0 <= k <= j ==> #[trigger] record_readable(c, k),
        forall|k: int| 0 <= k < j ==> be16(c, #[trigger] encoding_sub(c, k)) != 12,
        be16(c, encoding_sub(c, j)) == 12,
    ensures
        cmap_scan(c, i) == subtable_groups(c, encoding_sub(c, j)),
    decreases j - i,
{
    assert(record_readable(c, i));
    if i < j {
        assert(be16(c, encoding_sub(c, i)) != 12);
        lemma_scan_reaches(c, j, i + 1);
    }
}

/// The groups of the format-12 subtable at `sub`.
fn groups_at(cmap: &[u8], sub: usize) -> (r: Option<Vec<Group>>)
    ensures
        r matches Some(v) ==> subtable_groups(cmap@, sub as int) == Some(v@),
        r is None ==> subtable_groups(cmap@, sub as int) is None,
{
    if sub > cmap.len() || cmap.len() - sub < 16 {
        return None;
    }
    let ng = read_u32(cmap, sub + 12).unwrap();
    if (cmap.len() - sub - 16) / 12 < ng as usize {
        return None;
    }
    let ghost want = Seq::new(ng as nat, |g: int| group_at(cmap@, sub + 16 + 12 * g));
    let mut groups: Vec<Group> = Vec::new();
    let mut g: usize = 0;
    while g < ng as usize
        invariant
            0 <= g <= ng,
            sub + 16 + 12 * ng <= cmap@.len(),
            cmap@.len() == cmap.len(),
            ng == be32(cmap@, sub + 12),
            want == Seq::new(ng as nat, |g: int| group_at(cmap@, sub + 16 + 12 * g)),
            groups@ == want.take(g as int),
        decreases ng - g,
    {
        let o: usize = sub + 16 + g * 12;
        let start = read_u32(cmap, o).unwrap();
        let end = read_u32(cmap, o + 4).unwrap();
        let glyph = read_u32(cmap, o + 8).unwrap();
        groups.push(Group { start, end, glyph });
        g = g + 1;
        assert(groups@ =~= want.take(g as int));
    }
    assert(want.take(ng as int) =~= want);
    Some(groups)
}

/// The code point groups of the first format-12 subtable of a `cmap` table.
pub fn cmap_groups(cmap: &[u8]) -> (r: Option<Vec<Group>>)
    ensures
        r matches Some(v) ==> cmap_spec(cmap@) == Some(v@),
        r is None ==> cmap_spec(cmap@) is None,
{
    let n = match read_u16(cmap, 2) {
        Some(n) => n,
        None => {
            return None;
        },
    };
    let mut i: usize = 0;
    while i < n as usize
        invariant
            cmap@.len() >= 4,
            n == be16(cmap@, 2),
            0 <= i <= n,
            cmap_scan(cmap@, 0) == cmap_scan(cmap@, i as int),
        decreases n - i,
    {
        let at: usize = 4 + i * 8;
        let sub = match read_u32(cmap, at + 4) {
            Some(v) => v as usize,
            None => {
                return None;
            },
        };
        let format = match read_u16(cmap, sub) {
            Some(v) => v,
            None => {
                return None;
            },
        };
        if format != 12 {
            i = i + 1;
            continue;
        }
        return groups_at(cmap, sub);
    }
    None
}

} // verus!

verus! {

/// Group ends never decrease: how a well-formed `cmap` lists its groups.
pub open spec fn ends_sorted(groups: Seq<Group>) -> bool {
    forall|i: int, j: int| 0 <= i <= j < groups.len() ==> groups[i].end <= groups[j].end
}

/// `i` splits `groups` into those ending before `cp` and those reaching it.
pub open spec fn splits_at(groups: Seq<Group>, cp: u32, i: int) -> bool {
    &&& 0 <= i <= groups.len()
    &&& forall|k: int| 0 <= k < i ==> (#[trigger] groups[k]).end < cp
    &&& forall|k: int| i <= k < groups.len() ==> (#[trigger] groups[k]).end >= cp
}

/// The glyph id of `cp` in group `g`, if `g` holds `cp` and the id fits in 16 bits.
pub open spec fn glyph_in(g: Group, cp: u32) -> Option<u16> {
    if g.start <= cp && cp <= g.end && g.glyph + (cp - g.start) <= 0xFFFF {
        Some((g.glyph + (cp - g.start)) as u16)
    } else {
        None
    }
}

/// The glyph id of `cp`, read from the first group that reaches `cp`.
pub open spec fn glyph_spec(groups: Seq<Group>, cp: u32) -> Option<u16> {
    let i = choose|i: int| splits_at(groups, cp, i);
    if 0 <= i < groups.len() {
        glyph_in(groups[i], cp)
    } else {
        None
    }
}

/// There is at most one split point.
pub proof fn lemma_split_unique(groups: Seq<Group>, cp: u32, i: int, j: int)
    requires
        splits_at(groups, cp, i),
        splits_at(groups, cp, j),
    ensures
        i == j,
{
    if i < j {
        assert(groups[i].end < cp);
    } else if j < i {
        assert(groups[j].end < cp);
    }
}

/// The glyph id of code point `cp`: a binary search for the first group
/// whose end reaches `cp`. On groups listed out of order (which a
/// well-formed font never does) the answer still comes from a group
/// holding `cp`.
pub fn glyph_id(groups: &[Group], cp: u32) -> (r: Option<u16>)
    ensures
        ends_sorted(groups@) ==> r == glyph_spec(groups@, cp),
        r matches Some(gid) ==> exists|k: int|
            0 <= k < groups@.len() && glyph_in(#[trigger] groups@[k], cp) == Some(gid),
{
    let mut lo: usize = 0;
    let mut hi: usize = groups.len();
    while lo < hi
        invariant
            0 <= lo <= hi <= groups@.len(),
            ends_sorted(groups@) ==> forall|k: int| 0 <= k < lo ==> (#[trigger] groups@[k]).end < cp,
            ends_sorted(groups@) ==> forall|k: int|
                hi <= k < groups@.len() ==> (#[trigger] groups@[k]).end >= cp,
        decreases hi - lo,
    {
        let mid = lo + (hi - lo) / 2;
        if groups[mid].end < cp {
            proof {
                if ends_sorted(groups@) {
                    assert forall|k: int| 0 <= k <= mid implies (#[trigger] groups@[k]).end < cp by {
                        assert(groups@[k].end <= groups@[mid as int].end);
                    }
                }
            }
            lo = mid + 1;
        } else {
            proof {
                if ends_sorted(groups@) {
                    assert forall|k: int| mid <= k < groups@.len() implies (#[trigger] groups@[k]).end
                        >= cp by {
                        assert(groups@[mid as int].end <= groups@[k].end);
                    }
                }
            }
            hi = mid;
        }
    }
    proof {
        if ends_sorted(groups@) {
            assert(splits_at(groups@, cp, lo as int));
            let i = choose|i: int| splits_at(groups@, cp, i);
            lemma_split_unique(groups@, cp, i, lo as int);
        }
    }
    if lo >= groups.len() {
        return None;
    }
    let g = groups[lo];
    if cp < g.start || cp > g.end {
        return None;
    }
    let id: u64 = g.glyph as u64 + (cp - g.start) as u64;
    if id > 0xFFFF {
        return None;
    }
    assert(glyph_in(groups@[lo as int], cp) == Some(id as u16));
    Some(id as u16)
}

} // verus!

verus! {

/// The bitmap span of glyph `gid` in the `CBLC` index subtable at `base`
/// (index format 1, image format 17), covering glyphs `first..`.
pub open spec fn subtable_span(c: Seq<u8>, gid: int, first: int, base: int) -> Option<(int, int)> {
    let idx = gid - first;
    if base + 2 > c.len() || be16(c, base) != 1 {
        None
    } else if base + 4 > c.len() || be16(c, base + 2) != 17 {
        None
    } else if base + 16 + 4 * idx > c.len() {
        None
    } else if be32(c, base + 12 + 4 * idx) < be32(c, base + 8 + 4 * idx) {
        None
    } else {
        Some(
            (
                be32(c, base + 4) + be32(c, base + 8 + 4 * idx),
                be32(c, base + 12 + 4 * idx) - be32(c, base + 8 + 4 * idx),
            ),
        )
    }
}

/// Scanning the index subtable array at `arr` from the `i`th entry: the
/// first entry whose glyph range holds `gid` decides; an entry cut short
/// ends the scan with nothing.
pub open spec fn locate_scan(c: Seq<u8>, gid: int, arr: int, nsub: int, i: int) -> Option<(int, int)>
    decreases nsub - i,
{
    if i < 0 || i >= nsub {
        None
    } else if arr + 8 * i + 4 > c.len() {
        None
    } else if gid < be16(c, arr + 8 * i) || gid > be16(c, arr + 8 * i + 2) {
        locate_scan(c, gid, arr, nsub, i + 1)
    } else if arr + 8 * i + 8 > c.len() {
        None
    } else {
        subtable_span(c, gid, be16(c, arr + 8 * i), arr + be32(c, arr + 8 * i + 4))
    }
}

/// Where the bitmap of glyph `gid` lies in the `CBDT` table, as
/// `(offset, length)`, according to the `CBLC` table `c`.
pub open spec fn locate_spec(c: Seq<u8>, gid: int) -> Option<(int, int)> {
    if c.len() < 20 {
        None
    } else {
        locate_scan(c, gid, be32(c, 8), be32(c, 16), 0)
    }
}

/// A located span has a length that is not negative.
proof fn lemma_scan_nonneg(c: Seq<u8>, gid: int, arr: int, nsub: int, i: int)
    ensures
        locate_scan(c, gid, arr, nsub, i) matches Some(p) ==> p.1 >= 0,
    decreases nsub - i,
{
    if 0 <= i < nsub && arr + 8 * i + 4 <= c.len() && (gid < be16(c, arr + 8 * i) || gid > be16(
        c,
        arr + 8 * i + 2,
    )) {
        lemma_scan_nonneg(c, gid, arr, nsub, i + 1);
    }
}

/// The glyph span in the index subtable at `base`.
fn subtable_entry(cblc: &[u8], gid: u16, first: u16, base: usize) -> (r: Option<(usize, usize)>)
    requires
        first <= gid,
        base <= cblc@.len(),
    ensures
        r matches Some(p) ==> subtable_span(cblc@, gid as int, first as int, base as int) == Some(
            (p.0 as int, p.1 as int),
        ),
        r is None ==> subtable_span(cblc@, gid as int, first as int, base as int) is None
            || subtable_span(cblc@, gid as int, first as int, base as int).unwrap().0 > usize::MAX,
{
    let len = cblc.len();
    match read_u16(cblc, base) {
        Some(f) => {
            if f != 1 {
                return None;
            }
        },
        None => {
            return None;
        },
    }
    if len - base < 4 {
        return None;
    }
    if read_u16(cblc, base + 2).unwrap() != 17 {
        return None;
    }
    let idx: usize = (gid - first) as usize;
    if len - base < 16 || (len - base - 16) / 4 < idx {
        return None;
    }
    let image_off = read_u32(cblc, base + 4).unwrap();
    let o1 = read_u32(cblc, base + 8 + idx * 4).unwrap();
    let o2 = read_u32(cblc, base + 12 + idx * 4).unwrap();
    if o2 < o1 {
        return None;
    }
    if image_off as usize > usize::MAX - o1 as usize {
        return None;
    }
    Some((image_off as usize + o1 as usize, (o2 - o1) as usize))
}

/// Where the bitmap of glyph `gid` lies in the `CBDT` table, as
/// `(offset, length)`, according to the `CBLC` table.
pub fn locate(cblc: &[u8], gid: u16) -> (r: Option<(usize, usize)>)
    ensures
        r matches Some(p) ==> locate_spec(cblc@, gid as int) == Some((p.0 as int, p.1 as int)),
        r is None ==> locate_spec(cblc@, gid as int) is None || locate_spec(cblc@, gid as int).unwrap().0
            > usize::MAX,
{
    let nsub = match read_u32(cblc, 16) {
        Some(v) => v,
        None => {
            return None;
        },
    };
    let arr = read_u32(cblc, 8).unwrap() as usize;
    let len = cblc.len();
    let mut i: u32 = 0;
    while i < nsub
        invariant
            len == cblc@.len(),
            len >= 20,
            nsub == be32(cblc@, 16),
            arr == be32(cblc@, 8),
            0 <= i <= nsub,
            locate_spec(cblc@, gid as int) == locate_scan(cblc@, gid as int, arr as int, nsub as int, i as int),
        decreases nsub - i,
    {
        if arr > len || (len - arr) / 8 < i as usize || len - arr - 8 * (i as usize) < 4 {
            return None;
        }
        let ent: usize = arr + 8 * (i as usize);
        let first = read_u16(cblc, ent).unwrap();
        let last = read_u16(cblc, ent + 2).unwrap();
        if gid < first || gid > last {
            i = i + 1;
            continue;
        }
        if len - ent < 8 {
            return None;
        }
        let off = read_u32(cblc, ent + 4).unwrap() as usize;
        if off > len - arr {
            return None;
        }
        return subtable_entry(cblc, gid, first, arr + off);
    }
    None
}

} // verus!

verus! {

/// The tag of the character-to-glyph table, `cmap`.
pub const TAG_CMAP: u32 = 0x636d_6170;

/// The tag of the colour bitmap location table, `CBLC`.
pub const TAG_CBLC: u32 = 0x4342_4c43;

/// The tag of the colour bitmap data table, `CBDT`.
pub const TAG_CBDT: u32 = 0x4342_4454;

/// Longest side, in pixels, of a decoded icon.
pub const TEX_SIDE: u32 = 72;

/// A code point `char::from_u32` accepts: not past the last plane and
/// not a surrogate.
pub open spec fn is_char_code(cp: u32) -> bool {
    cp < 0xD800 || (0xE000 <= cp && cp <= 0x10FFFF)
}

/// `char::from_u32`: the standard library documents that it gives the
/// `char` with code `cp` exactly when `cp` is a Unicode scalar value.
#[verifier::external_body]
fn char_from_u32(cp: u32) -> (r: Option<char>)
    ensures
        r is Some <==> is_char_code(cp),
        r matches Some(c) ==> c as u32 == cp && c == cp as char,
{
    char::from_u32(cp)
}

/// The directory records of a font file, in order.
pub open spec fn dir_records(d: Seq<u8>) -> Seq<(u32, usize, usize)> {
    Seq::new(table_count(d) as nat, |i: int| record(d, i))
}

/// The bytes of the table at `span`.
pub open spec fn table_bytes(d: Seq<u8>, span: (usize, usize)) -> Seq<u8> {
    d.subrange(span.0 as int, span.0 + span.1)
}

/// `span` lies inside `d`.
pub open spec fn span_in(d: Seq<u8>, span: (usize, usize)) -> bool {
    span.0 + span.1 <= d.len()
}

/// What a colour-emoji font file yields: the `cmap` groups and the spans
/// of the `CBLC` and `CBDT` tables; nothing when a table is missing, the
/// `cmap` has no complete format-12 subtable, or a table lies outside the file.
pub open spec fn font_spec(d: Seq<u8>) -> Option<(Seq<Group>, (usize, usize), (usize, usize))> {
    if !directory_ok(d) {
        None
    } else {
        let recs = dir_records(d);
        match (last_span(recs, TAG_CMAP), last_span(recs, TAG_CBLC), last_span(recs, TAG_CBDT)) {
            (Some(cm), Some(lc), Some(dt)) => {
                if !span_in(d, cm) {
                    None
                } else {
                    match cmap_spec(table_bytes(d, cm)) {
                        Some(groups) => {
                            if span_in(d, lc) && span_in(d, dt) {
                                Some((groups, lc, dt))
                            } else {
                                None
                            }
                        },
                        None => None,
                    }
                }
            },
            _ => None,
        }
    }
}

/// A colour-emoji font held in memory, with its glyph map read.
pub struct FontBytes {
    data: Vec<u8>,
    groups: Vec<Group>,
    cblc: (usize, usize),
    cbdt: (usize, usize),
}

impl FontBytes {
    pub closed spec fn bytes(&self) -> Seq<u8> {
        self.data@
    }

    pub closed spec fn group_list(&self) -> Seq<Group> {
        self.groups@
    }

    pub closed spec fn cblc_span(&self) -> (usize, usize) {
        self.cblc
    }

    pub closed spec fn cbdt_span(&self) -> (usize, usize) {
        self.cbdt
    }

    /// The font's parts as `font_spec` reads them from its bytes.
    pub closed spec fn wf(&self) -> bool {
        font_spec(self.data@) == Some((self.groups@, self.cblc, self.cbdt))
    }

    /// Both bitmap tables of a well-formed font lie inside its bytes.
    pub proof fn lemma_spans_inside(&self)
        requires
            self.wf(),
        ensures
            span_in(self.bytes(), self.cblc_span()),
            span_in(self.bytes(), self.cbdt_span()),
    {
        let d = self.data@;
        let recs = dir_records(d);
        let cm = last_span(recs, TAG_CMAP).unwrap();
        assert(cmap_spec(table_bytes(d, cm)) is Some);
    }

    /// The `CBLC` table's bytes.
    pub open spec fn cblc_bytes(&self) -> Seq<u8> {
        table_bytes(self.bytes(), self.cblc_span())
    }

    /// The `CBDT` table's bytes.
    pub open spec fn cbdt_bytes(&self) -> Seq<u8> {
        table_bytes(self.bytes(), self.cbdt_span())
    }

    /// Reads the tables of a font file.
    pub fn parse(data: Vec<u8>) -> (r: Option<Self>)
        ensures
            r is Some <==> font_spec(data@) is Some,
            r matches Some(f) ==> f.wf() && f.bytes() == data@,
    {
        let dir = match tables(data.as_slice()) {
            Some(t) => t,
            None => {
                return None;
            },
        };
        let cm = match find_table(&dir, TAG_CMAP) {
            Some(s) => s,
            None => {
                return None;
            },
        };
        let lc = match find_table(&dir, TAG_CBLC) {
            Some(s) => s,
            None => {
                return None;
            },
        };
        let dt = match find_table(&dir, TAG_CBDT) {
            Some(s) => s,
            None => {
                return None;
            },
        };
        let groups = match slice(data.as_slice(), cm) {
            Some(cmap) => match cmap_groups(cmap) {
                Some(g) => g,
                None => {
                    return None;
                },
            },
            None => {
                return None;
            },
        };
        if lc.0 > data.len() || data.len() - lc.0 < lc.1 || dt.0 > data.len() || data.len() - dt.0
            < dt.1 {
            return None;
        }
        Some(FontBytes { data, groups, cblc: lc, cbdt: dt })
    }

    /// The `CBLC` table.
    pub fn cblc(&self) -> (r: &[u8])
        requires
            self.wf(),
        ensures
            r@ == self.cblc_bytes(),
    {
        proof {
            self.lemma_spans_inside();
        }
        let d = self.data.as_slice();
        match slice(d, self.cblc) {
            Some(s) => s,
            None => &d[0..0],
        }
    }

    /// The `CBDT` table.
    pub fn cbdt(&self) -> (r: &[u8])
        requires
            self.wf(),
        ensures
            r@ == self.cbdt_bytes(),
    {
        proof {
            self.lemma_spans_inside();
        }
        let d = self.data.as_slice();
        match slice(d, self.cbdt) {
            Some(s) => s,
            None => &d[0..0],
        }
    }
}

} // verus!

verus! {

/// Code point `cp` has a colour bitmap worth listing: it is usable, it is
/// a `char`, and the font maps it to a glyph whose bitmap it can locate.
pub open spec fn keeps(groups: Seq<Group>, cblc: Seq<u8>, cp: u32) -> bool {
    &&& usable_cp(cp)
    &&& is_char_code(cp)
    &&& glyph_spec(groups, cp) is Some
    &&& locate_spec(cblc, glyph_spec(groups, cp).unwrap() as int) matches Some(p)
    &&& p.0 <= usize::MAX
}

/// The kept code points of `lo..hi`, in order, as `char`s.
pub open spec fn range_kept(groups: Seq<Group>, cblc: Seq<u8>, lo: int, hi: int) -> Seq<char>
    decreases hi - lo,
{
    if hi <= lo {
        seq![]
    } else {
        range_kept(groups, cblc, lo, hi - 1) + if keeps(groups, cblc, (hi - 1) as u32) {
            seq![(hi - 1) as char]
        } else {
            seq![]
        }
    }
}

/// The kept code points of the first `n` groups, group by group.
pub open spec fn listed(groups: Seq<Group>, cblc: Seq<u8>, n: int) -> Seq<char>
    decreases n,
{
    if n <= 0 {
        seq![]
    } else {
        listed(groups, cblc, n - 1) + range_kept(
            groups,
            cblc,
            groups[n - 1].start as int,
            groups[n - 1].end + 1,
        )
    }
}

impl FontBytes {
    /// Every `char` with a colour bitmap, group by group in `cmap` order.
    pub fn list_chars(&self) -> (r: Vec<char>)
        requires
            self.wf(),
        ensures
            ends_sorted(self.group_list()) ==> r@ == listed(
                self.group_list(),
                self.cblc_bytes(),
                self.group_list().len() as int,
            ),
            forall|k: int|
                0 <= k < r@.len() ==> usable_cp(#[trigger] r@[k] as u32) && is_char_code(
                    r@[k] as u32,
                ),
    {
        let cblc = self.cblc();
        let groups = self.groups.as_slice();
        let ghost gs = self.group_list();
        let ghost c = self.cblc_bytes();
        let mut out: Vec<char> = Vec::new();
        let mut gi: usize = 0;
        while gi < groups.len()
            invariant
                groups@ == gs,
                cblc@ == c,
                0 <= gi <= gs.len(),
                ends_sorted(gs) ==> out@ == listed(gs, c, gi as int),
                forall|k: int|
                    0 <= k < out@.len() ==> usable_cp(#[trigger] out@[k] as u32) && is_char_code(
                        out@[k] as u32,
                    ),
            decreases gs.len() - gi,
        {
            let g = groups[gi];
            let ghost before = out@;
            let mut cp: u64 = g.start as u64;
            while cp <= g.end as u64
                invariant
                    groups@ == gs,
                    cblc@ == c,
                    0 <= gi < gs.len(),
                    g == gs[gi as int],
                    g.start <= cp,
                    cp <= g.end as int + 1 || cp == g.start,
                    ends_sorted(gs) ==> out@ == before + range_kept(gs, c, g.start as int, cp as int),
                    forall|k: int|
                        0 <= k < out@.len() ==> usable_cp(#[trigger] out@[k] as u32) && is_char_code(
                            out@[k] as u32,
                        ),
                decreases g.end as int + 1 - cp,
            {
                let code = cp as u32;
                let ghost prev = out@;
                if usable(code) {
                    if let Some(ch) = char_from_u32(code) {
                        if let Some(gid) = glyph_id(groups, code) {
                            if locate(cblc, gid).is_some() {
                                out.push(ch);
                            }
                        }
                    }
                }
                proof {
                    if ends_sorted(gs) {
                        assert(range_kept(gs, c, g.start as int, cp + 1) == range_kept(
                            gs,
                            c,
                            g.start as int,
                            cp as int,
                        ) + if keeps(gs, c, code) {
                            seq![code as char]
                        } else {
                            seq![]
                        });
                        if keeps(gs, c, code) {
                            assert(out@ =~= prev.push(code as char));
                        } else {
                            assert(out@ =~= prev);
                        }
                        assert(out@ =~= before + range_kept(gs, c, g.start as int, cp + 1));
                    }
                }
                cp = cp + 1;
            }
            proof {
                if ends_sorted(gs) {
                    if g.start > g.end {
                        assert(range_kept(gs, c, g.start as int, g.end + 1) =~= Seq::<char>::empty());
                        assert(range_kept(gs, c, g.start as int, cp as int) =~= Seq::<char>::empty());
                    }
                    assert(out@ =~= listed(gs, c, gi + 1));
                }
            }
            gi = gi + 1;
        }
        out
    }
}

} // verus!

verus! {

/// An icon ready to draw: `width × height` pixels, four RGBA bytes each.
#[derive(Clone, Debug)]
pub struct Glyph {
    pub width: usize,
    pub height: usize,
    pub rgba: Vec<u8>,
}

/// A side `v` of an image whose longer side `m` shrinks to `TEX_SIDE`,
/// rounded half up, and at least 1.
pub open spec fn fit_side(v: int, m: int) -> int {
    let s = (2 * TEX_SIDE * v + m) / (2 * m);
    if s < 1 {
        1
    } else {
        s
    }
}

fn fitted(v: u32, m: u32) -> (r: u32)
    requires
        v <= m,
        1 <= m,
    ensures
        r == fit_side(v as int, m as int),
        1 <= r <= TEX_SIDE,
{
    let s: u64 = (2 * TEX_SIDE as u64 * v as u64 + m as u64) / (2 * m as u64);
    assert(s <= TEX_SIDE) by (nonlinear_arith)
        requires
            v <= m,
            1 <= m,
            s == (2 * 72 * v + m) / (2 * m),
    ;
    if s < 1 {
        1
    } else {
        s as u32
    }
}

/// The PNG strip of glyph bitmap `blob` (image format 17): a 4-byte
/// length at offset 5, then the data from offset 9.
pub open spec fn strip_png(blob: Seq<u8>) -> Option<Seq<u8>> {
    if blob.len() < 9 || 9 + be32(blob, 5) > blob.len() {
        None
    } else {
        Some(blob.subrange(9, 9 + be32(blob, 5)))
    }
}

/// The PNG bytes of `cp`'s bitmap.
pub open spec fn png_spec(groups: Seq<Group>, cblc: Seq<u8>, cbdt: Seq<u8>, cp: u32) -> Option<Seq<u8>> {
    match glyph_spec(groups, cp) {
        None => None,
        Some(gid) => match locate_spec(cblc, gid as int) {
            None => None,
            Some(p) => if p.0 + p.1 > cbdt.len() {
                None
            } else {
                strip_png(cbdt.subrange(p.0, p.0 + p.1))
            },
        },
    }
}

/// The icon made from decoded pixels: as they are when neither side
/// passes `TEX_SIDE`, else shrunk so the longer side is `TEX_SIDE`.
pub open spec fn icon_of(d: (u32, u32, Seq<u8>)) -> (int, int, Seq<u8>) {
    let (w, h, px) = d;
    if w > TEX_SIDE || h > TEX_SIDE {
        let m = if w >= h { w } else { h };
        let nw = fit_side(w as int, m as int);
        let nh = fit_side(h as int, m as int);
        (nw, nh, resized_rgba(px, w, h, nw as u32, nh as u32))
    } else {
        (w as int, h as int, px)
    }
}

/// The icon of `cp`, when its PNG strip is there and decodes.
pub open spec fn icon_spec(groups: Seq<Group>, cblc: Seq<u8>, cbdt: Seq<u8>, cp: u32) -> Option<(int, int, Seq<u8>)> {
    match png_spec(groups, cblc, cbdt, cp) {
        None => None,
        Some(png) => match decoded_rgba(png) {
            None => None,
            Some(d) => Some(icon_of(d)),
        },
    }
}

pub open spec fn glyph_view(g: Glyph) -> (int, int, Seq<u8>) {
    (g.width as int, g.height as int, g.rgba@)
}

/// An icon of at most `TEX_SIDE` pixels a side, four bytes each.
pub open spec fn glyph_ok(g: Glyph) -> bool {
    &&& g.width <= TEX_SIDE
    &&& g.height <= TEX_SIDE
    &&& g.rgba@.len() == 4 * g.width * g.height
}

impl FontBytes {
    /// The icon of code point `cp`.
    pub open spec fn icon(&self, cp: u32) -> Option<(int, int, Seq<u8>)> {
        icon_spec(self.group_list(), self.cblc_bytes(), self.cbdt_bytes(), cp)
    }

    /// Decodes the colour bitmap of `ch`, shrunk to at most `TEX_SIDE`
    /// pixels a side.
    pub fn decode(&self, ch: char) -> (r: Option<Glyph>)
        requires
            self.wf(),
        ensures
            ends_sorted(self.group_list()) ==> match r {
                Some(g) => self.icon(ch as u32) == Some(glyph_view(g)),
                None => self.icon(ch as u32) is None,
            },
            r matches Some(g) ==> glyph_ok(g),
    {
        let cp = ch as u32;
        let cbdt = self.cbdt();
        let cbdt_len = cbdt.len();
        let gid = match glyph_id(self.groups.as_slice(), cp) {
            Some(g) => g,
            None => {
                return None;
            },
        };
        let (off, len) = match locate(self.cblc(), gid) {
            Some(p) => p,
            None => {
                proof {
                    if self.cblc_bytes().len() >= 20 {
                        let c = self.cblc_bytes();
                        lemma_scan_nonneg(c, gid as int, be32(c, 8), be32(c, 16), 0);
                    }
                }
                return None;
            },
        };
        let blob = match slice(cbdt, (off, len)) {
            Some(b) => b,
            None => {
                return None;
            },
        };
        let dlen = match read_u32(blob, 5) {
            Some(v) => v as usize,
            None => {
                return None;
            },
        };
        let png = match slice(blob, (9, dlen)) {
            Some(p) => p,
            None => {
                return None;
            },
        };
        let (w, h, px) = match decode_rgba(png) {
            Some(d) => d,
            None => {
                return None;
            },
        };
        if w > TEX_SIDE || h > TEX_SIDE {
            let m = if w >= h { w } else { h };
            let nw = fitted(w, m);
            let nh = fitted(h, m);
            let rgba = resize_triangle(px, w, h, nw, nh);
            assert(rgba@.len() == 4 * nw * nh) by (nonlinear_arith)
                requires
                    rgba@.len() == nw * nh * 4,
            ;
            Some(Glyph { width: nw as usize, height: nh as usize, rgba })
        } else {
            assert(px@.len() == 4 * w * h) by (nonlinear_arith)
                requires
                    px@.len() == w * h * 4,
            ;
            Some(Glyph { width: w as usize, height: h as usize, rgba: px })
        }
    }
}

} // verus!

verus! {

/// A character of `emoji` that can stand for it: not a variation
/// selector or joiner, and in the catalog.
pub open spec fn key_char(c: char, catalog: Seq<char>) -> bool {
    c != '\u{fe0f}' && c != '\u{fe0e}' && c != '\u{200d}' && catalog.contains(c)
}

/// `k` is the first place of `s` that holds a key character.
pub open spec fn first_key_at(s: Seq<char>, catalog: Seq<char>, k: int) -> bool {
    &&& 0 <= k < s.len()
    &&& key_char(s[k], catalog)
    &&& forall|j: int| 0 <= j < k ==> !key_char(#[trigger] s[j], catalog)
}

/// The character that keys the icon of `s`: its first key character.
pub open spec fn emoji_key(s: Seq<char>, catalog: Seq<char>) -> Option<char> {
    if exists|k: int| first_key_at(s, catalog, k) {
        Some(s[choose|k: int| first_key_at(s, catalog, k)])
    } else {
        None
    }
}

/// Only one place can be the first to hold a key character.
pub proof fn lemma_first_key_unique(s: Seq<char>, catalog: Seq<char>, i: int, j: int)
    requires
        first_key_at(s, catalog, i),
        first_key_at(s, catalog, j),
    ensures
        i == j,
{
    if i < j {
        assert(!key_char(s[i], catalog));
    } else if j < i {
        assert(!key_char(s[j], catalog));
    }
}

/// The icon cached for `ch`, if any.
pub open spec fn cached(cache: Map<u32, Glyph>, ch: char) -> Option<(int, int, Seq<u8>)> {
    if cache.contains_key(ch as u32) {
        Some(glyph_view(cache[ch as u32]))
    } else {
        None
    }
}

fn has_char(v: &Vec<char>, c: char) -> (r: bool)
    ensures
        r == v@.contains(c),
{
    let mut i: usize = 0;
    while i < v.len()
        invariant
            0 <= i <= v@.len(),
            forall|j: int| 0 <= j < i ==> v@[j] != c,
        decreases v.len() - i,
    {
        if v[i] == c {
            return true;
        }
        i = i + 1;
    }
    false
}

/// The colour-emoji icons the shelf can show: the catalog of every
/// available character, in `cmap` order, and the icons decoded so far.
pub struct Atlas {
    font: Option<FontBytes>,
    glyphs: HashMap<u32, Glyph>,
    catalog: Vec<char>,
}

impl Atlas {
    pub closed spec fn catalog_view(&self) -> Seq<char> {
        self.catalog@
    }

    /// The icons decoded so far, by character code.
    pub closed spec fn cache(&self) -> Map<u32, Glyph> {
        self.glyphs@
    }

    pub closed spec fn font(&self) -> Option<FontBytes> {
        self.font
    }

    pub closed spec fn wf(&self) -> bool {
        &&& self.font matches Some(f) ==> f.wf()
        &&& forall|k: u32| #[trigger] self.glyphs@.contains_key(k) ==> glyph_ok(self.glyphs@[k])
    }

    /// An atlas over the font file `bytes`; without a readable colour
    /// font it is empty.
    pub fn load(bytes: Option<Vec<u8>>) -> (a: Self)
        ensures
            a.wf(),
            a.cache() == Map::<u32, Glyph>::empty(),
            match bytes {
                Some(b) => match font_spec(b@) {
                    Some(parts) => a.font() matches Some(f) && f.bytes() == b@ && (ends_sorted(parts.0)
                        ==> a.catalog_view() == listed(parts.0, f.cblc_bytes(), parts.0.len() as int)),
                    None => a.font() is None && a.catalog_view() == Seq::<char>::empty(),
                },
                None => a.font() is None && a.catalog_view() == Seq::<char>::empty(),
            },
    {
        let empty = Atlas { font: None, glyphs: HashMap::new(), catalog: Vec::new() };
        let data = match bytes {
            Some(b) => b,
            None => {
                return empty;
            },
        };
        let font = match FontBytes::parse(data) {
            Some(f) => f,
            None => {
                return empty;
            },
        };
        let catalog = font.list_chars();
        Atlas { font: Some(font), glyphs: HashMap::new(), catalog }
    }

    /// Every available emoji, in `cmap` order.
    pub fn catalog(&self) -> (r: &[char])
        ensures
            r@ == self.catalog_view(),
    {
        self.catalog.as_slice()
    }

    /// The icon of `ch`, decoded and cached on first use.
    pub fn ensure(&mut self, ch: char) -> (r: Option<&Glyph>)
        requires
            old(self).wf(),
        ensures
            final(self).wf(),
            final(self).catalog_view() == old(self).catalog_view(),
            final(self).font() == old(self).font(),
            cached(old(self).cache(), ch) is Some ==> final(self).cache() == old(self).cache() && (r
                matches Some(g) && cached(old(self).cache(), ch) == Some(glyph_view(*g))),
            cached(old(self).cache(), ch) is None && old(self).font() is None ==> r is None
                && final(self).cache() == old(self).cache(),
            old(self).font() matches Some(f) ==> (cached(old(self).cache(), ch) is None && ends_sorted(
                f.group_list(),
            ) ==> match f.icon(ch as u32) {
                Some(v) => (r matches Some(g) && glyph_view(*g) == v && final(self).cache()
                    == old(self).cache().insert(ch as u32, *g)),
                None => r is None && final(self).cache() == old(self).cache(),
            }),
            r matches Some(g) ==> cached(final(self).cache(), ch) == Some(glyph_view(*g)),
            r matches Some(g) ==> glyph_ok(*g),
            r is None ==> final(self).cache() == old(self).cache(),
    {
        let key = ch as u32;
        if self.glyphs.contains_key(&key) {
            return self.glyphs.get(&key);
        }
        let g = match &self.font {
            Some(f) => match f.decode(ch) {
                Some(g) => g,
                None => {
                    return None;
                },
            },
            None => {
                return None;
            },
        };
        self.glyphs.insert(key, g);
        self.glyphs.get(&key)
    }

    /// The character of `emoji` that keys its icon: the first one that is
    /// no variation selector or joiner and that the catalog holds.
    pub fn key(&self, emoji: &str) -> (r: Option<char>)
        ensures
            r is None <==> forall|k: int|
                0 <= k < emoji@.len() ==> !key_char(#[trigger] emoji@[k], self.catalog_view()),
            r matches Some(c) ==> exists|k: int|
                0 <= k < emoji@.len() && emoji@[k] == c && key_char(c, self.catalog_view()) && forall|
                    j: int,
                | 0 <= j < k ==> !key_char(#[trigger] emoji@[j], self.catalog_view()),
            r == emoji_key(emoji@, self.catalog_view()),
    {
        for ch in it: emoji.chars()
            invariant
                it.seq() == emoji@,
                forall|j: int| 0 <= j < it.index() ==> !key_char(#[trigger] emoji@[j], self.catalog_view()),
        {
            if ch != '\u{fe0f}' && ch != '\u{fe0e}' && ch != '\u{200d}' && has_char(&self.catalog, ch) {
                proof {
                    let i = it.index() as int;
                    assert(first_key_at(emoji@, self.catalog_view(), i));
                    let k = choose|k: int| first_key_at(emoji@, self.catalog_view(), k);
                    lemma_first_key_unique(emoji@, self.catalog_view(), i, k);
                }
                return Some(ch);
            }
        }
        proof {
            if exists|k: int| first_key_at(emoji@, self.catalog_view(), k) {
                let k = choose|k: int| first_key_at(emoji@, self.catalog_view(), k);
                assert(!key_char(emoji@[k], self.catalog_view()));
            }
        }
        None
    }

    /// The icon of `emoji`, decoded and cached on first use.
    pub fn ensure_str(&mut self, emoji: &str) -> (r: Option<&Glyph>)
        requires
            old(self).wf(),
        ensures
            final(self).wf(),
            final(self).catalog_view() == old(self).catalog_view(),
            final(self).font() == old(self).font(),
            (forall|k: int| 0 <= k < emoji@.len() ==> !key_char(#[trigger] emoji@[k], old(self).catalog_view()))
                ==> r is None && final(self).cache() == old(self).cache(),
            r matches Some(g) ==> exists|c: char| cached(final(self).cache(), c) == Some(glyph_view(*g))
                && emoji@.contains(c),
            r matches Some(g) ==> glyph_ok(*g),
            match emoji_key(emoji@, old(self).catalog_view()) {
                None => r is None && final(self).cache() == old(self).cache(),
                Some(ch) => {
                    &&& cached(old(self).cache(), ch) is Some ==> final(self).cache() == old(self).cache()
                        && (r matches Some(g) && cached(old(self).cache(), ch) == Some(glyph_view(*g)))
                    &&& cached(old(self).cache(), ch) is None && old(self).font() is None ==> r is None
                        && final(self).cache() == old(self).cache()
                    &&& old(self).font() matches Some(f) ==> (cached(old(self).cache(), ch) is None
                        && ends_sorted(f.group_list()) ==> match f.icon(ch as u32) {
                        Some(v) => (r matches Some(g) && glyph_view(*g) == v && final(self).cache()
                            == old(self).cache().insert(ch as u32, *g)),
                        None => r is None && final(self).cache() == old(self).cache(),
                    })
                    &&& r matches Some(g) ==> cached(final(self).cache(), ch) == Some(glyph_view(*g))
                },
            },
    {
        let ch = match self.key(emoji) {
            Some(c) => c,
            None => {
                return None;
            },
        };
        proof {
            let k = choose|k: int|
                0 <= k < emoji@.len() && emoji@[k] == ch && key_char(ch, self.catalog_view()) && forall|
                    j: int,
                | 0 <= j < k ==> !key_char(#[trigger] emoji@[j], self.catalog_view());
            assert(emoji@.contains(ch));
        }
        self.ensure(ch)
    }

    /// The icon of `emoji` if it has been decoded already.
    pub fn get(&self, emoji: &str) -> (r: Option<&Glyph>)
        requires
            self.wf(),
        ensures
            (forall|k: int| 0 <= k < emoji@.len() ==> !key_char(#[trigger] emoji@[k], self.catalog_view()))
                ==> r is None,
            r matches Some(g) ==> exists|c: char| cached(self.cache(), c) == Some(glyph_view(*g))
                && emoji@.contains(c),
            r matches Some(g) ==> glyph_ok(*g),
            match emoji_key(emoji@, self.catalog_view()) {
                None => r is None,
                Some(ch) => match r {
                    Some(g) => cached(self.cache(), ch) == Some(glyph_view(*g)),
                    None => cached(self.cache(), ch) is None,
                },
            },
    {
        let ch = match self.key(emoji) {
            Some(c) => c,
            None => {
                return None;
            },
        };
        proof {
            let k = choose|k: int|
                0 <= k < emoji@.len() && emoji@[k] == ch && key_char(ch, self.catalog_view()) && forall|
                    j: int,
                | 0 <= j < k ==> !key_char(#[trigger] emoji@[j], self.catalog_view());
            assert(emoji@.contains(ch));
        }
        self.glyphs.get(&(ch as u32))
    }
}

} // verus!

verus! {

/// Favourites shown first in the icon picker.
pub const FAVORITES: [&'static str; 26] = [
    "📝", "📕", "📗", "📘", "📙", "📒", "📓", "✨", "💡", "🎯", "⭐", "🔥", "🌙", "☕", "🎵",
    "📐", "🧪", "🧠", "💼", "🗂️", "📌", "🖤", "🌿", "🚀", "💎", "🔮",
];

} // verus!
