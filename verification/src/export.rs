//! Pages leave the program as PNG pictures or as a PDF of page images.

use vstd::prelude::*;
use vstd::string::StringSliceAdditionalSpecFns;
use crate::text::{chars_of, string_of};
use crate::picture::{encode_png, png_encoded};

verus! {

/// The RGB bytes of RGBA pixels `data`: alpha dropped, an incomplete last
/// pixel ignored.
pub open spec fn rgb_of(data: Seq<u8>) -> Seq<u8> {
    Seq::new((data.len() / 4 * 3) as nat, |k: int| data[(k / 3) * 4 + k % 3])
}

/// Drops the alpha byte of every whole RGBA pixel.
pub fn rgb_from_rgba(data: &[u8]) -> (r: Vec<u8>)
    ensures
        r@ == rgb_of(data@),
{
    let n = data.len() / 4;
    let mut out: Vec<u8> = Vec::new();
    let mut p: usize = 0;
    while p < n
        invariant
            n == data@.len() / 4,
            data@.len() == data.len(),
            0 <= p <= n,
            out@ == rgb_of(data@).take(3 * p as int),
        decreases n - p,
    {
        let at = 4 * p;
        out.push(data[at]);
        out.push(data[at + 1]);
        out.push(data[at + 2]);
        p = p + 1;
        proof {
            let want = rgb_of(data@).take(3 * p as int);
            assert forall|k: int| 0 <= k < 3 * p implies #[trigger] out@[k] == want[k] by {
                if k >= 3 * (p - 1) {
                    assert(k / 3 == p - 1 && k % 3 == k - 3 * (p - 1));
                }
            }
            assert(out@ =~= want);
        }
    }
    assert(rgb_of(data@).take(3 * n as int) =~= rgb_of(data@));
    out
}

/// Where a notebook's pictures are read from when its pages are drawn:
/// its media directory.
pub struct MediaLoader {
    pub root: String,
}

/// The decimal digits of `n`, most significant first.
pub open spec fn dec(n: nat) -> Seq<u8>
    decreases n,
{
    if n < 10 {
        seq![(48 + n) as u8]
    } else {
        dec(n / 10).push((48 + n % 10) as u8)
    }
}

/// `n` in decimal, padded with zeros on the left to ten digits.
pub open spec fn padded(n: nat) -> Seq<u8> {
    if dec(n).len() < 10 {
        Seq::new((10 - dec(n).len()) as nat, |k: int| 48u8) + dec(n)
    } else {
        dec(n)
    }
}

/// The parts one after another.
pub open spec fn joined(parts: Seq<Seq<u8>>) -> Seq<u8>
    decreases parts.len(),
{
    if parts.len() == 0 {
        Seq::empty()
    } else {
        joined(parts.drop_last()) + parts.last()
    }
}

proof fn lemma_joined_take(parts: Seq<Seq<u8>>, c: int)
    requires
        0 <= c < parts.len(),
    ensures
        joined(parts.take(c + 1)) == joined(parts.take(c)) + parts[c],
{
    assert(parts.take(c + 1).drop_last() =~= parts.take(c));
}

/// Appends the bytes of `b`.
fn put(out: &mut Vec<u8>, b: &[u8])
    ensures
        final(out)@ == old(out)@ + b@,
{
    let mut i: usize = 0;
    while i < b.len()
        invariant
            0 <= i <= b@.len(),
            out@ == old(out)@ + b@.take(i as int),
        decreases b.len() - i,
    {
        out.push(b[i]);
        i = i + 1;
        assert(out@ =~= old(out)@ + b@.take(i as int));
    }
    assert(b@.take(i as int) =~= b@);
}

/// Appends `n` in decimal.
fn put_dec(out: &mut Vec<u8>, n: u64)
    ensures
        final(out)@ == old(out)@ + dec(n as nat),
    decreases n,
{
    let ghost start = out@;
    if n >= 10 {
        put_dec(out, n / 10);
    }
    let d: u8 = (n % 10) as u8;
    out.push(48 + d);
    proof {
        if n >= 10 {
            assert(out@ =~= start + dec((n / 10) as nat).push((48 + n % 10) as u8));
        } else {
            assert(out@ =~= start + seq![(48 + n) as u8]);
        }
    }
}

/// Appends `n` in decimal, padded with zeros to ten digits.
fn put_padded(out: &mut Vec<u8>, n: u64)
    ensures
        final(out)@ == old(out)@ + padded(n as nat),
{
    let mut digits: Vec<u8> = Vec::new();
    put_dec(&mut digits, n);
    assert(digits@ =~= dec(n as nat));
    let ghost start = out@;
    if digits.len() < 10 {
        let mut z: usize = 0;
        while z < 10 - digits.len()
            invariant
                digits@ == dec(n as nat),
                digits@.len() < 10,
                0 <= z <= 10 - digits@.len(),
                out@ == start + Seq::new(z as nat, |k: int| 48u8),
            decreases 10 - digits.len() - z,
        {
            out.push(48);
            z = z + 1;
            assert(out@ =~= start + Seq::new(z as nat, |k: int| 48u8));
        }
    }
    let ghost mid = out@;
    put(out, digits.as_slice());
    assert(out@ =~= start + padded(n as nat));
}

/// Object `id` of a PDF file holding `payload`, closed by a line of its own.
pub open spec fn framed(id: nat, payload: Seq<u8>) -> Seq<u8> {
    dec(id) + " 0 obj\n".spec_bytes() + payload + (if payload.len() > 0 && payload.last() == 10 {
        Seq::<u8>::empty()
    } else {
        seq![10u8]
    }) + "endobj\n".spec_bytes()
}

/// Appends object `id` holding `payload`.
fn put_framed(out: &mut Vec<u8>, id: u64, payload: &[u8])
    ensures
        final(out)@ == old(out)@ + framed(id as nat, payload@),
{
    let ghost start = out@;
    put_dec(out, id);
    put(out, " 0 obj\n".as_bytes());
    put(out, payload);
    let ghost with_payload = out@;
    if !(payload.len() > 0 && payload[payload.len() - 1] == 10) {
        out.push(10);
    }
    put(out, "endobj\n".as_bytes());
    assert(out@ =~= start + framed(id as nat, payload@));
}

/// The width of every page of an exported PDF, in points, as it is
/// written into the file.
pub open spec fn page_width_text() -> Seq<u8> {
    "595.00".spec_bytes()
}

/// Object id of the picture of page `i` of `n`.
pub open spec fn image_id(n: nat, i: nat) -> nat {
    3 + n + 2 * i
}

/// Object id of the drawing instructions of page `i` of `n`.
pub open spec fn content_id(n: nat, i: nat) -> nat {
    4 + n + 2 * i
}

/// The list of the `n` page objects, `3 0 R` onwards.
pub open spec fn kids(n: nat) -> Seq<u8> {
    "[".spec_bytes() + joined(Seq::new(n, |i: int| dec((3 + i) as nat) + " 0 R ".spec_bytes()))
        + "]".spec_bytes()
}

/// The catalog object's payload.
pub open spec fn catalog_payload() -> Seq<u8> {
    "<< /Type /Catalog /Pages 2 0 R >>\n".spec_bytes()
}

/// The page tree's payload for `n` pages.
pub open spec fn pages_payload(n: nat) -> Seq<u8> {
    "<< /Type /Pages /Count ".spec_bytes() + dec(n) + " /Kids ".spec_bytes() + kids(n)
        + " >>\n".spec_bytes()
}

/// The payload of page `i` of `n`, `height` points high.
pub open spec fn page_payload(n: nat, i: nat, height: Seq<u8>) -> Seq<u8> {
    "<< /Type /Page /Parent 2 0 R /MediaBox [0 0 ".spec_bytes() + page_width_text() + " ".spec_bytes()
        + height + "] /Resources << /XObject << /Im".spec_bytes() + dec(i) + " ".spec_bytes() + dec(
        image_id(n, i),
    ) + " 0 R >> >> /Contents ".spec_bytes() + dec(content_id(n, i)) + " 0 R >>\n".spec_bytes()
}

/// The payload of a `w × h` picture whose RGB bytes compress to `packed`.
pub open spec fn image_payload(w: u32, h: u32, packed: Seq<u8>) -> Seq<u8> {
    "<< /Type /XObject /Subtype /Image /Width ".spec_bytes() + dec(w as nat) + " /Height ".spec_bytes()
        + dec(h as nat)
        + " /ColorSpace /DeviceRGB /BitsPerComponent 8 /Filter /FlateDecode /Length ".spec_bytes()
        + dec(packed.len()) + " >>\nstream\n".spec_bytes() + packed + "\nendstream\n".spec_bytes()
}

/// The instructions that draw picture `i` over a page `height` points high.
pub open spec fn content_text(i: nat, height: Seq<u8>) -> Seq<u8> {
    "q ".spec_bytes() + page_width_text() + " 0 0 ".spec_bytes() + height + " 0 0 cm /Im".spec_bytes()
        + dec(i) + " Do Q\n".spec_bytes()
}

/// The payload holding `content_text(i, height)`.
pub open spec fn content_payload(i: nat, height: Seq<u8>) -> Seq<u8> {
    "<< /Length ".spec_bytes() + dec(content_text(i, height).len()) + " >>\nstream\n".spec_bytes()
        + content_text(i, height) + "endstream\n".spec_bytes()
}

fn put_kids(out: &mut Vec<u8>, n: u64)
    requires
        n + 3 <= u64::MAX,
    ensures
        final(out)@ == old(out)@ + kids(n as nat),
{
    let ghost start = out@;
    let ghost parts = Seq::new(n as nat, |i: int| dec((3 + i) as nat) + " 0 R ".spec_bytes());
    put(out, "[".as_bytes());
    let mut i: u64 = 0;
    while i < n
        invariant
            0 <= i <= n,
            n + 3 <= u64::MAX,
            parts == Seq::new(n as nat, |i: int| dec((3 + i) as nat) + " 0 R ".spec_bytes()),
            out@ == start + "[".spec_bytes() + joined(parts.take(i as int)),
        decreases n - i,
    {
        proof {
            lemma_joined_take(parts, i as int);
        }
        put_dec(out, 3 + i);
        put(out, " 0 R ".as_bytes());
        i = i + 1;
        assert(out@ =~= start + "[".spec_bytes() + joined(parts.take(i as int)));
    }
    assert(parts.take(n as int) =~= parts);
    put(out, "]".as_bytes());
    assert(out@ =~= start + kids(n as nat));
}

fn pages_bytes(n: u64) -> (r: Vec<u8>)
    requires
        n + 3 <= u64::MAX,
    ensures
        r@ == pages_payload(n as nat),
{
    let mut out: Vec<u8> = Vec::new();
    put(&mut out, "<< /Type /Pages /Count ".as_bytes());
    put_dec(&mut out, n);
    put(&mut out, " /Kids ".as_bytes());
    put_kids(&mut out, n);
    put(&mut out, " >>\n".as_bytes());
    assert(out@ =~= pages_payload(n as nat));
    out
}

fn page_bytes(n: u64, i: u64, height: &[u8]) -> (r: Vec<u8>)
    requires
        i < n,
        3 * n + 3 <= u64::MAX,
    ensures
        r@ == page_payload(n as nat, i as nat, height@),
{
    let mut out: Vec<u8> = Vec::new();
    put(&mut out, "<< /Type /Page /Parent 2 0 R /MediaBox [0 0 ".as_bytes());
    put(&mut out, "595.00".as_bytes());
    put(&mut out, " ".as_bytes());
    put(&mut out, height);
    put(&mut out, "] /Resources << /XObject << /Im".as_bytes());
    put_dec(&mut out, i);
    put(&mut out, " ".as_bytes());
    put_dec(&mut out, 3 + n + 2 * i);
    put(&mut out, " 0 R >> >> /Contents ".as_bytes());
    put_dec(&mut out, 4 + n + 2 * i);
    put(&mut out, " 0 R >>\n".as_bytes());
    assert(out@ =~= page_payload(n as nat, i as nat, height@));
    out
}

fn image_bytes(w: u32, h: u32, packed: &[u8]) -> (r: Vec<u8>)
    ensures
        r@ == image_payload(w, h, packed@),
{
    let mut out: Vec<u8> = Vec::new();
    put(&mut out, "<< /Type /XObject /Subtype /Image /Width ".as_bytes());
    put_dec(&mut out, w as u64);
    put(&mut out, " /Height ".as_bytes());
    put_dec(&mut out, h as u64);
    put(&mut out, " /ColorSpace /DeviceRGB /BitsPerComponent 8 /Filter /FlateDecode /Length ".as_bytes());
    put_dec(&mut out, packed.len() as u64);
    put(&mut out, " >>\nstream\n".as_bytes());
    put(&mut out, packed);
    put(&mut out, "\nendstream\n".as_bytes());
    assert(out@ =~= image_payload(w, h, packed@));
    out
}

fn content_bytes(i: u64, height: &[u8]) -> (r: Vec<u8>)
    ensures
        r@ == content_payload(i as nat, height@),
{
    let mut text: Vec<u8> = Vec::new();
    put(&mut text, "q ".as_bytes());
    put(&mut text, "595.00".as_bytes());
    put(&mut text, " 0 0 ".as_bytes());
    put(&mut text, height);
    put(&mut text, " 0 0 cm /Im".as_bytes());
    put_dec(&mut text, i);
    put(&mut text, " Do Q\n".as_bytes());
    assert(text@ =~= content_text(i as nat, height@));
    let mut out: Vec<u8> = Vec::new();
    put(&mut out, "<< /Length ".as_bytes());
    put_dec(&mut out, text.len() as u64);
    put(&mut out, " >>\nstream\n".as_bytes());
    put(&mut out, text.as_slice());
    put(&mut out, "endstream\n".as_bytes());
    assert(out@ =~= content_payload(i as nat, height@));
    out
}

/// What `flate2`'s zlib encoder at the default level makes of `data`.
pub uninterp spec fn zlib_of(data: Seq<u8>) -> Seq<u8>;

/// `flate2::write::ZlibEncoder` with `Compression::default()`, fed `data`
/// and finished. Its output depends on the bytes alone; the writer is a
/// `Vec`, which never refuses a write.
#[verifier::external_body]
fn deflated(data: &[u8]) -> (r: Vec<u8>)
    ensures
        r@ == zlib_of(data@),
{
    let mut enc = flate2::write::ZlibEncoder::new(Vec::new(), flate2::Compression::default());
    let _ = std::io::Write::write_all(&mut enc, data);
    enc.finish().unwrap_or_default()
}

/// One page of a PDF export: a `width × height` picture as RGB bytes, and
/// the page's height in points as it is written into the file (the page is
/// 595 points wide and keeps the picture's proportions).
#[derive(Clone, Debug)]
pub struct PdfPage {
    pub width: u32,
    pub height: u32,
    pub rgb: Vec<u8>,
    pub media_height: Vec<u8>,
}

/// The pixels of the blank page a PDF without pages shows: white A4.
pub open spec fn blank_rgb() -> Seq<u8> {
    Seq::new(595 * 842 * 3, |k: int| 255u8)
}

/// What goes into the file for each page: width, height, compressed
/// pixels, height in points. With no page given, one blank white page.
pub open spec fn sheets_of(pages: Seq<PdfPage>) -> Seq<(u32, u32, Seq<u8>, Seq<u8>)> {
    if pages.len() == 0 {
        seq![(595u32, 842u32, zlib_of(blank_rgb()), "842.00".spec_bytes())]
    } else {
        Seq::new(
            pages.len(),
            |i: int| (pages[i].width, pages[i].height, zlib_of(pages[i].rgb@), pages[i].media_height@),
        )
    }
}

/// The `k`-th object written: the catalog, the page tree, then for each
/// page its page object, its picture and its drawing instructions.
pub open spec fn pdf_object(sheets: Seq<(u32, u32, Seq<u8>, Seq<u8>)>, k: int) -> Seq<u8> {
    let n = sheets.len();
    if k == 0 {
        framed(1, catalog_payload())
    } else if k == 1 {
        framed(2, pages_payload(n))
    } else {
        let i = (k - 2) / 3;
        let s = sheets[i];
        if (k - 2) % 3 == 0 {
            framed((3 + i) as nat, page_payload(n, i as nat, s.3))
        } else if (k - 2) % 3 == 1 {
            framed(image_id(n, i as nat), image_payload(s.0, s.1, s.2))
        } else {
            framed(content_id(n, i as nat), content_payload(i as nat, s.3))
        }
    }
}

/// The objects of the file, in the order they are written.
pub open spec fn pdf_objects(sheets: Seq<(u32, u32, Seq<u8>, Seq<u8>)>) -> Seq<Seq<u8>> {
    Seq::new(2 + 3 * sheets.len(), |k: int| pdf_object(sheets, k))
}

/// The id of the `k`-th object written, of a file of `n` pages.
pub open spec fn written_id(n: nat, k: int) -> int {
    if k == 0 {
        1
    } else if k == 1 {
        2
    } else if (k - 2) % 3 == 0 {
        3 + (k - 2) / 3
    } else if (k - 2) % 3 == 1 {
        3 + n + 2 * ((k - 2) / 3)
    } else {
        4 + n + 2 * ((k - 2) / 3)
    }
}

/// When object `id` is written, of a file of `n` pages.
pub open spec fn written_at(n: nat, id: int) -> int {
    if id == 1 {
        0
    } else if id == 2 {
        1
    } else if id < 3 + n {
        2 + 3 * (id - 3)
    } else {
        2 + 3 * ((id - 3 - n) / 2) + 1 + (id - 3 - n) % 2
    }
}

/// The file header: the version line and a line of four high bytes.
pub open spec fn pdf_head() -> Seq<u8> {
    seq![37u8, 80, 68, 70, 45, 49, 46, 52, 10, 37, 0xE2, 0xE3, 0xCF, 0xD3, 10]
}

/// Where the `k`-th object written begins.
pub open spec fn object_offset(sheets: Seq<(u32, u32, Seq<u8>, Seq<u8>)>, k: int) -> nat {
    pdf_head().len() + joined(pdf_objects(sheets).take(k)).len()
}

/// The cross-reference line of object `id`: its offset as a 32-bit number
/// in ten digits.
pub open spec fn xref_line(sheets: Seq<(u32, u32, Seq<u8>, Seq<u8>)>, id: int) -> Seq<u8> {
    padded(object_offset(sheets, written_at(sheets.len(), id)) % 0x1_0000_0000) + " 00000 n \n".spec_bytes()
}

/// A PDF file holding `sheets`, one picture filling each page.
#[verifier::opaque]
pub open spec fn pdf_file(sheets: Seq<(u32, u32, Seq<u8>, Seq<u8>)>) -> Seq<u8> {
    let n = sheets.len();
    let objects = pdf_objects(sheets);
    pdf_head() + joined(objects) + "xref\n0 ".spec_bytes() + dec(3 * n + 3) + "\n".spec_bytes()
        + "0000000000 65535 f \n".spec_bytes() + joined(
        Seq::new(3 * n + 2, |q: int| xref_line(sheets, q + 1)),
    ) + "trailer\n<< /Size ".spec_bytes() + dec(3 * n + 3) + " /Root 1 0 R >>\nstartxref\n".spec_bytes()
        + dec(object_offset(sheets, objects.len() as int)) + "\n%%EOF\n".spec_bytes()
}

proof fn lemma_written_at(n: nat, id: int)
    requires
        1 <= id <= 3 * n + 2,
    ensures
        0 <= written_at(n, id) < 2 + 3 * n,
        written_id(n, written_at(n, id)) == id,
{
    if id >= 3 + n {
        let j = id - 3 - n;
        let k = 2 + 3 * (j / 2) + 1 + j % 2;
        assert((k - 2) / 3 == j / 2 && (k - 2) % 3 == 1 + j % 2);
    } else if id >= 3 {
        let k = 2 + 3 * (id - 3);
        assert((k - 2) / 3 == id - 3 && (k - 2) % 3 == 0);
    }
}

proof fn lemma_written_id(n: nat, k: int)
    requires
        0 <= k < 2 + 3 * n,
    ensures
        1 <= written_id(n, k) <= 3 * n + 2,
        written_at(n, written_id(n, k)) == k,
{
    if k >= 2 {
        let i = (k - 2) / 3;
        let r = (k - 2) % 3;
        assert(k == 2 + 3 * i + r);
        if r == 1 {
            assert((2 * i) / 2 == i && (2 * i) % 2 == 0);
        } else if r == 2 {
            assert((1 + 2 * i) / 2 == i && (1 + 2 * i) % 2 == 1);
        }
    }
}

/// Where the `k`-th of `objects` begins, as the 32-bit number the
/// cross-reference table holds.
pub open spec fn offset_mark(objects: Seq<Seq<u8>>, k: int) -> u32 {
    ((pdf_head().len() + joined(objects.take(k)).len()) % 0x1_0000_0000) as u32
}

/// Appends the `k`-th object of `objects`, `framed(id, payload)`, and
/// notes where it begins under its id.
fn write_object(
    body: &mut Vec<u8>,
    offsets: &mut Vec<u32>,
    id: u64,
    payload: &[u8],
    Ghost(objects): Ghost<Seq<Seq<u8>>>,
    Ghost(k): Ghost<int>,
)
    requires
        0 <= k < objects.len(),
        framed(id as nat, payload@) == objects[k],
        old(body)@ == pdf_head() + joined(objects.take(k)),
        id < old(offsets)@.len(),
    ensures
        final(body)@ == pdf_head() + joined(objects.take(k + 1)),
        final(offsets)@ == old(offsets)@.update(id as int, offset_mark(objects, k)),
{
    let len: u64 = body.len() as u64;
    assert(len == pdf_head().len() + joined(objects.take(k)).len());
    let at: u32 = (len % 4294967296u64) as u32;
    assert(at == offset_mark(objects, k));
    assert(id < offsets.len());
    let slot: usize = id as usize;
    assert(slot == id);
    offsets.set(slot, at);
    put_framed(body, id, payload);
    proof {
        lemma_joined_take(objects, k);
        assert(body@ =~= pdf_head() + joined(objects.take(k + 1)));
    }
}

/// The three objects of page `i`, as `pdf_objects` lists them.
proof fn lemma_page_objects(sheets: Seq<(u32, u32, Seq<u8>, Seq<u8>)>, i: int)
    requires
        0 <= i < sheets.len(),
    ensures
        pdf_objects(sheets)[2 + 3 * i] == framed((3 + i) as nat, page_payload(sheets.len(), i as nat, sheets[i].3)),
        pdf_objects(sheets)[3 + 3 * i] == framed(image_id(sheets.len(), i as nat), image_payload(sheets[i].0, sheets[i].1, sheets[i].2)),
        pdf_objects(sheets)[4 + 3 * i] == framed(content_id(sheets.len(), i as nat), content_payload(i as nat, sheets[i].3)),
        written_id(sheets.len(), 2 + 3 * i) == 3 + i,
        written_id(sheets.len(), 3 + 3 * i) == 3 + sheets.len() + 2 * i,
        written_id(sheets.len(), 4 + 3 * i) == 4 + sheets.len() + 2 * i,
{
    assert((2 + 3 * i - 2) / 3 == i && (2 + 3 * i - 2) % 3 == 0);
    assert((3 + 3 * i - 2) / 3 == i && (3 + 3 * i - 2) % 3 == 1);
    assert((4 + 3 * i - 2) / 3 == i && (4 + 3 * i - 2) % 3 == 2);
}

/// Offsets noted for every object written so far, under its id.
pub open spec fn offsets_noted(offsets: Seq<u32>, objects: Seq<Seq<u8>>, n: nat, count: int) -> bool {
    forall|k: int| 0 <= k < count ==> offsets[written_id(n, k)] == #[trigger] offset_mark(objects, k)
}

proof fn lemma_offsets_step(
    before: Seq<u32>,
    after: Seq<u32>,
    objects: Seq<Seq<u8>>,
    n: nat,
    count: int,
)
    requires
        0 <= count < 2 + 3 * n,
        before.len() == 3 * n + 3,
        offsets_noted(before, objects, n, count),
        after == before.update(written_id(n, count), offset_mark(objects, count)),
    ensures
        offsets_noted(after, objects, n, count + 1),
{
    lemma_written_id(n, count);
    assert forall|k: int| 0 <= k < count + 1 implies after[written_id(n, k)] == #[trigger] offset_mark(
        objects,
        k,
    ) by {
        lemma_written_id(n, k);
        if k < count {
            assert(written_id(n, k) != written_id(n, count));
        }
    }
}

/// Appends the three objects of page `i`.
fn write_page(
    body: &mut Vec<u8>,
    offsets: &mut Vec<u32>,
    n: u64,
    i: u64,
    w: u32,
    h: u32,
    rgb: &[u8],
    height: &[u8],
    Ghost(sheets): Ghost<Seq<(u32, u32, Seq<u8>, Seq<u8>)>>,
    Ghost(objects): Ghost<Seq<Seq<u8>>>,
)
    requires
        n == sheets.len(),
        i < n,
        3 * n + 3 <= u32::MAX,
        objects == pdf_objects(sheets),
        sheets[i as int] == (w, h, zlib_of(rgb@), height@),
        old(offsets)@.len() == 3 * n + 3,
        old(body)@ == pdf_head() + joined(objects.take(2 + 3 * i)),
        offsets_noted(old(offsets)@, objects, n as nat, 2 + 3 * i),
    ensures
        final(offsets)@.len() == 3 * n + 3,
        final(body)@ == pdf_head() + joined(objects.take(2 + 3 * i + 3)),
        offsets_noted(final(offsets)@, objects, n as nat, 2 + 3 * i + 3),
{
    let packed = deflated(rgb);
    let k0: u64 = 2 + 3 * i;
    proof {
        lemma_page_objects(sheets, i as int);
    }
    let ghost o0 = offsets@;
    let page = page_bytes(n, i, height);
    write_object(body, offsets, 3 + i, page.as_slice(), Ghost(objects), Ghost(k0 as int));
    proof {
        lemma_offsets_step(o0, offsets@, objects, n as nat, k0 as int);
    }
    let ghost o1 = offsets@;
    let image = image_bytes(w, h, packed.as_slice());
    write_object(body, offsets, 3 + n + 2 * i, image.as_slice(), Ghost(objects), Ghost(k0 + 1));
    proof {
        lemma_offsets_step(o1, offsets@, objects, n as nat, k0 + 1);
    }
    let ghost o2 = offsets@;
    let content = content_bytes(i, height);
    write_object(body, offsets, 4 + n + 2 * i, content.as_slice(), Ghost(objects), Ghost(k0 + 2));
    proof {
        lemma_offsets_step(o2, offsets@, objects, n as nat, k0 + 2);
    }
}

/// Appends the cross-reference lines of objects `1` to `3 n + 2`.
fn write_xref_lines(
    body: &mut Vec<u8>,
    offsets: &Vec<u32>,
    n: u64,
    Ghost(sheets): Ghost<Seq<(u32, u32, Seq<u8>, Seq<u8>)>>,
)
    requires
        n == sheets.len(),
        3 * n + 3 <= u32::MAX,
        offsets@.len() == 3 * n + 3,
        offsets_noted(offsets@, pdf_objects(sheets), n as nat, 2 + 3 * n),
    ensures
        final(body)@ == old(body)@ + joined(Seq::new((3 * n + 2) as nat, |q: int| xref_line(sheets, q + 1))),
{
    let ghost objects = pdf_objects(sheets);
    let ghost lines = Seq::new((3 * n + 2) as nat, |q: int| xref_line(sheets, q + 1));
    let ghost start = body@;
    let mut id: u64 = 1;
    assert(lines.take(0) =~= Seq::<Seq<u8>>::empty());
    while id <= 3 * n + 2
        invariant
            1 <= id <= 3 * n + 3,
            n == sheets.len(),
            3 * n + 3 <= u32::MAX,
            offsets@.len() == 3 * n + 3,
            objects == pdf_objects(sheets),
            offsets_noted(offsets@, objects, n as nat, 2 + 3 * n),
            lines == Seq::new((3 * n + 2) as nat, |q: int| xref_line(sheets, q + 1)),
            body@ == start + joined(lines.take(id - 1)),
        decreases 3 * n + 3 - id,
    {
        proof {
            lemma_written_at(n as nat, id as int);
            let k = written_at(n as nat, id as int);
            assert(offsets@[written_id(n as nat, k)] == offset_mark(objects, k));
            lemma_joined_take(lines, id - 1);
        }
        let ghost mid = body@;
        put_padded(body, offsets[id as usize] as u64);
        put(body, " 00000 n \n".as_bytes());
        assert(body@ =~= mid + lines[id - 1]);
        id = id + 1;
    }
    assert(lines.take(3 * n + 2) =~= lines);
}

/// A PDF file of one picture per page, each page 595 points wide: the
/// catalog, the page tree, then per page its page object, its picture
/// (compressed with zlib) and the instructions that draw it; then the
/// cross-reference table and the trailer. With no page, one blank white
/// A4 page.
pub fn simple_pdf(pages: &[PdfPage]) -> (r: Vec<u8>)
    requires
        3 * pages@.len() + 3 <= u32::MAX,
    ensures
        r@ == pdf_file(sheets_of(pages@)),
{
    let ghost sheets = sheets_of(pages@);
    let ghost objects = pdf_objects(sheets);
    let n: u64 = if pages.len() == 0 {
        1
    } else {
        pages.len() as u64
    };
    assert(n == sheets.len());
    let ids: u64 = 3 * n + 3;
    let mut offsets: Vec<u32> = Vec::new();
    while (offsets.len() as u64) < ids
        invariant
            offsets@.len() <= ids,
            ids == 3 * n + 3,
            n <= u32::MAX,
        decreases ids - offsets@.len(),
    {
        offsets.push(0);
    }
    let mut body: Vec<u8> = Vec::new();
    let head: [u8; 15] = [37, 80, 68, 70, 45, 49, 46, 52, 10, 37, 0xE2, 0xE3, 0xCF, 0xD3, 10];
    put(&mut body, head.as_slice());
    assert(head@ =~= pdf_head());
    assert(objects.take(0) =~= Seq::<Seq<u8>>::empty());
    assert(body@ =~= pdf_head() + joined(objects.take(0)));
    let catalog = "<< /Type /Catalog /Pages 2 0 R >>\n".as_bytes();
    let ghost o0 = offsets@;
    write_object(&mut body, &mut offsets, 1, catalog, Ghost(objects), Ghost(0));
    proof {
        lemma_offsets_step(o0, offsets@, objects, n as nat, 0);
    }
    let tree = pages_bytes(n);
    let ghost o1 = offsets@;
    write_object(&mut body, &mut offsets, 2, tree.as_slice(), Ghost(objects), Ghost(1));
    proof {
        lemma_offsets_step(o1, offsets@, objects, n as nat, 1);
    }
    let mut i: u64 = 0;
    while i < n
        invariant
            0 <= i <= n,
            n == sheets.len(),
            sheets == sheets_of(pages@),
            objects == pdf_objects(sheets),
            3 * n + 3 <= u32::MAX,
            pages@.len() == 0 ==> n == 1,
            pages@.len() > 0 ==> n == pages@.len(),
            offsets@.len() == 3 * n + 3,
            body@ == pdf_head() + joined(objects.take(2 + 3 * i)),
            offsets_noted(offsets@, objects, n as nat, 2 + 3 * i),
        decreases n - i,
    {
        if pages.len() == 0 {
            let blank: Vec<u8> = vec![255u8; 595 * 842 * 3];
            assert(blank@ =~= blank_rgb());
            write_page(&mut body, &mut offsets, n, i, 595, 842, blank.as_slice(), "842.00".as_bytes(), Ghost(sheets), Ghost(objects));
        } else {
            let pg = &pages[i as usize];
            write_page(&mut body, &mut offsets, n, i, pg.width, pg.height, pg.rgb.as_slice(), pg.media_height.as_slice(), Ghost(sheets), Ghost(objects));
        }
        i = i + 1;
    }
    assert(objects.take(2 + 3 * n) =~= objects);
    let xref_at: u64 = body.len() as u64;
    put(&mut body, "xref\n0 ".as_bytes());
    put_dec(&mut body, 3 * n + 3);
    put(&mut body, "\n".as_bytes());
    put(&mut body, "0000000000 65535 f \n".as_bytes());
    write_xref_lines(&mut body, &offsets, n, Ghost(sheets));
    put(&mut body, "trailer\n<< /Size ".as_bytes());
    put_dec(&mut body, 3 * n + 3);
    put(&mut body, " /Root 1 0 R >>\nstartxref\n".as_bytes());
    put_dec(&mut body, xref_at);
    put(&mut body, "\n%%EOF\n".as_bytes());
    proof {
        reveal(pdf_file);
    }
    assert(body@ =~= pdf_file(sheets));
    body
}

/// A character of a file name made from a title: ASCII letters lowercased
/// and digits kept, anything else a hyphen.
pub open spec fn slug_char(c: char) -> char {
    if ('0' <= c && c <= '9') || ('a' <= c && c <= 'z') {
        c
    } else if 'A' <= c && c <= 'Z' {
        ((c as u32) + 32) as char
    } else {
        '-'
    }
}

/// `s` without its leading hyphens.
pub open spec fn undashed_start(s: Seq<char>) -> Seq<char>
    decreases s.len(),
{
    if s.len() > 0 && s[0] == '-' {
        undashed_start(s.drop_first())
    } else {
        s
    }
}

/// `s` without its trailing hyphens.
pub open spec fn undashed_end(s: Seq<char>) -> Seq<char>
    decreases s.len(),
{
    if s.len() > 0 && s.last() == '-' {
        undashed_end(s.drop_last())
    } else {
        s
    }
}

/// The file name stem an export of a notebook titled `title` gets: its
/// characters mapped by `slug_char`, hyphens trimmed at both ends, and
/// `note` where nothing is left.
pub open spec fn slug_of(title: Seq<char>) -> Seq<char> {
    let t = undashed_end(undashed_start(title.map_values(|c: char| slug_char(c))));
    if t.len() == 0 {
        seq!['n', 'o', 't', 'e']
    } else {
        t
    }
}

proof fn lemma_undashed_start(s: Seq<char>, a: int)
    requires
        0 <= a <= s.len(),
        forall|k: int| 0 <= k < a ==> s[k] == '-',
        a == s.len() || s[a] != '-',
    ensures
        undashed_start(s) == s.subrange(a, s.len() as int),
    decreases a,
{
    if a > 0 {
        lemma_undashed_start(s.drop_first(), a - 1);
        assert(s.drop_first().subrange(a - 1, s.len() - 1) =~= s.subrange(a, s.len() as int));
    } else {
        assert(s.subrange(0, s.len() as int) =~= s);
    }
}

proof fn lemma_undashed_end(s: Seq<char>, b: int)
    requires
        0 <= b <= s.len(),
        forall|k: int| b <= k < s.len() ==> s[k] == '-',
        b == 0 || s[b - 1] != '-',
    ensures
        undashed_end(s) == s.subrange(0, b),
    decreases s.len() - b,
{
    if b < s.len() {
        lemma_undashed_end(s.drop_last(), b);
        assert(s.drop_last().subrange(0, b) =~= s.subrange(0, b));
    } else {
        assert(s.subrange(0, b) =~= s);
    }
}

/// The file name stem for exports of a notebook titled `title`.
pub fn slug(title: &str) -> (r: String)
    ensures
        r@ == slug_of(title@),
{
    let cs = chars_of(title);
    let ghost mapped = title@.map_values(|c: char| slug_char(c));
    let mut m: Vec<char> = Vec::new();
    let mut i: usize = 0;
    while i < cs.len()
        invariant
            cs@ == title@,
            mapped == title@.map_values(|c: char| slug_char(c)),
            0 <= i <= cs@.len(),
            m@ == mapped.take(i as int),
        decreases cs.len() - i,
    {
        let c = cs[i];
        let d = if ('0' <= c && c <= '9') || ('a' <= c && c <= 'z') {
            c
        } else if 'A' <= c && c <= 'Z' {
            let up: u32 = c as u32;
            ((up + 32) as u8) as char
        } else {
            '-'
        };
        m.push(d);
        i = i + 1;
        assert(m@ =~= mapped.take(i as int));
    }
    assert(m@ =~= mapped);
    let mut a: usize = 0;
    while a < m.len() && m[a] == '-'
        invariant
            0 <= a <= m@.len(),
            forall|k: int| 0 <= k < a ==> m@[k] == '-',
        decreases m.len() - a,
    {
        a = a + 1;
    }
    let mut b: usize = m.len();
    while b > a && m[b - 1] == '-'
        invariant
            a <= b <= m@.len(),
            forall|k: int| b <= k < m@.len() ==> m@[k] == '-',
        decreases b,
    {
        b = b - 1;
    }
    proof {
        lemma_undashed_start(mapped, a as int);
        let rest = mapped.subrange(a as int, mapped.len() as int);
        if b > a {
            lemma_undashed_end(rest, b - a);
            assert(rest.subrange(0, b - a) =~= mapped.subrange(a as int, b as int));
        } else {
            assert forall|k: int| 0 <= k < rest.len() implies rest[k] == '-' by {
                assert(rest[k] == mapped[a + k]);
            }
            lemma_undashed_end(rest, 0);
        }
    }
    if a == b {
        return string_of(['n', 'o', 't', 'e'].as_slice());
    }
    let mut out: Vec<char> = Vec::new();
    let mut j: usize = a;
    while j < b
        invariant
            a <= j <= b <= m@.len(),
            out@ == m@.subrange(a as int, j as int),
        decreases b - j,
    {
        out.push(m[j]);
        j = j + 1;
        assert(out@ =~= m@.subrange(a as int, j as int));
    }
    string_of(out.as_slice())
}

/// A PNG of a `width × height` picture given as RGBA bytes, as rendered
/// pages are exported: `None` where the bytes are not that many pixels, or
/// where the encoder refuses the picture.
pub fn pixmap_png(width: u32, height: u32, data: Vec<u8>) -> (r: Option<Vec<u8>>)
    ensures
        data@.len() != width * height * 4 ==> r is None,
        data@.len() == width * height * 4 ==> png_encoded(width, height, data@) == match r {
            Some(v) => Some(v@),
            None => None::<Seq<u8>>,
        },
{
    let w: u128 = width as u128;
    let h: u128 = height as u128;
    assert(w * h <= 0xffff_ffff * 0xffff_ffff) by (nonlinear_arith)
        requires
            w <= 0xffff_ffff,
            h <= 0xffff_ffff,
    ;
    let want: u128 = w * h * 4;
    if data.len() as u128 != want {
        return None;
    }
    encode_png(width, height, data)
}

/// The `k`-th part of `parts` sits in `joined(parts)` right after the
/// parts before it.
proof fn lemma_joined_part(parts: Seq<Seq<u8>>, k: int)
    requires
        0 <= k < parts.len(),
    ensures
        joined(parts.take(k)).len() + parts[k].len() <= joined(parts).len(),
        joined(parts).subrange(
            joined(parts.take(k)).len() as int,
            (joined(parts.take(k)).len() + parts[k].len()) as int,
        ) == parts[k],
    decreases parts.len(),
{
    let front = parts.drop_last();
    if k == parts.len() - 1 {
        assert(parts.take(k) =~= front);
        let a = joined(front);
        assert((a + parts[k]).subrange(a.len() as int, (a.len() + parts[k].len()) as int) =~= parts[k]);
    } else {
        lemma_joined_part(front, k);
        assert(front.take(k) =~= parts.take(k));
        assert(front[k] == parts[k]);
        let a = joined(front);
        let lo = joined(parts.take(k)).len() as int;
        assert((a + parts.last()).subrange(lo, lo + parts[k].len()) =~= a.subrange(lo, lo + parts[k].len()));
    }
}

/// The `k`-th object written is framed under the id `written_id` gives it.
proof fn lemma_object_id(sheets: Seq<(u32, u32, Seq<u8>, Seq<u8>)>, k: int)
    requires
        0 <= k < 2 + 3 * sheets.len(),
    ensures
        exists|payload: Seq<u8>|
            pdf_objects(sheets)[k] == #[trigger] framed(written_id(sheets.len(), k) as nat, payload),
{
    let n = sheets.len();
    if k == 0 {
        assert(pdf_objects(sheets)[k] == framed(written_id(n, k) as nat, catalog_payload()));
    } else if k == 1 {
        assert(pdf_objects(sheets)[k] == framed(written_id(n, k) as nat, pages_payload(n)));
    } else {
        let i = (k - 2) / 3;
        assert(0 <= i < n);
        let s = sheets[i];
        if (k - 2) % 3 == 0 {
            assert(pdf_objects(sheets)[k] == framed(written_id(n, k) as nat, page_payload(n, i as nat, s.3)));
        } else if (k - 2) % 3 == 1 {
            assert(pdf_objects(sheets)[k] == framed(written_id(n, k) as nat, image_payload(s.0, s.1, s.2)));
        } else {
            assert(pdf_objects(sheets)[k] == framed(written_id(n, k) as nat, content_payload(i as nat, s.3)));
        }
    }
}

/// The objects stand in the file right after its header.
proof fn lemma_objects_in_file(sheets: Seq<(u32, u32, Seq<u8>, Seq<u8>)>)
    ensures
        pdf_head().len() + joined(pdf_objects(sheets)).len() <= pdf_file(sheets).len(),
        pdf_file(sheets).subrange(
            pdf_head().len() as int,
            (pdf_head().len() + joined(pdf_objects(sheets)).len()) as int,
        ) == joined(pdf_objects(sheets)),
{
    reveal(pdf_file);
    let head = pdf_head();
    let body = joined(pdf_objects(sheets));
    let file = pdf_file(sheets);
    let rest = file.subrange((head.len() + body.len()) as int, file.len() as int);
    assert(file =~= head + body + rest);
    assert(file.subrange(head.len() as int, (head.len() + body.len()) as int) =~= body);
}

/// An object begins with its id and `0 obj`.
proof fn lemma_object_tag(sheets: Seq<(u32, u32, Seq<u8>, Seq<u8>)>, k: int)
    requires
        0 <= k < 2 + 3 * sheets.len(),
    ensures
        ({
            let tag = dec(written_id(sheets.len(), k) as nat) + " 0 obj\n".spec_bytes();
            &&& tag.len() <= pdf_objects(sheets)[k].len()
            &&& pdf_objects(sheets)[k].subrange(0, tag.len() as int) == tag
        }),
{
    lemma_object_id(sheets, k);
    let id = written_id(sheets.len(), k) as nat;
    let payload = choose|payload: Seq<u8>| pdf_objects(sheets)[k] == #[trigger] framed(id, payload);
    let tag = dec(id) + " 0 obj\n".spec_bytes();
    assert(framed(id, payload).subrange(0, tag.len() as int) =~= tag);
}

/// Each line of the cross-reference table tells where its object begins:
/// at that offset (read without the 32-bit wrap of the table's digits) the
/// file holds `id 0 obj`.
pub proof fn law_xref_finds_objects(sheets: Seq<(u32, u32, Seq<u8>, Seq<u8>)>, id: int)
    requires
        1 <= id <= 3 * sheets.len() + 2,
    ensures
        xref_line(sheets, id) == padded(object_offset(sheets, written_at(sheets.len(), id)) % 0x1_0000_0000)
            + " 00000 n \n".spec_bytes(),
        ({
            let at = object_offset(sheets, written_at(sheets.len(), id)) as int;
            let tag = dec(id as nat) + " 0 obj\n".spec_bytes();
            &&& at + tag.len() <= pdf_file(sheets).len()
            &&& pdf_file(sheets).subrange(at, at + tag.len()) == tag
        }),
{
    let n = sheets.len();
    let objects = pdf_objects(sheets);
    let k = written_at(n, id);
    lemma_written_at(n, id);
    lemma_object_tag(sheets, k);
    lemma_joined_part(objects, k);
    lemma_objects_in_file(sheets);
    let tag = dec(id as nat) + " 0 obj\n".spec_bytes();
    let obj = objects[k];
    let head_len = pdf_head().len() as int;
    let body = joined(objects);
    let file = pdf_file(sheets);
    let lo = joined(objects.take(k)).len() as int;
    let at = head_len + lo;
    assert(object_offset(sheets, k) == at);
    let in_body = file.subrange(head_len, head_len + body.len());
    assert(in_body == body);
    assert(file.subrange(at, at + tag.len()) =~= in_body.subrange(lo, lo + tag.len()));
    assert(body.subrange(lo, lo + tag.len()) =~= body.subrange(lo, lo + obj.len()).subrange(0, tag.len() as int));
}

} // verus!
