use cahier::export::{simple_pdf, slug, PdfPage};
use cahier::library::ensure_png;
use std::io::Read;

fn find(hay: &[u8], needle: &[u8]) -> Option<usize> {
    hay.windows(needle.len()).position(|w| w == needle)
}

fn text_after(hay: &[u8], key: &[u8]) -> String {
    let at = find(hay, key).expect("key present") + key.len();
    let end = hay[at..].iter().position(|&b| b == b'\n').unwrap() + at;
    String::from_utf8(hay[at..end].to_vec()).unwrap()
}

fn xref_offsets(pdf: &[u8]) -> Vec<usize> {
    let start: usize = text_after(pdf, b"startxref\n").parse().unwrap();
    let table = &pdf[start..];
    assert!(table.starts_with(b"xref\n0 "));
    let lines: Vec<&[u8]> = table.split(|&b| b == b'\n').collect();
    let count: usize = std::str::from_utf8(&lines[1][2..]).unwrap().parse().unwrap();
    assert_eq!(lines[2], b"0000000000 65535 f ");
    (1..count)
        .map(|k| {
            let line = lines[2 + k];
            assert_eq!(line.len(), 19);
            assert!(line.ends_with(b" 00000 n "));
            std::str::from_utf8(&line[..10]).unwrap().parse().unwrap()
        })
        .collect()
}

#[test]
fn pdf_of_no_pages_is_one_blank_a4() {
    let pdf = simple_pdf(&[]);
    assert!(pdf.starts_with(b"%PDF-1.4\n%\xE2\xE3\xCF\xD3\n"));
    assert!(pdf.ends_with(b"%%EOF\n"));
    assert!(find(&pdf, b"<< /Type /Pages /Count 1 /Kids [3 0 R ] >>").is_some());
    assert!(find(&pdf, b"/MediaBox [0 0 595.00 842.00]").is_some());
    assert!(find(&pdf, b"/Width 595 /Height 842").is_some());
    assert!(find(&pdf, b"q 595.00 0 0 842.00 0 0 cm /Im0 Do Q\n").is_some());
    assert!(find(&pdf, b"trailer\n<< /Size 6 /Root 1 0 R >>").is_some());
}

#[test]
fn pdf_xref_points_at_each_object() {
    let pages = vec![
        PdfPage { width: 2, height: 1, rgb: vec![10, 20, 30, 40, 50, 60], media_height: b"297.50".to_vec() },
        PdfPage { width: 1, height: 2, rgb: vec![1, 2, 3, 4, 5, 6], media_height: b"1190.00".to_vec() },
    ];
    let pdf = simple_pdf(&pages);
    let offsets = xref_offsets(&pdf);
    assert_eq!(offsets.len(), 8);
    for (k, off) in offsets.iter().enumerate() {
        let head = format!("{} 0 obj\n", k + 1);
        assert!(pdf[*off..].starts_with(head.as_bytes()), "object {}", k + 1);
    }
    assert!(find(&pdf, b"/Count 2 /Kids [3 0 R 4 0 R ]").is_some());
    assert!(find(&pdf, b"/MediaBox [0 0 595.00 297.50] /Resources << /XObject << /Im0 5 0 R >> >> /Contents 6 0 R").is_some());
    assert!(find(&pdf, b"/MediaBox [0 0 595.00 1190.00] /Resources << /XObject << /Im1 7 0 R >> >> /Contents 8 0 R").is_some());
    assert!(find(&pdf, b"<< /Length 37 >>\nstream\nq 595.00 0 0 297.50 0 0 cm /Im0 Do Q\nendstream\n").is_some());
}

#[test]
fn pdf_pictures_are_zlib_streams_of_the_pixels() {
    let rgb = vec![200u8; 4 * 3 * 3];
    let pages = vec![PdfPage { width: 4, height: 3, rgb: rgb.clone(), media_height: b"446.25".to_vec() }];
    let pdf = simple_pdf(&pages);
    let len: usize = {
        let key = b"/Width 4 /Height 3 /ColorSpace /DeviceRGB /BitsPerComponent 8 /Filter /FlateDecode /Length ";
        let at = find(&pdf, key).unwrap() + key.len();
        let end = at + pdf[at..].iter().position(|&b| b == b' ').unwrap();
        std::str::from_utf8(&pdf[at..end]).unwrap().parse().unwrap()
    };
    let at = find(&pdf, b">>\nstream\n").unwrap() + b">>\nstream\n".len();
    let stream = &pdf[at..at + len];
    assert!(pdf[at + len..].starts_with(b"\nendstream\nendobj\n"));
    let mut back = Vec::new();
    flate2::read::ZlibDecoder::new(stream).read_to_end(&mut back).unwrap();
    assert_eq!(back, rgb);
}

#[test]
fn export_names() {
    assert_eq!(slug("My Notes!"), "my-notes");
    assert_eq!(slug("--Maths 2024--"), "maths-2024");
    assert_eq!(slug("!!!"), "note");
    assert_eq!(slug(""), "note");
    assert_eq!(slug("Été"), "t");
}

fn png_of(w: u32, h: u32) -> Vec<u8> {
    let img = image::RgbaImage::from_pixel(w, h, image::Rgba([10, 200, 30, 255]));
    let mut out = Vec::new();
    image::DynamicImage::ImageRgba8(img)
        .write_to(&mut std::io::Cursor::new(&mut out), image::ImageFormat::Png)
        .unwrap();
    out
}

#[test]
fn large_pictures_shrink_to_the_cap() {
    let png = ensure_png(&png_of(2100, 700)).unwrap();
    let img = image::load_from_memory(&png).unwrap();
    assert_eq!((img.width(), img.height()), (2048, 682));
    let png = ensure_png(&png_of(100, 2049)).unwrap();
    let img = image::load_from_memory(&png).unwrap();
    assert_eq!((img.width(), img.height()), (99, 2048));
}

#[test]
fn small_pictures_keep_their_size() {
    let png = ensure_png(&png_of(40, 30)).unwrap();
    let img = image::load_from_memory(&png).unwrap().into_rgba8();
    assert_eq!(img.dimensions(), (40, 30));
    assert_eq!(img.get_pixel(3, 3).0, [10, 200, 30, 255]);
    assert!(ensure_png(b"not a picture").is_none());
}

#[test]
fn page_pictures_encode_as_png() {
    let px = vec![10u8, 20, 30, 255, 40, 50, 60, 128];
    let png = cahier::export::pixmap_png(2, 1, px.clone()).unwrap();
    let img = image::load_from_memory(&png).unwrap().into_rgba8();
    assert_eq!(img.dimensions(), (2, 1));
    assert_eq!(img.into_raw(), px);
    assert!(cahier::export::pixmap_png(2, 2, px.clone()).is_none());
    assert!(cahier::export::pixmap_png(0, 0, Vec::new()).is_none());
}
