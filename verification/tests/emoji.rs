use cahier::emoji::{
    cmap_groups, glyph_id, locate, read_u16, read_u32, slice, tables, usable, Atlas, FontBytes, Group,
    FAVORITES,
};

#[test]
fn color_emoji_catalog() {
    // The font file is read by the program; a test has no system font to hand.
    let mut atlas = Atlas::load(None);
    if atlas.catalog().is_empty() {
        return;
    }
    assert!(atlas.catalog().len() > 200);
    let g = atlas.ensure_str("📝").expect("memo");
    assert!(g.width >= 24 && g.height >= 24);
}

fn be16(v: u16) -> [u8; 2] {
    v.to_be_bytes()
}

fn be32(v: u32) -> [u8; 4] {
    v.to_be_bytes()
}

fn png_of(w: u32, h: u32) -> Vec<u8> {
    let img = image::RgbaImage::from_pixel(w, h, image::Rgba([200, 10, 10, 255]));
    let mut out = Vec::new();
    image::DynamicImage::ImageRgba8(img)
        .write_to(&mut std::io::Cursor::new(&mut out), image::ImageFormat::Png)
        .unwrap();
    out
}

/// A tiny colour font: code points 0x1F600..=0x1F601 on glyphs 1..=2, whose
/// bitmaps are a 100×50 and an 8×8 PNG.
fn tiny_font() -> Vec<u8> {
    // cmap: one encoding record, one format-12 subtable with one group.
    let mut cmap = Vec::new();
    cmap.extend(be16(0));
    cmap.extend(be16(1));
    cmap.extend(be16(3));
    cmap.extend(be16(10));
    cmap.extend(be32(12));
    cmap.extend(be16(12));
    cmap.extend(be16(0));
    cmap.extend(be32(28));
    cmap.extend(be32(0));
    cmap.extend(be32(1));
    cmap.extend(be32(0x1F600));
    cmap.extend(be32(0x1F601));
    cmap.extend(be32(1));

    let big = png_of(100, 50);
    let small = png_of(8, 8);
    let mut cbdt = Vec::new();
    cbdt.extend(be32(0x0003_0000));
    let mut spans = Vec::new();
    for png in [&big, &small] {
        let start = cbdt.len() as u32;
        cbdt.extend([0u8; 5]);
        cbdt.extend(be32(png.len() as u32));
        cbdt.extend(png.iter());
        spans.push(start);
    }
    let end = cbdt.len() as u32;

    // CBLC: header, one index subtable array entry for glyphs 1..=2.
    let mut cblc = Vec::new();
    cblc.extend(be32(0x0003_0000));
    cblc.extend(be32(1));
    let arr = 48u32;
    cblc.extend(be32(arr));
    cblc.extend(be32(8));
    cblc.extend(be32(1));
    while cblc.len() < arr as usize {
        cblc.push(0);
    }
    cblc.extend(be16(1));
    cblc.extend(be16(2));
    cblc.extend(be32(8));
    cblc.extend(be16(1));
    cblc.extend(be16(17));
    cblc.extend(be32(0));
    cblc.extend(be32(spans[0]));
    cblc.extend(be32(spans[1]));
    cblc.extend(be32(end));

    let tables_in = [(*b"CBDT", cbdt), (*b"CBLC", cblc), (*b"cmap", cmap)];
    let mut font = Vec::new();
    font.extend([0, 1, 0, 0]);
    font.extend(be16(tables_in.len() as u16));
    font.extend([0u8; 6]);
    let mut offset = 12 + 16 * tables_in.len() as u32;
    for (tag, data) in &tables_in {
        font.extend(tag.iter());
        font.extend(be32(0));
        font.extend(be32(offset));
        font.extend(be32(data.len() as u32));
        offset += data.len() as u32;
    }
    for (_, data) in &tables_in {
        font.extend(data.iter());
    }
    font
}

#[test]
fn big_endian_reads() {
    let d = [0x12, 0x34, 0x56, 0x78, 0x9a];
    assert_eq!(read_u16(&d, 0), Some(0x1234));
    assert_eq!(read_u32(&d, 1), Some(0x3456789a));
    assert_eq!(read_u32(&d, 2), None);
    assert_eq!(read_u16(&d, usize::MAX), None);
    assert_eq!(slice(&d, (1, 3)), Some(&d[1..4]));
    assert_eq!(slice(&d, (3, 3)), None);
}

#[test]
fn table_directory_reads_records() {
    let font = tiny_font();
    let t = tables(&font).unwrap();
    assert_eq!(t.len(), 3);
    assert!(t.contains_key(&u32::from_be_bytes(*b"cmap")));
    assert!(t.contains_key(&u32::from_be_bytes(*b"CBLC")));
    assert!(!t.contains_key(&u32::from_be_bytes(*b"glyf")));
    // Of two records with one tag, the later one counts.
    let mut dup = vec![0, 1, 0, 0, 0, 2, 0, 0, 0, 0, 0, 0];
    for (off, len) in [(1u32, 2u32), (3, 4)] {
        dup.extend(b"abcd");
        dup.extend(be32(0));
        dup.extend(be32(off));
        dup.extend(be32(len));
    }
    let d = tables(&dup).unwrap();
    assert_eq!(d.len(), 1);
    assert_eq!(d[&u32::from_be_bytes(*b"abcd")], (3, 4));
    assert!(tables(&font[..20]).is_none());
    let mut bad = font.clone();
    bad[12] = 0xFF;
    assert!(tables(&bad).is_none());
    assert!(tables(&[1, 0, 0, 0, 0, 0, 0, 0, 0, 0, 0, 0]).is_none());
}

#[test]
fn cmap_groups_and_glyph_ids() {
    let font = tiny_font();
    let t = tables(&font).unwrap();
    let (off, len) = t[&u32::from_be_bytes(*b"cmap")];
    let groups = cmap_groups(&font[off..off + len]).unwrap();
    assert_eq!(groups, vec![Group { start: 0x1F600, end: 0x1F601, glyph: 1 }]);
    assert_eq!(glyph_id(&groups, 0x1F601), Some(2));
    assert_eq!(glyph_id(&groups, 0x1F602), None);
    let wide = [Group { start: 10, end: 20, glyph: 0xFFFF }];
    assert_eq!(glyph_id(&wide, 10), Some(0xFFFF));
    assert_eq!(glyph_id(&wide, 11), None);
    assert!(cmap_groups(&[0, 0]).is_none());
}

#[test]
fn locate_and_decode_glyphs() {
    let font = tiny_font();
    let t = tables(&font).unwrap();
    let (off, len) = t[&u32::from_be_bytes(*b"CBLC")];
    let cblc = &font[off..off + len];
    assert!(locate(cblc, 1).is_some());
    assert!(locate(cblc, 3).is_none());
    let f = FontBytes::parse(font.clone()).unwrap();
    assert_eq!(f.list_chars(), vec!['\u{1F600}', '\u{1F601}']);
    let big = f.decode('\u{1F600}').unwrap();
    assert_eq!((big.width, big.height), (72, 36));
    assert_eq!(big.rgba.len(), 72 * 36 * 4);
    let small = f.decode('\u{1F601}').unwrap();
    assert_eq!((small.width, small.height), (8, 8));
    assert_eq!(&small.rgba[..4], &[200, 10, 10, 255]);
    assert!(f.decode('a').is_none());
}

#[test]
fn atlas_caches_and_keys() {
    let mut atlas = Atlas::load(Some(tiny_font()));
    assert_eq!(atlas.catalog(), &['\u{1F600}', '\u{1F601}']);
    assert_eq!(atlas.key("\u{fe0f}\u{1F601}"), Some('\u{1F601}'));
    assert_eq!(atlas.key("x"), None);
    assert!(atlas.get("\u{1F600}").is_none());
    assert_eq!(atlas.ensure('\u{1F600}').unwrap().width, 72);
    assert_eq!(atlas.get("\u{1F600}").unwrap().height, 36);
    assert!(atlas.ensure_str("\u{200d}\u{1F601}").is_some());
    assert!(atlas.ensure('z').is_none());
    let empty = Atlas::load(None);
    assert!(empty.catalog().is_empty());
    assert!(Atlas::load(Some(vec![1, 2, 3])).catalog().is_empty());
}

#[test]
fn usable_code_points() {
    assert!(usable(0x1F4DD));
    assert!(usable(0x2764));
    assert!(!usable(0xFE0F));
    assert!(!usable(0x41));
    assert!(!usable(0xE000));
    assert!(!usable(0xE0061));
    assert_eq!(FAVORITES.len(), 26);
    assert_eq!(FAVORITES[0], "📝");
}
