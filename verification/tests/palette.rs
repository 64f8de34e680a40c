use cahier::ink::Rgba;
use cahier::palette::{alacritty_entries, palette_parse_ok, theme_colors, theme_table, TomlEntry};
use cahier::shelf::clip_title;

fn rgb(r: u8, g: u8, b: u8) -> Rgba {
    Rgba { r, g, b, a: 255 }
}

fn text_at(t: &[TomlEntry], key: &str) -> Option<Option<String>> {
    t.iter().find(|e| e.path == vec![key.to_string()]).map(|e| e.text.clone())
}

#[test]
fn colors_toml_sets_the_palette() {
    let text = "accent = \"#112233\"\nmode = \"light\"\nred = \"  #AA0000 \"\n[extra]\nx = 1\n";
    let t = theme_table(Some(text), None).unwrap();
    assert!(t.iter().any(|e| e.path == vec!["extra".to_string(), "x".to_string()] && e.text.is_none()));
    assert!(palette_parse_ok(&t));
    let c = theme_colors(Some(&t));
    assert!(!c.dark);
    assert_eq!(c.accent, rgb(0x11, 0x22, 0x33));
    assert_eq!(c.red, rgb(0xaa, 0, 0));
    assert_eq!(c.background, rgb(0x1a, 0x1b, 0x26));
    assert_eq!(c.paper, rgb(0xff, 0xfc, 0xf5));
    assert_eq!(c.ink, rgb(0x22, 0x1c, 0x16));
    assert_eq!(c.shadow, Rgba { r: 0, g: 0, b: 0, a: 40 });
}

#[test]
fn no_theme_is_dark_and_default() {
    let c = theme_colors(None);
    assert!(c.dark);
    assert_eq!(c.paper, rgb(0xf3, 0xea, 0xd8));
    assert_eq!(c.ink, rgb(0x1c, 0x18, 0x14));
    assert_eq!(c.shadow.a, 90);
    assert_eq!(c.selection, rgb(0x24, 0x28, 0x3b));
    assert_eq!(c.dim_foreground, rgb(0x56, 0x5f, 0x89));
    assert_eq!(c.highs(), vec![
        Rgba { a: 90, ..rgb(0xe0, 0xaf, 0x68) },
        Rgba { a: 90, ..rgb(0x9e, 0xce, 0x6a) },
        Rgba { a: 90, ..rgb(0xad, 0x8e, 0xe6) },
        Rgba { a: 90, ..rgb(0x44, 0x9d, 0xab) },
        Rgba { a: 90, ..rgb(0xeb, 0x92, 0x7b) },
    ]);
    assert_eq!(c.cloth().len(), 8);
    assert_eq!(c.cloth()[7], rgb(0x0e, 0x0e, 0x14));
}

#[test]
fn mode_and_fallback_keys() {
    // A `mode` that is no string reads as dark, whatever `theme_type` says.
    let t = theme_table(Some("mode = 1\ntheme_type = \"light\"\n"), None).unwrap();
    assert!(theme_colors(Some(&t)).dark);
    let t = theme_table(Some("theme_type = \"light\"\n"), None).unwrap();
    assert!(!theme_colors(Some(&t)).dark);
    let t = theme_table(
        Some("dark_foreground = \"#010101\"\nlighter_background = \"#020202\"\nblue = \"nope\"\n"),
        None,
    )
    .unwrap();
    let c = theme_colors(Some(&t));
    assert_eq!(c.dim_foreground, rgb(1, 1, 1));
    assert_eq!(c.selection, rgb(2, 2, 2));
    assert_eq!(c.blue, rgb(0x7a, 0xa2, 0xf7));
    let t = theme_table(Some("light_foreground = \"#030303\"\ndark_foreground = \"#010101\"\n"), None).unwrap();
    assert_eq!(theme_colors(Some(&t)).dim_foreground, rgb(3, 3, 3));
}

#[test]
fn terminal_colours_stand_in() {
    let alacritty = "[colors.primary]\nbackground = \"#010203\"\nforeground = \"#040506\"\n\
        [colors.normal]\nblack = \"#070809\"\nblue = \"#0a0b0c\"\nred = \"#0d0e0f\"\n\
        [colors.bright]\nblack = \"#101112\"\nwhite = \"#131415\"\n\
        [colors.selection]\nbackground = \"#161718\"\n";
    let t = theme_table(Some("not = [toml"), Some(alacritty)).unwrap();
    assert_eq!(text_at(&t, "brown"), Some(Some("#070809".to_string())));
    assert_eq!(text_at(&t, "accent"), Some(Some("#0a0b0c".to_string())));
    assert_eq!(text_at(&t, "green"), None);
    let c = theme_colors(Some(&t));
    assert_eq!(c.background, rgb(1, 2, 3));
    assert_eq!(c.foreground, rgb(4, 5, 6));
    assert_eq!(c.brown, rgb(7, 8, 9));
    assert_eq!(c.accent, rgb(10, 11, 12));
    assert_eq!(c.muted, rgb(0x10, 0x11, 0x12));
    assert_eq!(c.dim_foreground, rgb(0x13, 0x14, 0x15));
    assert_eq!(c.selection, rgb(0x16, 0x17, 0x18));
    assert_eq!(c.lighter_background, rgb(0x16, 0x17, 0x18));
    assert!(c.dark);
    // Colours given, a readable `colors.toml` wins.
    let t = theme_table(Some("accent = \"#ffffff\"\n"), Some(alacritty)).unwrap();
    assert_eq!(theme_colors(Some(&t)).accent, rgb(255, 255, 255));
    assert_eq!(theme_colors(Some(&t)).background, rgb(0x1a, 0x1b, 0x26));
    // Without a `colors` key the terminal has no palette.
    assert!(theme_table(None, Some("[font]\nsize = 9\n")).is_none());
    assert!(theme_table(None, None).is_none());
    let raw = vec![TomlEntry { path: vec!["colors".to_string()], text: Some("x".to_string()) }];
    assert_eq!(alacritty_entries(&raw).unwrap().len(), 0);
}

#[test]
fn unreadable_colour_is_caught() {
    let t = theme_table(Some("accent = \"a\u{e9}11223\"\n"), None).unwrap();
    assert!(!palette_parse_ok(&t));
    let t = theme_table(Some("other = \"a\u{e9}11223\"\n"), None).unwrap();
    assert!(palette_parse_ok(&t));
}

#[test]
fn spine_titles_are_clipped() {
    assert_eq!(clip_title("Short title"), "Short title");
    assert_eq!(clip_title("Fourteen chars"), "Fourteen chars");
    assert_eq!(clip_title("Fifteen chars!!"), "Fifteen char\u{2026}");
    assert_eq!(clip_title("Éléphants de la plaine"), "Éléphants de\u{2026}");
}
