//! The theme's colours: a TOML document (Omarchy's `colors.toml`, or the
//! terminal's `alacritty.toml` mapped onto the same keys) read into the
//! colours the desk, the paper and the inks are drawn with.

use vstd::prelude::*;
use crate::ink::Rgba;
use crate::look::{hex_colour, hex_readable, parse_hex};
use crate::text::chars_of;

verus! {

/// One key of a TOML document: the keys that lead to it, table by table
/// from the top, and its value when that value is a string.
#[derive(Clone, Debug)]
pub struct TomlEntry {
    pub path: Vec<String>,
    pub text: Option<String>,
}

/// A key path and the string it holds, if any, as plain text.
pub type Entry = (Seq<Seq<char>>, Option<Seq<char>>);

pub open spec fn path_view(p: Seq<String>) -> Seq<Seq<char>> {
    p.map_values(|s: String| s@)
}

pub open spec fn text_view(t: Option<String>) -> Option<Seq<char>> {
    match t {
        Some(s) => Some(s@),
        None => None,
    }
}

pub open spec fn entry_view(e: TomlEntry) -> Entry {
    (path_view(e.path@), text_view(e.text))
}

pub open spec fn entries_view(es: Seq<TomlEntry>) -> Seq<Entry> {
    es.map_values(|e: TomlEntry| entry_view(e))
}

/// What the `toml` crate reads in `text` as a document: every key of every
/// table, by its path, with its value where that is a string; nothing where
/// the text is no TOML document.
pub uninterp spec fn toml_entries(text: Seq<char>) -> Option<Seq<Entry>>;

/// `text.parse::<toml::Table>()`, each key of the tables it holds written
/// out by its path. The result depends on the text alone.
#[verifier::external_body]
fn parse_toml(text: &str) -> (r: Option<Vec<TomlEntry>>)
    ensures
        toml_entries(text@) == match r {
            Some(v) => Some(entries_view(v@)),
            None => None::<Seq<Entry>>,
        },
{
    let table: toml::Table = text.parse().ok()?;
    let mut out = Vec::new();
    let mut todo: Vec<(Vec<String>, &toml::Table)> = vec![(Vec::new(), &table)];
    while let Some((path, t)) = todo.pop() {
        for (k, v) in t {
            let mut p = path.clone();
            p.push(k.clone());
            if let Some(sub) = v.as_table() {
                todo.push((p.clone(), sub));
            }
            out.push(TomlEntry { path: p, text: v.as_str().map(String::from) });
        }
    }
    Some(out)
}

/// The value at `path` in `es`, from its first entry there: `Some` of the
/// string (or `None` for a value of another kind) when the key is there.
pub open spec fn lookup(es: Seq<Entry>, path: Seq<Seq<char>>) -> Option<Option<Seq<char>>>
    decreases es.len(),
{
    if es.len() == 0 {
        None
    } else if es[0].0 == path {
        Some(es[0].1)
    } else {
        lookup(es.drop_first(), path)
    }
}

/// The path written by `keys`.
pub open spec fn key_path(keys: Seq<&str>) -> Seq<Seq<char>> {
    keys.map_values(|k: &str| k@)
}

/// Whether `a` and `b` hold the same text.
pub fn same_text(a: &str, b: &str) -> (r: bool)
    ensures
        r == (a@ == b@),
{
    let x = chars_of(a);
    let y = chars_of(b);
    if x.len() != y.len() {
        return false;
    }
    let mut i: usize = 0;
    while i < x.len()
        invariant
            0 <= i <= x@.len(),
            x@ == a@,
            y@ == b@,
            x@.len() == y@.len(),
            forall|j: int| 0 <= j < i ==> x@[j] == y@[j],
        decreases x.len() - i,
    {
        if x[i] != y[i] {
            assert(x@[i as int] != y@[i as int]);
            return false;
        }
        i = i + 1;
    }
    assert(x@ =~= y@);
    true
}

fn path_is(p: &Vec<String>, want: &[&str]) -> (r: bool)
    ensures
        r == (path_view(p@) == key_path(want@)),
{
    if p.len() != want.len() {
        assert(path_view(p@).len() != key_path(want@).len());
        return false;
    }
    let mut i: usize = 0;
    while i < p.len()
        invariant
            0 <= i <= p@.len(),
            p@.len() == want@.len(),
            forall|j: int| 0 <= j < i ==> p@[j]@ == want@[j]@,
        decreases p.len() - i,
    {
        if !same_text(p[i].as_str(), want[i]) {
            assert(path_view(p@)[i as int] != key_path(want@)[i as int]);
            return false;
        }
        i = i + 1;
    }
    assert(path_view(p@) =~= key_path(want@));
    true
}

/// Where the first entry at `want` stands in `es`.
fn find(es: &[TomlEntry], want: &[&str]) -> (r: Option<usize>)
    ensures
        match r {
            Some(i) => i < es@.len() && lookup(entries_view(es@), key_path(want@)) == Some(
                text_view(es@[i as int].text),
            ),
            None => lookup(entries_view(es@), key_path(want@)) is None,
        },
{
    let ghost all = entries_view(es@);
    assert(all.skip(0) =~= all);
    let mut i: usize = 0;
    while i < es.len()
        invariant
            0 <= i <= es@.len(),
            all == entries_view(es@),
            lookup(all, key_path(want@)) == lookup(all.skip(i as int), key_path(want@)),
        decreases es.len() - i,
    {
        assert(all.skip(i as int)[0] == entry_view(es@[i as int]));
        if path_is(&es[i].path, want) {
            return Some(i);
        }
        assert(all.skip(i as int).drop_first() =~= all.skip(i + 1));
        i = i + 1;
    }
    None
}

/// A copy of the text `t`.
fn copy_text(t: &Option<String>) -> (r: Option<String>)
    ensures
        text_view(r) == text_view(*t),
{
    match t {
        Some(s) => Some(s.clone()),
        None => None,
    }
}

/// `out` with `key` set to `v`, when there is a value to set.
pub open spec fn put(out: Seq<Entry>, key: Seq<char>, v: Option<Option<Seq<char>>>) -> Seq<Entry> {
    match v {
        Some(t) => out.push((seq![key], t)),
        None => out,
    }
}

/// The value at `colors.<section>.<key>` of a terminal configuration.
pub open spec fn term_colour(raw: Seq<Entry>, section: Seq<char>, key: Seq<char>) -> Option<Option<Seq<char>>> {
    lookup(raw, seq!["colors"@, section, key])
}

/// The palette keys of a terminal configuration `raw`: the primary
/// background and foreground, the normal colours (black read as brown),
/// bright black as muted and bright white as the light foreground, the
/// selection background as selection and lighter background, and the
/// accent taken from blue. Nothing without a `colors` key.
pub open spec fn alacritty_spec(raw: Seq<Entry>) -> Option<Seq<Entry>> {
    if lookup(raw, seq!["colors"@]) is None {
        None
    } else {
        let o = put(seq![], "background"@, term_colour(raw, "primary"@, "background"@));
        let o = put(o, "foreground"@, term_colour(raw, "primary"@, "foreground"@));
        let o = put(o, "red"@, term_colour(raw, "normal"@, "red"@));
        let o = put(o, "green"@, term_colour(raw, "normal"@, "green"@));
        let o = put(o, "yellow"@, term_colour(raw, "normal"@, "yellow"@));
        let o = put(o, "blue"@, term_colour(raw, "normal"@, "blue"@));
        let o = put(o, "magenta"@, term_colour(raw, "normal"@, "magenta"@));
        let o = put(o, "cyan"@, term_colour(raw, "normal"@, "cyan"@));
        let o = put(o, "brown"@, term_colour(raw, "normal"@, "black"@));
        let o = put(o, "muted"@, term_colour(raw, "bright"@, "black"@));
        let o = put(o, "light_foreground"@, term_colour(raw, "bright"@, "white"@));
        let o = put(o, "selection"@, term_colour(raw, "selection"@, "background"@));
        let o = put(o, "lighter_background"@, term_colour(raw, "selection"@, "background"@));
        Some(put(o, "accent"@, lookup(o, seq!["blue"@])))
    }
}

/// Sets `key` in `out` to the value at `colors.<section>.<name>` of `raw`,
/// when it is there.
fn put_from(out: &mut Vec<TomlEntry>, key: &str, raw: &[TomlEntry], section: &str, name: &str)
    ensures
        entries_view(final(out)@) == put(entries_view(old(out)@), key@, term_colour(entries_view(raw@), section@, name@)),
{
    let path: [&str; 3] = ["colors", section, name];
    assert(key_path(path@) =~= seq!["colors"@, section@, name@]);
    match find(raw, &path) {
        Some(i) => {
            let e = TomlEntry { path: vec![key.to_string()], text: copy_text(&raw[i].text) };
            let ghost before = out@;
            out.push(e);
            proof {
                assert(path_view(e.path@) =~= seq![key@]);
                assert(entries_view(out@) =~= entries_view(before).push(entry_view(e)));
            }
        },
        None => {},
    }
}

/// The palette keys of the terminal configuration read as `raw`.
pub fn alacritty_entries(raw: &[TomlEntry]) -> (r: Option<Vec<TomlEntry>>)
    ensures
        match r {
            Some(v) => alacritty_spec(entries_view(raw@)) == Some(entries_view(v@)),
            None => alacritty_spec(entries_view(raw@)) is None,
        },
{
    let top: [&str; 1] = ["colors"];
    assert(key_path(top@) =~= seq!["colors"@]);
    if find(raw, &top).is_none() {
        return None;
    }
    let mut out: Vec<TomlEntry> = Vec::new();
    assert(entries_view(out@) =~= seq![]);
    put_from(&mut out, "background", raw, "primary", "background");
    put_from(&mut out, "foreground", raw, "primary", "foreground");
    put_from(&mut out, "red", raw, "normal", "red");
    put_from(&mut out, "green", raw, "normal", "green");
    put_from(&mut out, "yellow", raw, "normal", "yellow");
    put_from(&mut out, "blue", raw, "normal", "blue");
    put_from(&mut out, "magenta", raw, "normal", "magenta");
    put_from(&mut out, "cyan", raw, "normal", "cyan");
    put_from(&mut out, "brown", raw, "normal", "black");
    put_from(&mut out, "muted", raw, "bright", "black");
    put_from(&mut out, "light_foreground", raw, "bright", "white");
    put_from(&mut out, "selection", raw, "selection", "background");
    put_from(&mut out, "lighter_background", raw, "selection", "background");
    let ghost before = out@;
    let blue: [&str; 1] = ["blue"];
    assert(key_path(blue@) =~= seq!["blue"@]);
    match find(out.as_slice(), &blue) {
        Some(i) => {
            let e = TomlEntry { path: vec!["accent".to_string()], text: copy_text(&out[i].text) };
            out.push(e);
            proof {
                assert(path_view(e.path@) =~= seq!["accent"@]);
                assert(entries_view(out@) =~= entries_view(before).push(entry_view(e)));
            }
        },
        None => {},
    }
    Some(out)
}

/// The palette table of a theme: its `colors.toml` text when that is
/// there and reads as TOML, else the palette keys of its terminal
/// configuration `alacritty`, when that is there and reads as TOML.
pub open spec fn theme_table_spec(colors: Option<Seq<char>>, alacritty: Option<Seq<char>>) -> Option<Seq<Entry>> {
    let first = match colors {
        Some(c) => toml_entries(c),
        None => None,
    };
    match first {
        Some(t) => Some(t),
        None => match alacritty {
            Some(a) => match toml_entries(a) {
                Some(raw) => alacritty_spec(raw),
                None => None,
            },
            None => None,
        },
    }
}

pub open spec fn opt_text(s: Option<&str>) -> Option<Seq<char>> {
    match s {
        Some(t) => Some(t@),
        None => None,
    }
}

/// Reads the palette table of a theme from the texts of its `colors.toml`
/// and of its terminal's `alacritty.toml`.
pub fn theme_table(colors: Option<&str>, alacritty: Option<&str>) -> (r: Option<Vec<TomlEntry>>)
    ensures
        theme_table_spec(opt_text(colors), opt_text(alacritty)) == match r {
            Some(v) => Some(entries_view(v@)),
            None => None::<Seq<Entry>>,
        },
{
    if let Some(c) = colors {
        if let Some(t) = parse_toml(c) {
            return Some(t);
        }
    }
    match alacritty {
        Some(a) => match parse_toml(a) {
            Some(raw) => alacritty_entries(raw.as_slice()),
            None => None,
        },
        None => None,
    }
}

/// The string at top-level key `key` of `t`.
pub open spec fn string_at(t: Seq<Entry>, key: Seq<char>) -> Option<Seq<char>> {
    match lookup(t, seq![key]) {
        Some(Some(s)) => Some(s),
        _ => None,
    }
}

/// Colour `key` of table `t` may be read as `#rrggbb` without cutting a
/// character in two.
pub open spec fn readable_at(t: Seq<Entry>, key: Seq<char>) -> bool {
    match string_at(t, key) {
        Some(s) => hex_readable(s),
        None => true,
    }
}

/// Every colour the palette reads from `t` can be read.
pub open spec fn palette_readable(t: Seq<Entry>) -> bool {
    readable_at(t, "accent"@) && readable_at(t, "background"@) && readable_at(t, "dark_background"@) && readable_at(t, "darker_background"@) && readable_at(t, "lighter_background"@) && readable_at(t, "foreground"@) && readable_at(t, "light_foreground"@) && readable_at(t, "dark_foreground"@) && readable_at(t, "muted"@) && readable_at(t, "selection"@) && readable_at(t, "red"@) && readable_at(t, "orange"@) && readable_at(t, "yellow"@) && readable_at(t, "green"@) && readable_at(t, "cyan"@) && readable_at(t, "blue"@) && readable_at(t, "magenta"@) && readable_at(t, "brown"@)
}

pub open spec fn opt_entries(t: Option<&[TomlEntry]>) -> Option<Seq<Entry>> {
    match t {
        Some(v) => Some(entries_view(v@)),
        None => None,
    }
}

/// Colour `key` of table `t` written as `#rrggbb`, else `d`.
pub open spec fn colour_or(t: Option<Seq<Entry>>, key: Seq<char>, d: Rgba) -> Rgba {
    match t {
        Some(t) => match string_at(t, key) {
            Some(s) => match hex_colour(s) {
                Some(c) => c,
                None => d,
            },
            None => d,
        },
        None => d,
    }
}

/// Whether `v`, the value at a key, reads as anything but `light`.
pub open spec fn not_light(v: Option<Seq<char>>) -> bool {
    v != Some("light"@)
}

/// A theme is dark unless its `mode` (or, without one, its `theme_type`)
/// says `light`.
pub open spec fn theme_dark(t: Option<Seq<Entry>>) -> bool {
    match t {
        Some(t) => match lookup(t, seq!["mode"@]) {
            Some(v) => not_light(v),
            None => match lookup(t, seq!["theme_type"@]) {
                Some(v) => not_light(v),
                None => true,
            },
        },
        None => true,
    }
}

pub open spec fn rgb(r: u8, g: u8, b: u8) -> Rgba {
    Rgba { r, g, b, a: 255 }
}

/// The colours a theme gives the desk, the paper and the inks.
#[derive(Clone, Copy, Debug, PartialEq, Eq, Structural)]
pub struct ThemeColors {
    pub dark: bool,
    pub accent: Rgba,
    pub background: Rgba,
    pub dark_background: Rgba,
    pub darker_background: Rgba,
    pub lighter_background: Rgba,
    pub foreground: Rgba,
    pub dim_foreground: Rgba,
    pub muted: Rgba,
    pub selection: Rgba,
    pub red: Rgba,
    pub orange: Rgba,
    pub yellow: Rgba,
    pub green: Rgba,
    pub cyan: Rgba,
    pub blue: Rgba,
    pub magenta: Rgba,
    pub brown: Rgba,
    pub paper: Rgba,
    pub ink: Rgba,
    pub shadow: Rgba,
}

/// The colours of table `t`: each colour its key's `#rrggbb` value, else
/// its fallback key's, else its default; paper, ink and the shadow's
/// opacity by whether the theme is dark. Without a table every colour is
/// its default and the theme is dark.
pub open spec fn theme_colors_spec(t: Option<Seq<Entry>>) -> ThemeColors {
    let dark = theme_dark(t);
    let lighter = colour_or(t, "lighter_background"@, rgb(0x24, 0x28, 0x3b));
    ThemeColors {
        dark,
        accent: colour_or(t, "accent"@, rgb(0x7a, 0xa2, 0xf7)),
        background: colour_or(t, "background"@, rgb(0x1a, 0x1b, 0x26)),
        dark_background: colour_or(t, "dark_background"@, rgb(0x13, 0x14, 0x1c)),
        darker_background: colour_or(t, "darker_background"@, rgb(0x0e, 0x0e, 0x14)),
        lighter_background: lighter,
        foreground: colour_or(t, "foreground"@, rgb(0xa9, 0xb1, 0xd6)),
        dim_foreground: colour_or(
            t,
            "light_foreground"@,
            colour_or(t, "dark_foreground"@, rgb(0x56, 0x5f, 0x89)),
        ),
        muted: colour_or(t, "muted"@, rgb(0x41, 0x48, 0x68)),
        selection: colour_or(t, "selection"@, lighter),
        red: colour_or(t, "red"@, rgb(0xf7, 0x76, 0x8e)),
        orange: colour_or(t, "orange"@, rgb(0xeb, 0x92, 0x7b)),
        yellow: colour_or(t, "yellow"@, rgb(0xe0, 0xaf, 0x68)),
        green: colour_or(t, "green"@, rgb(0x9e, 0xce, 0x6a)),
        cyan: colour_or(t, "cyan"@, rgb(0x44, 0x9d, 0xab)),
        blue: colour_or(t, "blue"@, rgb(0x7a, 0xa2, 0xf7)),
        magenta: colour_or(t, "magenta"@, rgb(0xad, 0x8e, 0xe6)),
        brown: colour_or(t, "brown"@, rgb(0x75, 0x49, 0x3d)),
        paper: if dark {
            rgb(0xf3, 0xea, 0xd8)
        } else {
            rgb(0xff, 0xfc, 0xf5)
        },
        ink: if dark {
            rgb(0x1c, 0x18, 0x14)
        } else {
            rgb(0x22, 0x1c, 0x16)
        },
        shadow: Rgba { r: 0, g: 0, b: 0, a: if dark { 90 } else { 40 } },
    }
}

fn string_entry<'a>(t: &'a [TomlEntry], key: &str) -> (r: Option<&'a str>)
    ensures
        opt_text(r) == string_at(entries_view(t@), key@),
{
    let path: [&str; 1] = [key];
    assert(key_path(path@) =~= seq![key@]);
    match find(t, &path) {
        Some(i) => match &t[i].text {
            Some(s) => Some(s.as_str()),
            None => None,
        },
        None => None,
    }
}

/// Colour `key` of `t`, else `d`.
fn colour_at(t: Option<&[TomlEntry]>, key: &str, d: Rgba) -> (c: Rgba)
    requires
        t matches Some(v) ==> readable_at(entries_view(v@), key@),
    ensures
        c == colour_or(opt_entries(t), key@, d),
{
    match t {
        Some(v) => match string_entry(v, key) {
            Some(s) => match parse_hex(s) {
                Some(c) => c,
                None => d,
            },
            None => d,
        },
        None => d,
    }
}

/// Whether the value at top-level key `key` of `t`, if there, reads as
/// anything but `light`.
fn key_not_light(t: &[TomlEntry], key: &str) -> (r: Option<bool>)
    ensures
        r == match lookup(entries_view(t@), seq![key@]) {
            Some(v) => Some(not_light(v)),
            None => None::<bool>,
        },
{
    let path: [&str; 1] = [key];
    assert(key_path(path@) =~= seq![key@]);
    match find(t, &path) {
        Some(i) => match &t[i].text {
            Some(s) => Some(!same_text(s.as_str(), "light")),
            None => Some(true),
        },
        None => None,
    }
}

/// Whether every colour the palette reads from `t` can be read.
pub fn palette_parse_ok(t: &[TomlEntry]) -> (r: bool)
    ensures
        r == palette_readable(entries_view(t@)),
{
    let ok_0 = readable_key(t, "accent");
    let ok_1 = readable_key(t, "background");
    let ok_2 = readable_key(t, "dark_background");
    let ok_3 = readable_key(t, "darker_background");
    let ok_4 = readable_key(t, "lighter_background");
    let ok_5 = readable_key(t, "foreground");
    let ok_6 = readable_key(t, "light_foreground");
    let ok_7 = readable_key(t, "dark_foreground");
    let ok_8 = readable_key(t, "muted");
    let ok_9 = readable_key(t, "selection");
    let ok_10 = readable_key(t, "red");
    let ok_11 = readable_key(t, "orange");
    let ok_12 = readable_key(t, "yellow");
    let ok_13 = readable_key(t, "green");
    let ok_14 = readable_key(t, "cyan");
    let ok_15 = readable_key(t, "blue");
    let ok_16 = readable_key(t, "magenta");
    let ok_17 = readable_key(t, "brown");
    ok_0 && ok_1 && ok_2 && ok_3 && ok_4 && ok_5 && ok_6 && ok_7 && ok_8 && ok_9 && ok_10 && ok_11 && ok_12 && ok_13 && ok_14 && ok_15 && ok_16 && ok_17
}

fn readable_key(t: &[TomlEntry], key: &str) -> (r: bool)
    ensures
        r == readable_at(entries_view(t@), key@),
{
    match string_entry(t, key) {
        Some(s) => crate::look::hex_parse_ok(s),
        None => true,
    }
}

/// The colours of the theme table `t` (see `theme_colors_spec`).
pub fn theme_colors(t: Option<&[TomlEntry]>) -> (c: ThemeColors)
    requires
        t matches Some(v) ==> palette_readable(entries_view(v@)),
    ensures
        c == theme_colors_spec(opt_entries(t)),
{
    let dark = match t {
        Some(v) => match key_not_light(v, "mode") {
            Some(b) => b,
            None => match key_not_light(v, "theme_type") {
                Some(b) => b,
                None => true,
            },
        },
        None => true,
    };
    let lighter = colour_at(t, "lighter_background", Rgba::rgb(0x24, 0x28, 0x3b));
    let dim = colour_at(t, "dark_foreground", Rgba::rgb(0x56, 0x5f, 0x89));
    ThemeColors {
        dark,
        accent: colour_at(t, "accent", Rgba::rgb(0x7a, 0xa2, 0xf7)),
        background: colour_at(t, "background", Rgba::rgb(0x1a, 0x1b, 0x26)),
        dark_background: colour_at(t, "dark_background", Rgba::rgb(0x13, 0x14, 0x1c)),
        darker_background: colour_at(t, "darker_background", Rgba::rgb(0x0e, 0x0e, 0x14)),
        lighter_background: lighter,
        foreground: colour_at(t, "foreground", Rgba::rgb(0xa9, 0xb1, 0xd6)),
        dim_foreground: colour_at(t, "light_foreground", dim),
        muted: colour_at(t, "muted", Rgba::rgb(0x41, 0x48, 0x68)),
        selection: colour_at(t, "selection", lighter),
        red: colour_at(t, "red", Rgba::rgb(0xf7, 0x76, 0x8e)),
        orange: colour_at(t, "orange", Rgba::rgb(0xeb, 0x92, 0x7b)),
        yellow: colour_at(t, "yellow", Rgba::rgb(0xe0, 0xaf, 0x68)),
        green: colour_at(t, "green", Rgba::rgb(0x9e, 0xce, 0x6a)),
        cyan: colour_at(t, "cyan", Rgba::rgb(0x44, 0x9d, 0xab)),
        blue: colour_at(t, "blue", Rgba::rgb(0x7a, 0xa2, 0xf7)),
        magenta: colour_at(t, "magenta", Rgba::rgb(0xad, 0x8e, 0xe6)),
        brown: colour_at(t, "brown", Rgba::rgb(0x75, 0x49, 0x3d)),
        paper: if dark {
            Rgba::rgb(0xf3, 0xea, 0xd8)
        } else {
            Rgba::rgb(0xff, 0xfc, 0xf5)
        },
        ink: if dark {
            Rgba::rgb(0x1c, 0x18, 0x14)
        } else {
            Rgba::rgb(0x22, 0x1c, 0x16)
        },
        shadow: Rgba { r: 0, g: 0, b: 0, a: if dark { 90 } else { 40 } },
    }
}

impl ThemeColors {
    /// The highlighter washes: yellow, green, magenta, cyan and orange at
    /// opacity 90.
    pub fn highs(&self) -> (r: Vec<Rgba>)
        ensures
            r@ == seq![self.yellow, self.green, self.magenta, self.cyan, self.orange].map_values(
                |c: Rgba| Rgba { a: 90, ..c },
            ),
    {
        let r = vec![
            Rgba { a: 90, ..self.yellow },
            Rgba { a: 90, ..self.green },
            Rgba { a: 90, ..self.magenta },
            Rgba { a: 90, ..self.cyan },
            Rgba { a: 90, ..self.orange },
        ];
        assert(r@ =~= seq![self.yellow, self.green, self.magenta, self.cyan, self.orange].map_values(
            |c: Rgba| Rgba { a: 90, ..c },
        ));
        r
    }

    /// The cover cloths: brown, red, green, blue, magenta, orange, cyan and
    /// the darker background.
    pub fn cloth(&self) -> (r: Vec<Rgba>)
        ensures
            r@ == seq![self.brown, self.red, self.green, self.blue, self.magenta, self.orange, self.cyan, self.darker_background],
    {
        vec![self.brown, self.red, self.green, self.blue, self.magenta, self.orange, self.cyan, self.darker_background]
    }
}

} // verus!
