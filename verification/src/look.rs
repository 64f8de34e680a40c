//! The desk's chrome follows the active Omarchy theme: where the theme is
//! staged, how its name reads, and how its colours are written.

use vstd::prelude::*;
use vstd::utf8::is_char_boundary;
use crate::document::Moment;
use crate::ink::Rgba;
use crate::text::{chars_of, push_str, string_of, to_lowercase, to_uppercase, trim, trimmed, lowercase, uppercase};

verus! {

/// What identifies the theme the chrome was built from: its name, when its
/// colours file last changed, and the monospace font file.
#[derive(Clone, Debug)]
pub struct ThemeStamp {
    pub slug: String,
    pub colors_mtime: Option<Moment>,
    pub font_file: Option<String>,
}

impl ThemeStamp {
    /// The staged theme has moved on from this stamp: another name, or a
    /// colours file changed at another time.
    pub fn drifted(&self, slug: &str, colors_mtime: Option<Moment>) -> (r: bool)
        ensures
            r == (slug@ != self.slug@ || colors_mtime != self.colors_mtime),
    {
        let mine = chars_of(self.slug.as_str());
        let theirs = chars_of(slug);
        let mut same = mine.len() == theirs.len();
        let mut i: usize = 0;
        while same && i < mine.len()
            invariant
                0 <= i <= mine@.len(),
                same ==> mine@.len() == theirs@.len(),
                same ==> forall|j: int| 0 <= j < i ==> mine@[j] == theirs@[j],
                !same ==> mine@ != theirs@,
            decreases mine.len() - i,
        {
            if mine[i] != theirs[i] {
                same = false;
            }
            i = i + 1;
        }
        if same {
            assert(mine@ =~= theirs@);
        }
        let time_same = match (colors_mtime, self.colors_mtime) {
            (Some(a), Some(b)) => a.secs == b.secs && a.nanos == b.nanos,
            (None, None) => true,
            _ => false,
        };
        !same || !time_same
    }
}

/// `rel` appended to the path `base`, with one `/` between them, as
/// `PathBuf::join` does for a relative `rel`.
pub open spec fn join_path(base: Seq<char>, rel: Seq<char>) -> Seq<char> {
    if base.len() == 0 {
        rel
    } else if base.last() == '/' {
        base + rel
    } else {
        base + seq!['/'] + rel
    }
}

fn join_into(base: Vec<char>, rel: &str) -> (r: Vec<char>)
    ensures
        r@ == join_path(base@, rel@),
{
    let mut out = base;
    if out.len() > 0 && out[out.len() - 1] != '/' {
        out.push('/');
    }
    push_str(&mut out, rel);
    out
}

/// The directory Omarchy stages the current theme in, under
/// `$XDG_STATE_HOME`, else under `$HOME/.local/state`, else under
/// `./.local/state`.
pub open spec fn current_dir_spec(xdg_state_home: Option<Seq<char>>, home: Option<Seq<char>>) -> Seq<char> {
    let base = match xdg_state_home {
        Some(x) => x,
        None => join_path(
            match home {
                Some(h) => h,
                None => "."@,
            },
            ".local/state"@,
        ),
    };
    join_path(join_path(base, "omarchy/current"@), "theme"@)
}

/// The staged theme directory, given the values of `XDG_STATE_HOME` and
/// `HOME`.
pub fn current_dir(xdg_state_home: Option<&str>, home: Option<&str>) -> (r: String)
    ensures
        r@ == current_dir_spec(
            match xdg_state_home {
                Some(x) => Some(x@),
                None => None,
            },
            match home {
                Some(h) => Some(h@),
                None => None,
            },
        ),
{
    let base: Vec<char> = match xdg_state_home {
        Some(x) => chars_of(x),
        None => {
            let h = match home {
                Some(h) => chars_of(h),
                None => chars_of("."),
            };
            join_into(h, ".local/state")
        },
    };
    let state = join_into(base, "omarchy/current");
    let dir = join_into(state, "theme");
    string_of(dir.as_slice())
}

/// `s` with every space turned into a hyphen.
pub open spec fn hyphenated(s: Seq<char>) -> Seq<char> {
    s.map_values(|c: char| if c == ' ' { '-' } else { c })
}

/// The slug of a theme name: trimmed, lowercased, spaces as hyphens.
pub fn slugify(name: &str) -> (r: String)
    ensures
        r@ == hyphenated(lowercase(trimmed(name@))),
{
    let low = to_lowercase(trim(name));
    let cs = chars_of(low.as_str());
    let mut out: Vec<char> = Vec::new();
    let mut i: usize = 0;
    while i < cs.len()
        invariant
            0 <= i <= cs@.len(),
            out@ == hyphenated(cs@.take(i as int)),
        decreases cs.len() - i,
    {
        let c = cs[i];
        out.push(if c == ' ' { '-' } else { c });
        i = i + 1;
        assert(out@ =~= hyphenated(cs@.take(i as int)));
    }
    assert(cs@.take(i as int) =~= cs@);
    string_of(out.as_slice())
}

/// The words of a slug: its maximal runs of characters other than `-`.
pub open spec fn words(s: Seq<char>) -> Seq<Seq<char>>
    decreases s.len(),
{
    if s.len() == 0 {
        seq![]
    } else {
        let w = words(s.drop_last());
        let c = s.last();
        if c == '-' {
            w
        } else if s.len() >= 2 && s[s.len() - 2] != '-' && w.len() > 0 {
            w.update(w.len() - 1, w.last().push(c))
        } else {
            w.push(seq![c])
        }
    }
}

/// A word with its first character uppercased.
pub open spec fn capitalized(w: Seq<char>) -> Seq<char> {
    if w.len() == 0 {
        w
    } else {
        uppercase(w[0]) + w.drop_first()
    }
}

/// Words joined by single spaces.
pub open spec fn spaced(ws: Seq<Seq<char>>) -> Seq<char>
    decreases ws.len(),
{
    if ws.len() == 0 {
        seq![]
    } else if ws.len() == 1 {
        ws[0]
    } else {
        spaced(ws.drop_last()) + seq![' '] + ws.last()
    }
}

/// The display name of a theme slug: its words capitalized, joined by spaces.
pub open spec fn pretty_spec(slug: Seq<char>) -> Seq<char> {
    spaced(words(slug).map_values(|w: Seq<char>| capitalized(w)))
}

proof fn lemma_words_shape(s: Seq<char>)
    ensures
        s.len() > 0 && s.last() != '-' ==> words(s).len() > 0,
        forall|k: int| 0 <= k < words(s).len() ==> (#[trigger] words(s)[k]).len() > 0,
    decreases s.len(),
{
    if s.len() > 0 {
        let w = words(s.drop_last());
        lemma_words_shape(s.drop_last());
        let c = s.last();
        if c != '-' && s.len() >= 2 && s[s.len() - 2] != '-' && w.len() > 0 {
            let w2 = w.update(w.len() - 1, w.last().push(c));
            assert forall|k: int| 0 <= k < w2.len() implies (#[trigger] w2[k]).len() > 0 by {
                if k < w.len() - 1 {
                    assert(w2[k] == w[k]);
                }
            }
        } else if c != '-' {
            let w2 = w.push(seq![c]);
            assert forall|k: int| 0 <= k < w2.len() implies (#[trigger] w2[k]).len() > 0 by {
                if k < w.len() {
                    assert(w2[k] == w[k]);
                }
            }
        }
    }
}

/// The display name of a theme slug: `tokyo-night` reads `Tokyo Night`.
pub fn pretty_name(slug: &str) -> (r: String)
    ensures
        r@ == pretty_spec(slug@),
{
    let cs = chars_of(slug);
    let mut out: Vec<char> = Vec::new();
    let mut any_word = false;
    let mut i: usize = 0;
    while i < cs.len()
        invariant
            0 <= i <= cs@.len(),
            out@ == pretty_spec(cs@.take(i as int)),
            any_word == (words(cs@.take(i as int)).len() > 0),
        decreases cs.len() - i,
    {
        let c = cs[i];
        let ghost pre = cs@.take(i as int);
        let ghost post = cs@.take(i + 1);
        proof {
            assert(post.drop_last() =~= pre);
            assert(post.last() == c);
            lemma_words_shape(pre);
        }
        let ghost ws = words(pre);
        let ghost caps = ws.map_values(|w: Seq<char>| capitalized(w));
        if c == '-' {
            assert(words(post) == ws);
        } else if i >= 1 && cs[i - 1] != '-' && any_word {
            out.push(c);
            proof {
                assert(pre.last() == cs@[i - 1]);
                let n = ws.len();
                let last2 = ws.last().push(c);
                let ws2 = ws.update(n - 1, last2);
                assert(words(post) == ws2);
                let caps2 = ws2.map_values(|w: Seq<char>| capitalized(w));
                assert(capitalized(last2) =~= capitalized(ws.last()).push(c));
                assert(caps2 =~= caps.update(n - 1, caps[n - 1].push(c)));
                lemma_spaced_extend(caps, c);
            }
        } else {
            if any_word {
                out.push(' ');
            }
            let up = to_uppercase(c);
            push_str(&mut out, up.as_str());
            any_word = true;
            proof {
                assert(words(post) == ws.push(seq![c]));
                let caps2 = ws.push(seq![c]).map_values(|w: Seq<char>| capitalized(w));
                assert(capitalized(seq![c]) =~= uppercase(c));
                assert(caps2 =~= caps.push(uppercase(c)));
                lemma_spaced_push(caps, uppercase(c));
            }
        }
        i = i + 1;
        assert(out@ =~= pretty_spec(cs@.take(i as int)));
    }
    assert(cs@.take(i as int) =~= cs@);
    string_of(out.as_slice())
}

proof fn lemma_spaced_extend(ws: Seq<Seq<char>>, c: char)
    requires
        ws.len() > 0,
    ensures
        spaced(ws.update(ws.len() - 1, ws.last().push(c))) == spaced(ws).push(c),
{
    let ws2 = ws.update(ws.len() - 1, ws.last().push(c));
    if ws.len() == 1 {
        assert(ws2[0] == ws[0].push(c));
    } else {
        assert(ws2.drop_last() =~= ws.drop_last());
        assert(spaced(ws2) =~= spaced(ws).push(c));
    }
}

proof fn lemma_spaced_push(ws: Seq<Seq<char>>, w: Seq<char>)
    ensures
        spaced(ws.push(w)) == if ws.len() == 0 {
            w
        } else {
            spaced(ws) + seq![' '] + w
        },
{
    assert(ws.push(w).drop_last() =~= ws);
}

} // verus!

verus! {

/// The value of a hexadecimal digit byte.
pub open spec fn hex_val(b: u8) -> Option<int> {
    if 0x30 <= b && b <= 0x39 {
        Some(b - 0x30)
    } else if 0x61 <= b && b <= 0x66 {
        Some(b - 0x61 + 10)
    } else if 0x41 <= b && b <= 0x46 {
        Some(b - 0x41 + 10)
    } else {
        None
    }
}

/// What `u8::from_str_radix` reads in base 16 from the two bytes `x y`:
/// two digits, or a `+` sign and one digit.
pub open spec fn radix_pair(x: u8, y: u8) -> Option<u8> {
    if x == 0x2B {
        match hex_val(y) {
            Some(v) => Some(v as u8),
            None => None,
        }
    } else {
        match (hex_val(x), hex_val(y)) {
            (Some(a), Some(b)) => Some((a * 16 + b) as u8),
            _ => None,
        }
    }
}

/// How many `#` bytes `b` starts with.
pub open spec fn hash_count(b: Seq<u8>) -> nat
    decreases b.len(),
{
    if b.len() > 0 && b[0] == 0x23 {
        1 + hash_count(b.drop_first())
    } else {
        0
    }
}

/// The UTF-8 bytes of `s`, trimmed.
pub open spec fn trimmed_bytes(s: Seq<char>) -> Seq<u8> {
    vstd::utf8::encode_utf8(trimmed(s))
}

/// The bytes of `s` once trimmed and rid of its leading `#`s.
pub open spec fn hex_body(s: Seq<char>) -> Seq<u8> {
    trimmed_bytes(s).skip(hash_count(trimmed_bytes(s)) as int)
}

/// The colour `#rrggbb` names, read from the first six bytes after the
/// `#`s; anything after them is ignored.
pub open spec fn hex_colour(s: Seq<char>) -> Option<Rgba> {
    let h = hex_body(s);
    if h.len() < 6 {
        None
    } else {
        match (radix_pair(h[0], h[1]), radix_pair(h[2], h[3]), radix_pair(h[4], h[5])) {
            (Some(r), Some(g), Some(b)) => Some(Rgba { r, g, b, a: 255 }),
            _ => None,
        }
    }
}

/// Reading the digit pairs never cuts a character in two: each pair read
/// ends on a character boundary.
pub open spec fn hex_readable(s: Seq<char>) -> bool {
    let b = trimmed_bytes(s);
    let k = hash_count(b) as int;
    let h = hex_body(s);
    h.len() >= 6 ==> {
        &&& is_char_boundary(b, k + 2)
        &&& radix_pair(h[0], h[1]) is Some ==> is_char_boundary(b, k + 4)
        &&& radix_pair(h[0], h[1]) is Some && radix_pair(h[2], h[3]) is Some ==> is_char_boundary(
            b,
            k + 6,
        )
    }
}

fn hex_digit(b: u8) -> (r: Option<u8>)
    ensures
        match hex_val(b) {
            Some(v) => r == Some(v as u8),
            None => r is None,
        },
{
    if 0x30 <= b && b <= 0x39 {
        Some(b - 0x30)
    } else if 0x61 <= b && b <= 0x66 {
        Some(b - 0x61 + 10)
    } else if 0x41 <= b && b <= 0x46 {
        Some(b - 0x41 + 10)
    } else {
        None
    }
}

fn pair_value(x: u8, y: u8) -> (r: Option<u8>)
    ensures
        r == radix_pair(x, y),
{
    if x == 0x2B {
        return hex_digit(y);
    }
    match (hex_digit(x), hex_digit(y)) {
        (Some(a), Some(b)) => Some(a * 16 + b),
        _ => None,
    }
}

/// The number of leading `#` bytes of `b`.
fn count_hashes(b: &[u8]) -> (k: usize)
    ensures
        k == hash_count(b@),
        k <= b@.len(),
{
    let mut k: usize = 0;
    assert(b@.skip(0) =~= b@);
    while k < b.len() && b[k] == 0x23
        invariant
            0 <= k <= b@.len(),
            hash_count(b@) == k + hash_count(b@.skip(k as int)),
        decreases b.len() - k,
    {
        assert(b@.skip(k as int).drop_first() =~= b@.skip(k + 1));
        k = k + 1;
    }
    k
}

/// Whether `parse_hex` can read `s` without cutting a character in two.
pub fn hex_parse_ok(s: &str) -> (r: bool)
    ensures
        r == hex_readable(s@),
{
    let t = trim(s);
    let b = t.as_bytes();
    let k = count_hashes(b);
    if b.len() - k < 6 {
        return true;
    }
    assert(b@.skip(k as int)[0] == b@[k as int] && b@.skip(k as int)[1] == b@[k + 1]);
    assert(b@.skip(k as int)[2] == b@[k + 2] && b@.skip(k as int)[3] == b@[k + 3]);
    if !t.is_char_boundary(k + 2) {
        return false;
    }
    if pair_value(b[k], b[k + 1]).is_none() {
        return true;
    }
    if !t.is_char_boundary(k + 4) {
        return false;
    }
    if pair_value(b[k + 2], b[k + 3]).is_none() {
        return true;
    }
    t.is_char_boundary(k + 6)
}

/// The colour written `#rrggbb` (the `#`, surrounding whitespace and any
/// bytes after the sixth digit are optional).
pub fn parse_hex(s: &str) -> (r: Option<Rgba>)
    requires
        hex_readable(s@),
    ensures
        r == hex_colour(s@),
{
    let t = trim(s);
    let b = t.as_bytes();
    let k = count_hashes(b);
    if b.len() - k < 6 {
        return None;
    }
    let ghost h = b@.skip(k as int);
    assert(h[0] == b@[k as int] && h[1] == b@[k + 1] && h[2] == b@[k + 2]);
    assert(h[3] == b@[k + 3] && h[4] == b@[k + 4] && h[5] == b@[k + 5]);
    let r = match pair_value(b[k], b[k + 1]) {
        Some(v) => v,
        None => {
            return None;
        },
    };
    let g = match pair_value(b[k + 2], b[k + 3]) {
        Some(v) => v,
        None => {
            return None;
        },
    };
    let bl = match pair_value(b[k + 4], b[k + 5]) {
        Some(v) => v,
        None => {
            return None;
        },
    };
    Some(Rgba::rgb(r, g, bl))
}

} // verus!
