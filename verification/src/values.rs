//! CSS colour values: `#rgb`, `#rrggbb`, `rgb(r, g, b)`, `rgba(r, g, b, a)`
//! and a table of named colours.
//!
//! The alpha of `rgba(...)` is a decimal fraction; reading it is left to the
//! caller, which receives its text.
use vstd::prelude::*;
use crate::html::chars_eq;
use crate::text::{
    chars_of, lowercase, parse_u8, parse_u8_vec, split_on, split_vec, string_of, sub_chars,
    to_lowercase, trim, trim_vec,
};

verus! {

/// An RGBA colour.
#[derive(Clone, Copy, Debug)]
pub struct Color {
    pub r: u8,
    pub g: u8,
    pub b: u8,
    pub a: u8,
}

impl Color {
    /// Opaque black.
    pub fn black() -> (c: Color)
        ensures
            c == (Color { r: 0, g: 0, b: 0, a: 255 }),
    {
        Color { r: 0, g: 0, b: 0, a: 255 }
    }

    /// Opaque white.
    pub fn white() -> (c: Color)
        ensures
            c == (Color { r: 255, g: 255, b: 255, a: 255 }),
    {
        Color { r: 255, g: 255, b: 255, a: 255 }
    }

    /// Fully transparent.
    pub fn transparent() -> (c: Color)
        ensures
            c == (Color { r: 0, g: 0, b: 0, a: 0 }),
    {
        Color { r: 0, g: 0, b: 0, a: 0 }
    }

    /// The colour as `0x00RRGGBB`.
    pub fn as_u32(&self) -> (v: u32)
        ensures
            v == self.r * 65536 + self.g * 256 + self.b,
    {
        let r = self.r as u32;
        let g = self.g as u32;
        let b = self.b as u32;
        assert((r << 16 | g << 8 | b) == r * 65536 + g * 256 + b) by (bit_vector)
            requires
                r < 256,
                g < 256,
                b < 256,
        ;
        r << 16 | g << 8 | b
    }
}


// ---------------------------------------------------------------------------
// Hexadecimal colours
// ---------------------------------------------------------------------------

/// `char::to_digit(16)`.
pub open spec fn hex_digit(c: char) -> Option<nat> {
    if '0' <= c && c <= '9' {
        Some((c as nat - 48) as nat)
    } else if 'a' <= c && c <= 'f' {
        Some((c as nat - 87) as nat)
    } else if 'A' <= c && c <= 'F' {
        Some((c as nat - 55) as nat)
    } else {
        None
    }
}

/// `u8::from_str_radix(.., 16)` on the text of two characters: an optional
/// `+` and hexadecimal digits.
pub open spec fn hex_pair(a: char, b: char) -> Option<u8> {
    if a == '+' {
        match hex_digit(b) {
            Some(d) => Some(d as u8),
            None => None,
        }
    } else {
        match (hex_digit(a), hex_digit(b)) {
            (Some(x), Some(y)) => Some((16 * x + y) as u8),
            _ => None,
        }
    }
}

/// The number of bytes of `c` in UTF-8.
pub open spec fn char_width(c: char) -> nat {
    let u = c as u32;
    if u < 0x80 {
        1
    } else if u < 0x800 {
        2
    } else if u < 0x10000 {
        3
    } else {
        4
    }
}

/// The number of bytes of `s` in UTF-8.
pub open spec fn byte_len(s: Seq<char>) -> nat
    decreases s.len(),
{
    if s.len() == 0 {
        0
    } else {
        byte_len(s.drop_last()) + char_width(s.last())
    }
}

/// Whether, with `i` characters of one byte before it, the byte offset `i + 2`
/// falls inside a character.
pub open spec fn cut_inside(h: Seq<char>, i: int) -> bool {
    &&& 0 <= i < h.len()
    &&& (char_width(h[i]) >= 3 || (char_width(h[i]) == 1 && i + 1 < h.len() && char_width(h[i + 1])
        >= 2))
}

/// The six-byte texts on which reading `#rrggbb` by byte ranges would cut a
/// character in two: the first range, or, once the first pair is read, the
/// second.
pub open spec fn hex_panics(h: Seq<char>) -> bool {
    &&& byte_len(h) == 6
    &&& (cut_inside(h, 0) || (h.len() >= 2 && hex_pair(h[0], h[1]) is Some && cut_inside(h, 2)))
}

/// The colour `#` followed by `h` names: three digits, each doubled, or three
/// pairs.
pub open spec fn hex_color(h: Seq<char>) -> Option<Color> {
    if byte_len(h) == 3 {
        if h.len() == 3 && hex_digit(h[0]) is Some && hex_digit(h[1]) is Some && hex_digit(h[2]) is Some {
            Some(
                Color {
                    r: (17 * hex_digit(h[0]).unwrap()) as u8,
                    g: (17 * hex_digit(h[1]).unwrap()) as u8,
                    b: (17 * hex_digit(h[2]).unwrap()) as u8,
                    a: 255,
                },
            )
        } else {
            None
        }
    } else if byte_len(h) == 6 {
        if h.len() == 6 && hex_pair(h[0], h[1]) is Some && hex_pair(h[2], h[3]) is Some && hex_pair(
            h[4],
            h[5],
        ) is Some {
            Some(
                Color {
                    r: hex_pair(h[0], h[1]).unwrap(),
                    g: hex_pair(h[2], h[3]).unwrap(),
                    b: hex_pair(h[4], h[5]).unwrap(),
                    a: 255,
                },
            )
        } else {
            None
        }
    } else {
        None
    }
}

fn hex_digit_exec(c: char) -> (r: Option<u32>)
    ensures
        r matches Some(d) ==> hex_digit(c) == Some(d as nat) && d < 16,
        r is None ==> hex_digit(c) is None,
{
    if '0' <= c && c <= '9' {
        Some(c as u32 - 48)
    } else if 'a' <= c && c <= 'f' {
        Some(c as u32 - 87)
    } else if 'A' <= c && c <= 'F' {
        Some(c as u32 - 55)
    } else {
        None
    }
}

pub(crate) fn hex_pair_exec(a: char, b: char) -> (r: Option<u8>)
    ensures
        r == hex_pair(a, b),
{
    if a == '+' {
        match hex_digit_exec(b) {
            Some(d) => Some(d as u8),
            None => None,
        }
    } else {
        match (hex_digit_exec(a), hex_digit_exec(b)) {
            (Some(x), Some(y)) => Some((16 * x + y) as u8),
            _ => None,
        }
    }
}

fn char_width_exec(c: char) -> (w: usize)
    ensures
        w == char_width(c),
{
    let u = c as u32;
    if u < 0x80 {
        1
    } else if u < 0x800 {
        2
    } else if u < 0x10000 {
        3
    } else {
        4
    }
}

proof fn lemma_byte_len_prefix(s: Seq<char>, k: int)
    requires
        0 <= k <= s.len(),
    ensures
        byte_len(s.take(k)) <= byte_len(s),
    decreases s.len() - k,
{
    if k < s.len() {
        assert(s.drop_last().take(k) =~= s.take(k));
        lemma_byte_len_prefix(s.drop_last(), k);
    } else {
        assert(s.take(k) =~= s);
    }
}

/// `byte_len(h)` where it is at most 6, else some number above 6.
fn byte_len_capped(h: &[char]) -> (r: usize)
    ensures
        r <= 6 ==> r == byte_len(h@),
        r > 6 ==> byte_len(h@) > 6,
{
    let mut bl: usize = 0;
    let mut i: usize = 0;
    assert(h@.take(0) =~= Seq::<char>::empty());
    while i < h.len() && bl <= 6
        invariant
            i <= h@.len(),
            bl == byte_len(h@.take(i as int)),
            bl <= 10,
        decreases h.len() - i,
    {
        assert(h@.take(i + 1).drop_last() =~= h@.take(i as int));
        bl = bl + char_width_exec(h[i]);
        i = i + 1;
    }
    if i == h.len() {
        assert(h@.take(i as int) =~= h@);
    } else {
        proof {
            lemma_byte_len_prefix(h@, i as int);
        }
    }
    bl
}

fn cut_inside_exec(h: &[char], i: usize) -> (r: bool)
    ensures
        r == cut_inside(h@, i as int),
{
    let n = h.len();
    if i >= n {
        return false;
    }
    let w = char_width_exec(h[i]);
    w >= 3 || (w == 1 && i + 1 < n && char_width_exec(h[i + 1]) >= 2)
}

fn hex_panics_exec(h: &[char]) -> (r: bool)
    ensures
        r == hex_panics(h@),
{
    if byte_len_capped(h) != 6 {
        return false;
    }
    cut_inside_exec(h, 0) || (h.len() >= 2 && hex_pair_exec(h[0], h[1]).is_some()
        && cut_inside_exec(h, 2))
}

/// Reads the digits of `#rgb` or `#rrggbb` (the text after `#`).
fn parse_hex(h: &[char]) -> (r: Option<Color>)
    requires
        !hex_panics(h@),
    ensures
        r == hex_color(h@),
{
    let bl = byte_len_capped(h);
    if bl == 3 {
        if h.len() != 3 {
            return None;
        }
        let r = hex_digit_exec(h[0]);
        let g = hex_digit_exec(h[1]);
        let b = hex_digit_exec(h[2]);
        match (r, g, b) {
            (Some(r), Some(g), Some(b)) => Some(
                Color { r: (r * 16 + r) as u8, g: (g * 16 + g) as u8, b: (b * 16 + b) as u8, a: 255 },
            ),
            _ => None,
        }
    } else if bl == 6 {
        if h.len() != 6 {
            return None;
        }
        let r = hex_pair_exec(h[0], h[1]);
        let g = hex_pair_exec(h[2], h[3]);
        let b = hex_pair_exec(h[4], h[5]);
        match (r, g, b) {
            (Some(r), Some(g), Some(b)) => Some(Color { r, g, b, a: 255 }),
            _ => None,
        }
    } else {
        None
    }
}


// ---------------------------------------------------------------------------
// Colour values
// ---------------------------------------------------------------------------

/// The named colours, in the order they are looked up.
pub open spec fn named_colors() -> Seq<(Seq<char>, Color)> {
    seq![
        ("black"@, Color { r: 0, g: 0, b: 0, a: 255 }),
        ("white"@, Color { r: 255, g: 255, b: 255, a: 255 }),
        ("red"@, Color { r: 220, g: 40, b: 40, a: 255 }),
        ("green"@, Color { r: 30, g: 150, b: 60, a: 255 }),
        ("blue"@, Color { r: 40, g: 90, b: 220, a: 255 }),
        ("yellow"@, Color { r: 230, g: 200, b: 30, a: 255 }),
        ("orange"@, Color { r: 230, g: 140, b: 30, a: 255 }),
        ("purple"@, Color { r: 140, g: 50, b: 180, a: 255 }),
        ("pink"@, Color { r: 230, g: 130, b: 170, a: 255 }),
        ("gray"@, Color { r: 130, g: 130, b: 130, a: 255 }),
        ("grey"@, Color { r: 130, g: 130, b: 130, a: 255 }),
        ("lightgray"@, Color { r: 210, g: 210, b: 210, a: 255 }),
        ("lightgrey"@, Color { r: 210, g: 210, b: 210, a: 255 }),
        ("darkgray"@, Color { r: 80, g: 80, b: 80, a: 255 }),
        ("navy"@, Color { r: 20, g: 30, b: 90, a: 255 }),
        ("teal"@, Color { r: 20, g: 130, b: 130, a: 255 }),
        ("transparent"@, Color { r: 0, g: 0, b: 0, a: 0 }),
    ]
}

/// The first named colour at or after `i` called `t`.
pub open spec fn named_from(t: Seq<char>, i: int) -> Option<Color>
    decreases 17 - i,
{
    if i < 0 || i >= 17 {
        None
    } else if named_colors()[i].0 == t {
        Some(named_colors()[i].1)
    } else {
        named_from(t, i + 1)
    }
}

fn named_entry(i: usize) -> (r: (&'static str, Color))
    requires
        i < 17,
    ensures
        (r.0@, r.1) == named_colors()[i as int],
{
    match i {
        0 => ("black", Color { r: 0, g: 0, b: 0, a: 255 }),
        1 => ("white", Color { r: 255, g: 255, b: 255, a: 255 }),
        2 => ("red", Color { r: 220, g: 40, b: 40, a: 255 }),
        3 => ("green", Color { r: 30, g: 150, b: 60, a: 255 }),
        4 => ("blue", Color { r: 40, g: 90, b: 220, a: 255 }),
        5 => ("yellow", Color { r: 230, g: 200, b: 30, a: 255 }),
        6 => ("orange", Color { r: 230, g: 140, b: 30, a: 255 }),
        7 => ("purple", Color { r: 140, g: 50, b: 180, a: 255 }),
        8 => ("pink", Color { r: 230, g: 130, b: 170, a: 255 }),
        9 => ("gray", Color { r: 130, g: 130, b: 130, a: 255 }),
        10 => ("grey", Color { r: 130, g: 130, b: 130, a: 255 }),
        11 => ("lightgray", Color { r: 210, g: 210, b: 210, a: 255 }),
        12 => ("lightgrey", Color { r: 210, g: 210, b: 210, a: 255 }),
        13 => ("darkgray", Color { r: 80, g: 80, b: 80, a: 255 }),
        14 => ("navy", Color { r: 20, g: 30, b: 90, a: 255 }),
        15 => ("teal", Color { r: 20, g: 130, b: 130, a: 255 }),
        _ => ("transparent", Color { r: 0, g: 0, b: 0, a: 0 }),
    }
}

fn named_color(t: &[char]) -> (r: Option<Color>)
    ensures
        r == named_from(t@, 0),
{
    let mut i: usize = 0;
    while i < 17
        invariant
            i <= 17,
            named_from(t@, 0) == named_from(t@, i as int),
        decreases 17 - i,
    {
        let (name, c) = named_entry(i);
        let nc = chars_of(name);
        if chars_eq(&nc, t) {
            return Some(c);
        }
        i = i + 1;
    }
    None
}

/// A colour value, or an `rgba(...)` whose alpha is still text.
#[derive(Clone, Debug)]
pub enum ColorValue {
    Solid(Color),
    Rgba { r: u8, g: u8, b: u8, alpha: String },
}

/// A colour value with the alpha text as characters.
pub enum ColorValueView {
    Solid(Color),
    Rgba(u8, u8, u8, Seq<char>),
}

impl View for ColorValue {
    type V = ColorValueView;

    open spec fn view(&self) -> ColorValueView {
        match self {
            ColorValue::Solid(c) => ColorValueView::Solid(*c),
            ColorValue::Rgba { r, g, b, alpha } => ColorValueView::Rgba(*r, *g, *b, alpha@),
        }
    }
}

pub open spec fn opt_color_view(o: Option<ColorValue>) -> Option<ColorValueView> {
    match o {
        Some(c) => Some(c@),
        None => None,
    }
}

pub open spec fn rgb_prefix() -> Seq<char> {
    seq!['r', 'g', 'b', '(']
}

pub open spec fn rgba_prefix() -> Seq<char> {
    seq!['r', 'g', 'b', 'a', '(']
}

/// The text between `prefix` and a final `)`.
pub open spec fn call_args(t: Seq<char>, prefix: Seq<char>) -> Option<Seq<char>> {
    if t.len() >= prefix.len() + 1 && t.take(prefix.len() as int) == prefix && t.last() == ')' {
        Some(t.subrange(prefix.len() as int, t.len() - 1))
    } else {
        None
    }
}

/// The comma-separated arguments, each trimmed.
pub open spec fn trimmed_args(inner: Seq<char>) -> Seq<Seq<char>> {
    split_on(inner, ',').map_values(|p: Seq<char>| trim(p))
}

/// `rgb(r, g, b)` with three numbers that fit in a byte.
pub open spec fn rgb_color(t: Seq<char>) -> Option<Color> {
    match call_args(t, rgb_prefix()) {
        Some(inner) => {
            let ps = trimmed_args(inner);
            if ps.len() == 3 && parse_u8(ps[0]) is Some && parse_u8(ps[1]) is Some && parse_u8(
                ps[2],
            ) is Some {
                Some(
                    Color {
                        r: parse_u8(ps[0]).unwrap(),
                        g: parse_u8(ps[1]).unwrap(),
                        b: parse_u8(ps[2]).unwrap(),
                        a: 255,
                    },
                )
            } else {
                None
            }
        },
        None => None,
    }
}

/// The colour value of a trimmed, lowercased text: `#` and hex digits;
/// `rgb(...)`; `rgba(...)` with four arguments, whose first three must be
/// bytes; or a name. A `#` that does not read, or an `rgba` whose channels do
/// not, gives no colour without trying what follows.
pub open spec fn color_text(t: Seq<char>) -> Option<ColorValueView> {
    if t.len() > 0 && t[0] == '#' {
        match hex_color(t.drop_first()) {
            Some(c) => Some(ColorValueView::Solid(c)),
            None => None,
        }
    } else if rgb_color(t) is Some {
        Some(ColorValueView::Solid(rgb_color(t).unwrap()))
    } else if call_args(t, rgba_prefix()) is Some && trimmed_args(
        call_args(t, rgba_prefix()).unwrap(),
    ).len() == 4 {
        let ps = trimmed_args(call_args(t, rgba_prefix()).unwrap());
        if parse_u8(ps[0]) is Some && parse_u8(ps[1]) is Some && parse_u8(ps[2]) is Some {
            Some(
                ColorValueView::Rgba(
                    parse_u8(ps[0]).unwrap(),
                    parse_u8(ps[1]).unwrap(),
                    parse_u8(ps[2]).unwrap(),
                    ps[3],
                ),
            )
        } else {
            None
        }
    } else {
        match named_from(t, 0) {
            Some(c) => Some(ColorValueView::Solid(c)),
            None => None,
        }
    }
}

/// Whether reading `t` as a colour cuts no character in two.
pub open spec fn color_text_ok(t: Seq<char>) -> bool {
    !(t.len() > 0 && t[0] == '#' && hex_panics(t.drop_first()))
}

fn call_args_exec(t: &[char], prefix: &[char]) -> (r: Option<Vec<char>>)
    ensures
        r matches Some(v) ==> call_args(t@, prefix@) == Some(v@),
        r is None ==> call_args(t@, prefix@) is None,
{
    let n = t.len();
    let p = prefix.len();
    if n < p || n - p < 1 {
        return None;
    }
    let mut i: usize = 0;
    while i < p
        invariant
            p == prefix@.len(),
            p < n == t@.len(),
            i <= p,
            forall|j: int| 0 <= j < i ==> t@[j] == prefix@[j],
        decreases p - i,
    {
        if t[i] != prefix[i] {
            assert(t@.take(p as int)[i as int] != prefix@[i as int]);
            return None;
        }
        i = i + 1;
    }
    assert(t@.take(p as int) =~= prefix@);
    if t[n - 1] != ')' {
        return None;
    }
    Some(sub_chars(t, p, n - 1))
}

fn trimmed_args_exec(inner: &[char]) -> (r: Vec<Vec<char>>)
    ensures
        r@.map_values(|v: Vec<char>| v@) == trimmed_args(inner@),
{
    let parts = split_vec(inner, ',');
    let ghost pv = parts@.map_values(|v: Vec<char>| v@);
    let mut out: Vec<Vec<char>> = Vec::new();
    let mut i: usize = 0;
    while i < parts.len()
        invariant
            pv == parts@.map_values(|v: Vec<char>| v@),
            pv == split_on(inner@, ','),
            i <= parts@.len(),
            out@.len() == i,
            forall|j: int| 0 <= j < i ==> (#[trigger] out@[j])@ == trim(pv[j]),
        decreases parts.len() - i,
    {
        out.push(trim_vec(&parts[i]));
        i = i + 1;
    }
    assert(out@.map_values(|v: Vec<char>| v@) =~= trimmed_args(inner@));
    out
}

fn rgb_color_exec(t: &[char]) -> (r: Option<Color>)
    ensures
        r == rgb_color(t@),
{
    let prefix = vec!['r', 'g', 'b', '('];
    assert(prefix@ =~= rgb_prefix());
    match call_args_exec(t, &prefix) {
        Some(inner) => {
            let ps = trimmed_args_exec(&inner);
            if ps.len() != 3 {
                return None;
            }
            assert(ps@[0]@ == trimmed_args(inner@)[0]);
            assert(ps@[1]@ == trimmed_args(inner@)[1]);
            assert(ps@[2]@ == trimmed_args(inner@)[2]);
            match (parse_u8_vec(&ps[0]), parse_u8_vec(&ps[1]), parse_u8_vec(&ps[2])) {
                (Some(r), Some(g), Some(b)) => Some(Color { r, g, b, a: 255 }),
                _ => None,
            }
        },
        None => None,
    }
}

fn color_text_exec(t: &[char]) -> (r: Option<ColorValue>)
    requires
        color_text_ok(t@),
    ensures
        opt_color_view(r) == color_text(t@),
{
    let n = t.len();
    if n > 0 && t[0] == '#' {
        let h = sub_chars(t, 1, n);
        assert(h@ =~= t@.drop_first());
        return match parse_hex(&h) {
            Some(c) => Some(ColorValue::Solid(c)),
            None => None,
        };
    }
    match rgb_color_exec(t) {
        Some(c) => {
            return Some(ColorValue::Solid(c));
        },
        None => {},
    }
    let prefix = vec!['r', 'g', 'b', 'a', '('];
    assert(prefix@ =~= rgba_prefix());
    match call_args_exec(t, &prefix) {
        Some(inner) => {
            let ps = trimmed_args_exec(&inner);
            if ps.len() == 4 {
                assert(ps@[0]@ == trimmed_args(inner@)[0]);
                assert(ps@[1]@ == trimmed_args(inner@)[1]);
                assert(ps@[2]@ == trimmed_args(inner@)[2]);
                assert(ps@[3]@ == trimmed_args(inner@)[3]);
                let r = match parse_u8_vec(&ps[0]) {
                    Some(v) => v,
                    None => {
                        return None;
                    },
                };
                let g = match parse_u8_vec(&ps[1]) {
                    Some(v) => v,
                    None => {
                        return None;
                    },
                };
                let b = match parse_u8_vec(&ps[2]) {
                    Some(v) => v,
                    None => {
                        return None;
                    },
                };
                return Some(ColorValue::Rgba { r, g, b, alpha: string_of(&ps[3]) });
            }
        },
        None => {},
    }
    match named_color(t) {
        Some(c) => Some(ColorValue::Solid(c)),
        None => None,
    }
}

/// Reads a colour value: trimmed and lowercased, then as `color_text` says.
/// Of `rgba(r, g, b, a)` the alpha is handed back as text: the colour's alpha
/// is that text read as a decimal fraction, times 255.
pub fn parse_color(s: &str) -> (r: Option<ColorValue>)
    requires
        color_text_ok(lowercase(trim(s@))),
    ensures
        opt_color_view(r) == color_text(lowercase(trim(s@))),
{
    let sc = chars_of(s);
    let t = to_lowercase(&trim_vec(&sc));
    color_text_exec(&t)
}

/// `parse_color` where the text reads without cutting a character in two;
/// `None` where reading `#` and six bytes of digits by byte ranges would cut
/// one (the texts that `parse_color` leaves out).
pub fn try_parse_color(s: &str) -> (r: Option<Option<ColorValue>>)
    ensures
        r is None <==> !color_text_ok(lowercase(trim(s@))),
        r matches Some(c) ==> opt_color_view(c) == color_text(lowercase(trim(s@))),
{
    let sc = chars_of(s);
    let t = to_lowercase(&trim_vec(&sc));
    let n = t.len();
    if n > 0 && t[0] == '#' {
        let h = sub_chars(&t, 1, n);
        assert(h@ =~= t@.drop_first());
        if hex_panics_exec(&h) {
            return None;
        }
    }
    Some(parse_color(s))
}

} // verus!

verus! {

proof fn lemma_byte_len_ascii(s: Seq<char>)
    requires
        forall|i: int| 0 <= i < s.len() ==> char_width(#[trigger] s[i]) == 1,
    ensures
        byte_len(s) == s.len(),
    decreases s.len(),
{
    if s.len() > 0 {
        let t = s.drop_last();
        assert forall|i: int| 0 <= i < t.len() implies char_width(#[trigger] t[i]) == 1 by {
            assert(t[i] == s[i]);
        }
        lemma_byte_len_ascii(t);
    }
}

proof fn lemma_hex_digit_ascii(c: char)
    requires
        hex_digit(c) is Some,
    ensures
        char_width(c) == 1,
        hex_digit(c).unwrap() < 16,
        c != '+',
{
}

/// The `#rgb` shorthand names the same colour as its doubled `#rrggbb` form:
/// red comes from the first digit, green from the second and blue from the
/// third.
pub proof fn lemma_short_hex_doubles(x: char, y: char, z: char)
    requires
        hex_digit(x) is Some,
        hex_digit(y) is Some,
        hex_digit(z) is Some,
    ensures
        hex_color(seq![x, y, z]) is Some,
        hex_color(seq![x, y, z]) == hex_color(seq![x, x, y, y, z, z]),
{
    lemma_hex_digit_ascii(x);
    lemma_hex_digit_ascii(y);
    lemma_hex_digit_ascii(z);
    let s3 = seq![x, y, z];
    let s6 = seq![x, x, y, y, z, z];
    lemma_byte_len_ascii(s3);
    lemma_byte_len_ascii(s6);
    assert(s6[0] == x && s6[1] == x && s6[2] == y && s6[3] == y && s6[4] == z && s6[5] == z);
}

/// In `#rrggbb` the first pair of digits gives red, the second green and the
/// third blue, each pair read as a two-digit hexadecimal number: a colour
/// whose other pairs are `00` has only that channel lit.
pub proof fn lemma_hex_channel_order(x: char, y: char)
    requires
        hex_digit(x) is Some,
        hex_digit(y) is Some,
    ensures
        ({
            let v = (16 * hex_digit(x).unwrap() + hex_digit(y).unwrap()) as u8;
            &&& hex_color(seq![x, y, '0', '0', '0', '0']) == Some(Color { r: v, g: 0, b: 0, a: 255 })
            &&& hex_color(seq!['0', '0', x, y, '0', '0']) == Some(Color { r: 0, g: v, b: 0, a: 255 })
            &&& hex_color(seq!['0', '0', '0', '0', x, y]) == Some(Color { r: 0, g: 0, b: v, a: 255 })
        }),
{
    lemma_hex_digit_ascii(x);
    lemma_hex_digit_ascii(y);
    let a = seq![x, y, '0', '0', '0', '0'];
    let b = seq!['0', '0', x, y, '0', '0'];
    let c = seq!['0', '0', '0', '0', x, y];
    lemma_byte_len_ascii(a);
    lemma_byte_len_ascii(b);
    lemma_byte_len_ascii(c);
    assert(a[0] == x && a[1] == y && a[2] == '0' && a[3] == '0' && a[4] == '0' && a[5] == '0');
    assert(b[0] == '0' && b[1] == '0' && b[2] == x && b[3] == y && b[4] == '0' && b[5] == '0');
    assert(c[0] == '0' && c[1] == '0' && c[2] == '0' && c[3] == '0' && c[4] == x && c[5] == y);
}

} // verus!
