//! Character-level helpers shared by the parsers: whitespace, trimming,
//! searching, decimal numbers and the conversions between `str` and `Vec<char>`.
use vstd::prelude::*;
use vstd::utf8::*;
use vstd::std_specs::iter::IteratorSpec;

verus! {

// ---------------------------------------------------------------------------
// Whitespace (Unicode `White_Space`, which is what `char::is_whitespace` tests)
// ---------------------------------------------------------------------------

/// The code points that carry the Unicode `White_Space` property.
pub open spec fn is_ws(c: char) -> bool {
    let u = c as u32;
    ||| 9 <= u <= 13
    ||| u == 32
    ||| u == 0x85
    ||| u == 0xA0
    ||| u == 0x1680
    ||| 0x2000 <= u <= 0x200A
    ||| u == 0x2028
    ||| u == 0x2029
    ||| u == 0x202F
    ||| u == 0x205F
    ||| u == 0x3000
}

/// `char::is_whitespace`.
pub fn is_whitespace(c: char) -> (b: bool)
    ensures
        b == is_ws(c),
{
    let u = c as u32;
    (9 <= u && u <= 13) || u == 32 || u == 0x85 || u == 0xA0 || u == 0x1680 || (0x2000 <= u && u
        <= 0x200A) || u == 0x2028 || u == 0x2029 || u == 0x202F || u == 0x205F || u == 0x3000
}

/// `s` with its leading whitespace removed.
pub open spec fn trim_start(s: Seq<char>) -> Seq<char>
    decreases s.len(),
{
    if s.len() > 0 && is_ws(s[0]) {
        trim_start(s.drop_first())
    } else {
        s
    }
}

/// `s` with its trailing whitespace removed.
pub open spec fn trim_end(s: Seq<char>) -> Seq<char>
    decreases s.len(),
{
    if s.len() > 0 && is_ws(s.last()) {
        trim_end(s.drop_last())
    } else {
        s
    }
}

/// `str::trim`: whitespace removed at both ends.
pub open spec fn trim(s: Seq<char>) -> Seq<char> {
    trim_end(trim_start(s))
}

/// `s` with every trailing `'\r'` and `'\n'` removed
/// (`trim_end_matches(['\r', '\n'])`).
pub open spec fn trim_crlf(s: Seq<char>) -> Seq<char>
    decreases s.len(),
{
    if s.len() > 0 && (s.last() == '\r' || s.last() == '\n') {
        trim_crlf(s.drop_last())
    } else {
        s
    }
}

/// `c` does not occur in `s`.
pub open spec fn lacks(s: Seq<char>, c: char) -> bool {
    forall|i: int| 0 <= i < s.len() ==> #[trigger] s[i] != c
}

pub(crate) proof fn lemma_trim_start_skip(s: Seq<char>, i: int)
    requires
        0 <= i <= s.len(),
        forall|j: int| 0 <= j < i ==> is_ws(#[trigger] s[j]),
    ensures
        trim_start(s) == trim_start(s.skip(i)),
    decreases i,
{
    if i > 0 {
        assert(s.drop_first().skip(i - 1) =~= s.skip(i));
        lemma_trim_start_skip(s.drop_first(), i - 1);
    } else {
        assert(s.skip(0) =~= s);
    }
}

pub(crate) proof fn lemma_trim_end_take(s: Seq<char>, i: int)
    requires
        0 <= i <= s.len(),
        forall|j: int| i <= j < s.len() ==> is_ws(#[trigger] s[j]),
    ensures
        trim_end(s) == trim_end(s.take(i)),
    decreases s.len() - i,
{
    if i < s.len() {
        assert(s.drop_last().take(i) =~= s.take(i));
        lemma_trim_end_take(s.drop_last(), i);
    } else {
        assert(s.take(i) =~= s);
    }
}

pub(crate) proof fn lemma_trim_crlf_take(s: Seq<char>, i: int)
    requires
        0 <= i <= s.len(),
        forall|j: int| i <= j < s.len() ==> (#[trigger] s[j] == '\r' || s[j] == '\n'),
    ensures
        trim_crlf(s) == trim_crlf(s.take(i)),
    decreases s.len() - i,
{
    if i < s.len() {
        assert(s.drop_last().take(i) =~= s.take(i));
        lemma_trim_crlf_take(s.drop_last(), i);
    } else {
        assert(s.take(i) =~= s);
    }
}

/// What is left after trimming neither starts nor ends with whitespace.
pub(crate) proof fn lemma_trim_shape(s: Seq<char>)
    ensures
        trim(s).len() > 0 ==> !is_ws(trim(s)[0]) && !is_ws(trim(s).last()),
        trim(s).len() <= s.len(),
    decreases s.len(),
{
    if s.len() > 0 && is_ws(s[0]) {
        lemma_trim_shape(s.drop_first());
    } else {
        lemma_trim_end_shape(s);
    }
}

proof fn lemma_trim_end_shape(s: Seq<char>)
    requires
        s.len() > 0 ==> !is_ws(s[0]),
    ensures
        trim_end(s).len() > 0 ==> !is_ws(trim_end(s)[0]) && !is_ws(trim_end(s).last()),
        trim_end(s).len() <= s.len(),
        trim_end(s).len() > 0 ==> trim_end(s)[0] == s[0],
    decreases s.len(),
{
    if s.len() > 0 && is_ws(s.last()) {
        lemma_trim_end_shape(s.drop_last());
    }
}

/// `trim_crlf` leaves a sequence without `'\n'` and not ending in `'\r'` alone,
/// and never removes more than the CR/LF tail.
pub(crate) proof fn lemma_trim_crlf_append(a: Seq<char>, tail: Seq<char>)
    requires
        a.len() > 0 ==> a.last() != '\r' && a.last() != '\n',
        forall|j: int| 0 <= j < tail.len() ==> (#[trigger] tail[j] == '\r' || tail[j] == '\n'),
    ensures
        trim_crlf(a + tail) == a,
{
    lemma_trim_crlf_take(a + tail, a.len() as int);
    assert((a + tail).take(a.len() as int) =~= a);
}

// ---------------------------------------------------------------------------
// Trimming, executable
// ---------------------------------------------------------------------------

/// Appends the characters of `s` to `buf`.
pub fn push_chars(buf: &mut Vec<char>, s: &[char])
    ensures
        final(buf)@ == old(buf)@ + s@,
{
    let mut i: usize = 0;
    while i < s.len()
        invariant
            i <= s@.len(),
            buf@ == old(buf)@ + s@.take(i as int),
        decreases s.len() - i,
    {
        buf.push(s[i]);
        i = i + 1;
        assert(buf@ =~= old(buf)@ + s@.take(i as int));
    }
    assert(s@.take(i as int) =~= s@);
}

/// Appends the characters of the text `s` to `buf`.
pub fn push_str(buf: &mut Vec<char>, s: &str)
    ensures
        final(buf)@ == old(buf)@ + s@,
{
    let c = chars_of(s);
    push_chars(buf, &c);
}

/// Copies `s[lo..hi]` into a new vector.
pub fn sub_chars(s: &[char], lo: usize, hi: usize) -> (r: Vec<char>)
    requires
        lo <= hi <= s@.len(),
    ensures
        r@ == s@.subrange(lo as int, hi as int),
{
    let mut r: Vec<char> = Vec::new();
    let mut i = lo;
    while i < hi
        invariant
            lo <= i <= hi <= s@.len(),
            r@ == s@.subrange(lo as int, i as int),
        decreases hi - i,
    {
        r.push(s[i]);
        i = i + 1;
        assert(r@ =~= s@.subrange(lo as int, i as int));
    }
    r
}

/// `str::trim` on a character vector.
pub fn trim_vec(s: &[char]) -> (r: Vec<char>)
    ensures
        r@ == trim(s@),
{
    let mut a: usize = 0;
    while a < s.len() && is_whitespace(s[a])
        invariant
            a <= s@.len(),
            forall|j: int| 0 <= j < a ==> is_ws(#[trigger] s@[j]),
        decreases s.len() - a,
    {
        a = a + 1;
    }
    let ghost rest = s@.skip(a as int);
    proof {
        lemma_trim_start_skip(s@, a as int);
    }
    let mut b: usize = s.len();
    while b > a && is_whitespace(s[b - 1])
        invariant
            a <= b <= s@.len(),
            forall|j: int| b <= j < s@.len() ==> is_ws(#[trigger] s@[j]),
        decreases b,
    {
        b = b - 1;
    }
    proof {
        assert(trim_start(rest) == rest) by {
            if rest.len() > 0 {
                assert(rest[0] == s@[a as int]);
            }
        }
        assert forall|j: int| (b - a) <= j < rest.len() implies is_ws(#[trigger] rest[j]) by {
            assert(rest[j] == s@[a + j]);
        }
        lemma_trim_end_take(rest, (b - a) as int);
        assert(rest.take((b - a) as int) =~= s@.subrange(a as int, b as int));
    }
    sub_chars(s, a, b)
}

/// `trim_end_matches(['\r', '\n'])` on a character vector.
pub fn trim_crlf_vec(s: &[char]) -> (r: Vec<char>)
    ensures
        r@ == trim_crlf(s@),
{
    let mut b: usize = s.len();
    while b > 0 && (s[b - 1] == '\r' || s[b - 1] == '\n')
        invariant
            b <= s@.len(),
            forall|j: int| b <= j < s@.len() ==> (#[trigger] s@[j] == '\r' || s@[j] == '\n'),
        decreases b,
    {
        b = b - 1;
    }
    proof {
        lemma_trim_crlf_take(s@, b as int);
        assert(s@.take(b as int) =~= s@.subrange(0, b as int));
    }
    sub_chars(s, 0, b)
}

// ---------------------------------------------------------------------------
// Searching
// ---------------------------------------------------------------------------

/// The first index at or after `i` where `c` occurs in `s`.
pub open spec fn find_from(s: Seq<char>, c: char, i: int) -> Option<int>
    decreases s.len() - i,
{
    if i < 0 || i >= s.len() {
        None
    } else if s[i] == c {
        Some(i)
    } else {
        find_from(s, c, i + 1)
    }
}

/// The first index of `c` in `s`.
pub open spec fn find(s: Seq<char>, c: char) -> Option<int> {
    find_from(s, c, 0)
}

/// What `find_from` returns, stated without recursion.
pub proof fn lemma_find_from(s: Seq<char>, c: char, i: int)
    requires
        0 <= i,
    ensures
        find_from(s, c, i) matches Some(k) ==> i <= k < s.len() && s[k] == c && forall|j: int|
            i <= j < k ==> #[trigger] s[j] != c,
        find_from(s, c, i) is None ==> forall|j: int| i <= j < s.len() ==> #[trigger] s[j] != c,
    decreases s.len() - i,
{
    if i < s.len() && s[i] != c {
        lemma_find_from(s, c, i + 1);
    }
}

/// A character that does not occur is not found; one that occurs first at `k` is found at `k`.
pub(crate) proof fn lemma_find_at(s: Seq<char>, c: char, k: int)
    requires
        0 <= k <= s.len(),
        forall|j: int| 0 <= j < k ==> #[trigger] s[j] != c,
    ensures
        k < s.len() && s[k] == c ==> find(s, c) == Some(k),
        k == s.len() ==> find(s, c) is None,
{
    lemma_find_from(s, c, 0);
}

/// Executable `find`: the index of the first `c` in `s`.
pub fn find_char(s: &[char], c: char) -> (r: Option<usize>)
    ensures
        r matches Some(k) ==> find(s@, c) == Some(k as int),
        r is None ==> find(s@, c) is None,
{
    let mut i: usize = 0;
    while i < s.len()
        invariant
            i <= s@.len(),
            find(s@, c) == find_from(s@, c, i as int),
        decreases s.len() - i,
    {
        if s[i] == c {
            return Some(i);
        }
        i = i + 1;
    }
    None
}

/// `str::split(c)`: the pieces of `s` between occurrences of `c`, empty
/// pieces included (one more piece than there are occurrences).
pub open spec fn split_on(s: Seq<char>, c: char) -> Seq<Seq<char>>
    decreases s.len(),
{
    match find(s, c) {
        Some(i) => {
            proof {
                lemma_find_from(s, c, 0);
            }
            seq![s.take(i)] + split_on(s.skip(i + 1), c)
        },
        None => seq![s],
    }
}

/// Executable `split_on`.
pub fn split_vec(s: &[char], c: char) -> (r: Vec<Vec<char>>)
    ensures
        r@.map_values(|v: Vec<char>| v@) == split_on(s@, c),
{
    let n = s.len();
    let mut out: Vec<Vec<char>> = Vec::new();
    let mut start: usize = 0;
    let mut j: usize = 0;
    assert(s@.skip(0) =~= s@);
    while j < n
        invariant
            n == s@.len(),
            start <= j <= n,
            out@.map_values(|v: Vec<char>| v@) + split_on(s@.skip(start as int), c) == split_on(s@, c),
            forall|k: int| start <= k < j ==> #[trigger] s@[k] != c,
        decreases n - j,
    {
        if s[j] == c {
            let ghost rest = s@.skip(start as int);
            proof {
                assert forall|k: int| 0 <= k < j - start implies #[trigger] rest[k] != c by {
                    assert(rest[k] == s@[start + k]);
                }
                lemma_find_at(rest, c, j - start);
                assert(rest.take(j - start) =~= s@.subrange(start as int, j as int));
                assert(rest.skip(j - start + 1) =~= s@.skip(j + 1));
            }
            let piece = sub_chars(s, start, j);
            let ghost before = out@.map_values(|v: Vec<char>| v@);
            out.push(piece);
            assert(out@.map_values(|v: Vec<char>| v@) =~= before.push(piece@));
            assert(before.push(piece@) + split_on(s@.skip(j + 1), c) =~= before + (seq![piece@]
                + split_on(s@.skip(j + 1), c)));
            start = j + 1;
        }
        j = j + 1;
    }
    let ghost rest = s@.skip(start as int);
    proof {
        assert forall|k: int| 0 <= k < n - start implies #[trigger] rest[k] != c by {
            assert(rest[k] == s@[start + k]);
        }
        lemma_find_at(rest, c, n - start);
    }
    let piece = sub_chars(s, start, n);
    assert(piece@ =~= rest);
    let ghost before = out@.map_values(|v: Vec<char>| v@);
    out.push(piece);
    assert(out@.map_values(|v: Vec<char>| v@) =~= before.push(piece@));
    assert(before + seq![rest] =~= before.push(piece@));
    out
}

/// `str::split_once(c)`: the parts before and after the first `c`.
pub open spec fn split_once(s: Seq<char>, c: char) -> Option<(Seq<char>, Seq<char>)> {
    match find(s, c) {
        Some(k) => Some((s.take(k), s.skip(k + 1))),
        None => None,
    }
}

/// Executable `split_once`.
pub fn split_once_vec(s: &[char], c: char) -> (r: Option<(Vec<char>, Vec<char>)>)
    ensures
        r matches Some(p) ==> split_once(s@, c) == Some((p.0@, p.1@)),
        r is None ==> split_once(s@, c) is None,
{
    match find_char(s, c) {
        Some(k) => {
            proof {
                lemma_find_from(s@, c, 0);
            }
            assert(k < s.len());
            let a = sub_chars(s, 0, k);
            let b = sub_chars(s, k + 1, s.len());
            assert(a@ =~= s@.take(k as int));
            assert(b@ =~= s@.skip(k + 1));
            Some((a, b))
        },
        None => None,
    }
}

/// Whether `pat` occurs in `s` starting at index `i`.
pub open spec fn occurs_at(s: Seq<char>, pat: Seq<char>, i: int) -> bool {
    0 <= i && i + pat.len() <= s.len() && s.subrange(i, i + pat.len()) == pat
}

/// Executable `occurs_at`.
pub fn occurs_at_exec(s: &[char], pat: &[char], i: usize) -> (b: bool)
    ensures
        b == occurs_at(s@, pat@, i as int),
{
    if i > s.len() || pat.len() > s.len() - i {
        return false;
    }
    let slen = s.len();
    let mut k: usize = 0;
    while k < pat.len()
        invariant
            slen == s@.len(),
            i <= s@.len(),
            i + pat@.len() <= s@.len(),
            k <= pat@.len(),
            forall|j: int| 0 <= j < k ==> s@[i + j] == #[trigger] pat@[j],
        decreases pat.len() - k,
    {
        assert(i + k < slen);
        if s[i + k] != pat[k] {
            assert(s@.subrange(i as int, i + pat@.len())[k as int] != pat@[k as int]);
            return false;
        }
        k = k + 1;
    }
    assert(s@.subrange(i as int, i + pat@.len()) =~= pat@);
    true
}

/// Whether `pat` occurs anywhere in `s` (`str::contains`).
pub open spec fn contains_seq(s: Seq<char>, pat: Seq<char>) -> bool {
    exists|i: int| occurs_at(s, pat, i)
}

/// Executable `contains_seq`.
pub fn contains_vec(s: &[char], pat: &[char]) -> (b: bool)
    ensures
        b == contains_seq(s@, pat@),
{
    let mut i: usize = 0;
    loop
        invariant
            i <= s@.len(),
            forall|j: int| 0 <= j < i ==> !occurs_at(s@, pat@, j),
        decreases s.len() - i,
    {
        if occurs_at_exec(s, pat, i) {
            return true;
        }
        if i == s.len() {
            assert forall|j: int| !occurs_at(s@, pat@, j) by {
                if 0 <= j < i {
                } else if j > i {
                    assert(j + pat@.len() > s@.len());
                }
            }
            return false;
        }
        i = i + 1;
    }
}

// ---------------------------------------------------------------------------
// ASCII case-insensitive comparison
// ---------------------------------------------------------------------------

/// The ASCII lowercase of `c` (other characters unchanged).
pub open spec fn ascii_lower(c: char) -> char {
    if 'A' <= c && c <= 'Z' {
        ((c as u32) + 32) as char
    } else {
        c
    }
}

/// `str::eq_ignore_ascii_case`.
pub open spec fn eq_ignore_ascii_case(a: Seq<char>, b: Seq<char>) -> bool {
    a.len() == b.len() && forall|i: int| 0 <= i < a.len() ==> ascii_lower(#[trigger] a[i])
        == ascii_lower(b[i])
}

fn ascii_lower_exec(c: char) -> (r: char)
    ensures
        r == ascii_lower(c),
{
    if 'A' <= c && c <= 'Z' {
        let u = (c as u32) + 32;
        assert(0x61 <= u <= 0x7a);
        char_from_ascii(u)
    } else {
        c
    }
}

/// The character with ASCII code `u`.
pub fn char_from_ascii(u: u32) -> (c: char)
    requires
        u < 128,
    ensures
        c == u as char,
        c as u32 == u,
{
    let b = u as u8;
    b as char
}

/// Executable `eq_ignore_ascii_case`.
pub fn eq_ignore_ascii_case_vec(a: &[char], b: &[char]) -> (r: bool)
    ensures
        r == eq_ignore_ascii_case(a@, b@),
{
    if a.len() != b.len() {
        return false;
    }
    let mut i: usize = 0;
    while i < a.len()
        invariant
            a@.len() == b@.len(),
            i <= a@.len(),
            forall|j: int| 0 <= j < i ==> ascii_lower(#[trigger] a@[j]) == ascii_lower(b@[j]),
        decreases a.len() - i,
    {
        if ascii_lower_exec(a[i]) != ascii_lower_exec(b[i]) {
            return false;
        }
        i = i + 1;
    }
    true
}

// ---------------------------------------------------------------------------
// Decimal numbers (`str::parse` for unsigned integers, `to_string`)
// ---------------------------------------------------------------------------

/// Whether `c` is an ASCII digit.
pub open spec fn is_digit(c: char) -> bool {
    '0' <= c && c <= '9'
}

/// The value of ASCII digit `c`.
pub open spec fn digit_value(c: char) -> nat {
    ((c as u32) - 48) as nat
}

/// The value of a sequence of ASCII digits, most significant first.
pub open spec fn digits_value(s: Seq<char>) -> nat
    decreases s.len(),
{
    if s.len() == 0 {
        0
    } else {
        digits_value(s.drop_last()) * 10 + digit_value(s.last())
    }
}

/// Whether every character of `s` is an ASCII digit.
pub open spec fn all_digits(s: Seq<char>) -> bool {
    forall|i: int| 0 <= i < s.len() ==> is_digit(#[trigger] s[i])
}

/// What `str::parse` accepts for an unsigned integer: an optional `+`
/// followed by one or more ASCII digits; the result is their value.
pub open spec fn parse_unsigned(s: Seq<char>) -> Option<nat> {
    let d = if s.len() > 0 && s[0] == '+' {
        s.drop_first()
    } else {
        s
    };
    if d.len() > 0 && all_digits(d) {
        Some(digits_value(d))
    } else {
        None
    }
}

/// `str::parse::<usize>().ok()`.
pub open spec fn parse_usize(s: Seq<char>) -> Option<usize> {
    match parse_unsigned(s) {
        Some(v) => if v <= usize::MAX {
            Some(v as usize)
        } else {
            None
        },
        None => None,
    }
}

/// `str::parse::<u16>().ok()`.
pub open spec fn parse_u16(s: Seq<char>) -> Option<u16> {
    match parse_unsigned(s) {
        Some(v) => if v <= u16::MAX {
            Some(v as u16)
        } else {
            None
        },
        None => None,
    }
}

/// `str::parse::<u8>().ok()`.
pub open spec fn parse_u8(s: Seq<char>) -> Option<u8> {
    match parse_unsigned(s) {
        Some(v) => if v <= u8::MAX {
            Some(v as u8)
        } else {
            None
        },
        None => None,
    }
}

/// The value of the digits `s[lo..hi]`, or `None` once it exceeds `bound`.
fn digits_value_bounded(s: &[char], lo: usize, bound: u64) -> (r: Option<u64>)
    requires
        bound >= 10,
        lo <= s@.len(),
        all_digits(s@.skip(lo as int)),
    ensures
        r matches Some(v) ==> v == digits_value(s@.skip(lo as int)) && v <= bound,
        r is None ==> digits_value(s@.skip(lo as int)) > bound,
{
    let mut v: u64 = 0;
    let mut i = lo;
    while i < s.len()
        invariant
            lo <= i <= s@.len(),
            all_digits(s@.skip(lo as int)),
            v == digits_value(s@.subrange(lo as int, i as int)),
            v <= bound,
            bound >= 10,
        decreases s.len() - i,
    {
        let c = s[i];
        assert(is_digit(s@.skip(lo as int)[i - lo]));
        let d = (c as u32 - 48) as u64;
        assert(s@.subrange(lo as int, i + 1).drop_last() =~= s@.subrange(lo as int, i as int));
        assert(d <= 9);
        if v > (bound - d) / 10 {
            proof {
                lemma_digits_prefix_monotone(s@.skip(lo as int), (i - lo + 1) as int);
                assert(s@.skip(lo as int).take((i - lo + 1) as int) =~= s@.subrange(
                    lo as int,
                    i + 1,
                ));
                assert(v * 10 + d > bound) by (nonlinear_arith)
                    requires
                        v > (bound - d) / 10,
                        d <= bound,
                ;
            }
            return None;
        }
        assert(v * 10 + d <= bound) by (nonlinear_arith)
            requires
                v <= (bound - d) / 10,
                d <= bound,
        ;
        v = v * 10 + d;
        i = i + 1;
    }
    assert(s@.subrange(lo as int, i as int) =~= s@.skip(lo as int));
    Some(v)
}

/// Appending digits never makes the value smaller.
pub(crate) proof fn lemma_digits_prefix_monotone(s: Seq<char>, k: int)
    requires
        0 <= k <= s.len(),
        all_digits(s),
    ensures
        digits_value(s.take(k)) <= digits_value(s),
    decreases s.len() - k,
{
    if k < s.len() {
        assert(s.drop_last().take(k) =~= s.take(k));
        assert(all_digits(s.drop_last()));
        lemma_digits_prefix_monotone(s.drop_last(), k);
    } else {
        assert(s.take(k) =~= s);
    }
}

/// Parses an unsigned decimal number no greater than `bound`.
fn parse_bounded(s: &[char], bound: u64) -> (r: Option<u64>)
    requires
        bound >= 10,
    ensures
        r matches Some(v) ==> parse_unsigned(s@) == Some(v as nat) && v <= bound,
        r is None ==> parse_unsigned(s@) is None || parse_unsigned(s@).unwrap() > bound,
{
    let lo: usize = if s.len() > 0 && s[0] == '+' {
        1
    } else {
        0
    };
    let ghost d = if s@.len() > 0 && s@[0] == '+' {
        s@.drop_first()
    } else {
        s@
    };
    assert(d =~= s@.skip(lo as int));
    if lo >= s.len() {
        assert(d.len() == 0);
        return None;
    }
    let mut i = lo;
    while i < s.len()
        invariant
            lo <= i <= s@.len(),
            d =~= s@.skip(lo as int),
            d == (if s@.len() > 0 && s@[0] == '+' {
                s@.drop_first()
            } else {
                s@
            }),
            d.len() > 0,
            forall|j: int| lo <= j < i ==> is_digit(#[trigger] s@[j]),
        decreases s.len() - i,
    {
        if !(s[i] >= '0' && s[i] <= '9') {
            assert(!is_digit(d[i - lo]));
            return None;
        }
        i = i + 1;
    }
    assert forall|j: int| 0 <= j < d.len() implies is_digit(#[trigger] d[j]) by {
        assert(d[j] == s@[lo + j]);
    }
    digits_value_bounded(s, lo, bound)
}

/// `str::parse::<usize>().ok()`, executable.
pub fn parse_usize_vec(s: &[char]) -> (r: Option<usize>)
    ensures
        r == parse_usize(s@),
{
    match parse_bounded(s, usize::MAX as u64) {
        Some(v) => Some(v as usize),
        None => None,
    }
}

/// `str::parse::<u16>().ok()`, executable.
pub fn parse_u16_vec(s: &[char]) -> (r: Option<u16>)
    ensures
        r == parse_u16(s@),
{
    match parse_bounded(s, u16::MAX as u64) {
        Some(v) => Some(v as u16),
        None => None,
    }
}

/// `str::parse::<u8>().ok()`, executable.
pub fn parse_u8_vec(s: &[char]) -> (r: Option<u8>)
    ensures
        r == parse_u8(s@),
{
    match parse_bounded(s, u8::MAX as u64) {
        Some(v) => Some(v as u8),
        None => None,
    }
}

/// The ASCII digit for `d < 10`.
pub open spec fn digit_char(d: nat) -> char {
    ((d + 48) as u32) as char
}

/// The decimal representation of `n` as `to_string` writes it: no sign and no leading zeros.
pub open spec fn decimal(n: nat) -> Seq<char>
    decreases n,
{
    if n < 10 {
        seq![digit_char(n)]
    } else {
        decimal(n / 10).push(digit_char(n % 10))
    }
}

/// Reading back a decimal representation gives the number.
pub(crate) proof fn lemma_decimal_digits(n: nat)
    ensures
        all_digits(decimal(n)),
        digits_value(decimal(n)) == n,
        decimal(n).len() > 0,
        decimal(n)[0] != '+',
    decreases n,
{
    assert(digit_value(digit_char(n % 10)) == n % 10);
    assert(is_digit(digit_char(n % 10)));
    if n < 10 {
        assert(decimal(n).drop_last() =~= Seq::<char>::empty());
        assert(decimal(n).last() == digit_char(n));
        assert(n % 10 == n);
        assert(digits_value(decimal(n)) == digits_value(Seq::<char>::empty()) * 10 + digit_value(digit_char(n)));
    } else {
        lemma_decimal_digits(n / 10);
        let s = decimal(n);
        assert(s.drop_last() =~= decimal(n / 10));
        assert(s.last() == digit_char(n % 10));
        assert(digits_value(s) == digits_value(decimal(n / 10)) * 10 + digit_value(digit_char(n % 10)));
        assert((n / 10) * 10 + n % 10 == n);
        assert(digits_value(s) == n);
        assert(s[0] == decimal(n / 10)[0]);
        assert forall|i: int| 0 <= i < s.len() implies is_digit(#[trigger] s[i]) by {
            if i < s.len() - 1 {
                assert(s[i] == decimal(n / 10)[i]);
            }
        }
    }
}

/// `parse_unsigned` undoes `decimal`.
pub(crate) proof fn lemma_parse_decimal(n: nat)
    ensures
        parse_unsigned(decimal(n)) == Some(n),
{
    lemma_decimal_digits(n);
}

/// `usize::to_string`, as characters.
pub fn usize_decimal(n: usize) -> (r: Vec<char>)
    ensures
        r@ == decimal(n as nat),
    decreases n,
{
    if n < 10 {
        let c = char_from_ascii((n + 48) as u32);
        let mut v: Vec<char> = Vec::new();
        v.push(c);
        assert(v@ =~= seq![digit_char(n as nat)]);
        v
    } else {
        let mut v = usize_decimal(n / 10);
        let c = char_from_ascii((n % 10 + 48) as u32);
        v.push(c);
        v
    }
}

// ---------------------------------------------------------------------------
// Unicode properties that std computes from its tables
// ---------------------------------------------------------------------------

/// What `char::is_alphanumeric` returns for `c` (Unicode `Alphabetic` or `Numeric`).
pub uninterp spec fn is_alnum(c: char) -> bool;

/// What `str::to_lowercase` returns for the text `s`.
pub uninterp spec fn lowercase(s: Seq<char>) -> Seq<char>;

/// `char::is_alphanumeric`.
#[verifier::external_body]
pub(crate) fn is_alphanumeric(c: char) -> (b: bool)
    ensures
        b == is_alnum(c),
{
    c.is_alphanumeric()
}

/// `str::to_lowercase` on the text `v`.
#[verifier::external_body]
pub(crate) fn to_lowercase(v: &[char]) -> (r: Vec<char>)
    ensures
        r@ == lowercase(v@),
{
    let s: String = v.iter().collect();
    s.to_lowercase().chars().collect()
}

// ---------------------------------------------------------------------------
// Conversions with `str`
// ---------------------------------------------------------------------------

/// The characters of `s`, in order.
pub(crate) fn chars_of(s: &str) -> (v: Vec<char>)
    ensures
        v@ == s@,
{
    broadcast use vstd::string::axiom_spec_iter, vstd::string::next_postcondition;

    let mut it = s.chars();
    let mut v: Vec<char> = Vec::new();
    loop
        invariant
            v@ + it.remaining() == s@,
            it.decrease() is Some,
        ensures
            v@ == s@,
        decreases it.decrease()->0,
    {
        let ghost before = it.remaining();
        match it.next() {
            Some(c) => {
                v.push(c);
                assert(v@ + it.remaining() =~= s@) by {
                    assert(before =~= seq![c] + it.remaining());
                }
            },
            None => {
                assert(v@ =~= s@);
                break;
            },
        }
    }
    v
}

/// A `String` made of the characters `v` (`v.iter().collect()`).
#[verifier::external_body]
pub(crate) fn string_of(v: &[char]) -> (s: String)
    ensures
        s@ == v@,
{
    v.iter().collect()
}

/// `std::str::from_utf8`: the text that `bytes` encode, if they are valid UTF-8.
#[verifier::external_body]
pub(crate) fn decode_utf8_exec(bytes: &[u8]) -> (r: Option<String>)
    ensures
        r is Some <==> valid_utf8(bytes@),
        r matches Some(s) ==> s@ == decode_utf8(bytes@),
{
    match std::str::from_utf8(bytes) {
        Ok(s) => Some(s.to_string()),
        Err(_) => None,
    }
}

/// What `String::from_utf8_lossy` makes of the bytes `b`: their text, each
/// invalid sequence replaced by U+FFFD.
pub uninterp spec fn utf8_lossy(b: Seq<u8>) -> Seq<char>;

/// `String::from_utf8_lossy`; valid UTF-8 comes back as the text it encodes.
#[verifier::external_body]
pub(crate) fn from_utf8_lossy(b: &[u8]) -> (r: String)
    ensures
        r@ == utf8_lossy(b@),
        valid_utf8(b@) ==> r@ == decode_utf8(b@),
{
    String::from_utf8_lossy(b).into_owned()
}

/// The UTF-8 bytes of `v` (`str::as_bytes` on the collected string).
pub fn encode_chars(v: &[char]) -> (r: Vec<u8>)
    ensures
        r@ == encode_utf8(v@),
{
    let s = string_of(v);
    let b = s.as_str().as_bytes();
    let mut r: Vec<u8> = Vec::new();
    r.extend_from_slice(b);
    assert(r@ =~= b@);
    r
}

// ---------------------------------------------------------------------------
// Facts about UTF-8 used by the message framing
// ---------------------------------------------------------------------------

/// Encoding distributes over concatenation.
pub(crate) proof fn lemma_encode_concat(a: Seq<char>, b: Seq<char>)
    ensures
        encode_utf8(a + b) == encode_utf8(a) + encode_utf8(b),
    decreases a.len(),
{
    if a.len() > 0 {
        assert((a + b).drop_first() =~= a.drop_first() + b);
        lemma_encode_concat(a.drop_first(), b);
        assert((a + b)[0] == a[0]);
    } else {
        assert(a + b =~= b);
    }
}

proof fn lemma_scalar_no_newline(u: u32)
    requires
        u != 10,
        is_scalar(u),
    ensures
        forall|j: int| 0 <= j < encode_scalar(u).len() ==> #[trigger] encode_scalar(u)[j] != 10u8,
{
    if has_width_1_encoding(u) {
        assert(leading_byte_width_1(u) != 10u8) by (bit_vector)
            requires
                u != 10,
                u <= 0x7f,
        ;
    } else if has_width_2_encoding(u) {
        assert(leading_byte_width_2(u) >= 0x80 && last_continuation_byte(u) >= 0x80) by (bit_vector);
    } else if has_width_3_encoding(u) {
        assert(leading_byte_width_3(u) >= 0x80 && second_last_continuation_byte(u) >= 0x80
            && last_continuation_byte(u) >= 0x80) by (bit_vector);
    } else {
        assert(leading_byte_width_4(u) >= 0x80 && third_last_continuation_byte(u) >= 0x80
            && second_last_continuation_byte(u) >= 0x80 && last_continuation_byte(u) >= 0x80)
            by (bit_vector);
    }
}

/// Text without `'\n'` encodes to bytes without the newline byte.
pub(crate) proof fn lemma_encode_no_newline(a: Seq<char>)
    requires
        lacks(a, '\n'),
    ensures
        forall|j: int| 0 <= j < encode_utf8(a).len() ==> #[trigger] encode_utf8(a)[j] != 10u8,
    decreases a.len(),
{
    if a.len() > 0 {
        char_is_scalar(a[0]);
        assert(a[0] != '\n');
        assert((a[0] as u32) != 10u32) by {
            if (a[0] as u32) == 10u32 {
                char_u32_cast(a[0], 10u32);
                char_u32_cast('\n', 10u32);
            }
        }
        lemma_scalar_no_newline(a[0] as u32);
        assert(lacks(a.drop_first(), '\n')) by {
            assert forall|i: int| 0 <= i < a.drop_first().len() implies #[trigger] a.drop_first()[i]
                != '\n' by {
                assert(a.drop_first()[i] == a[i + 1]);
            }
        }
        lemma_encode_no_newline(a.drop_first());
        let e = encode_scalar(a[0] as u32);
        assert forall|j: int| 0 <= j < encode_utf8(a).len() implies #[trigger] encode_utf8(a)[j]
            != 10u8 by {
            if j < e.len() {
                assert(encode_utf8(a)[j] == e[j]);
            } else {
                assert(encode_utf8(a)[j] == encode_utf8(a.drop_first())[j - e.len()]);
            }
        }
    }
}

/// The encoding of a single `'\n'`.
pub(crate) proof fn lemma_encode_newline()
    ensures
        encode_utf8(seq!['\n']) == seq![10u8],
{
    let s = seq!['\n'];
    assert(s.drop_first() =~= Seq::<char>::empty());
    assert(('\n' as u32) == 10u32);
    assert(encode_scalar(10u32) =~= seq![10u8]) by {
        assert(leading_byte_width_1(10u32) == 10u8) by (bit_vector);
    }
    assert(encode_utf8(s) =~= encode_scalar(10u32) + encode_utf8(Seq::<char>::empty()));
}

} // verus!

verus! {

// ---------------------------------------------------------------------------
// Replacing and splitting
// ---------------------------------------------------------------------------

/// `str::replace(pat, rep)`: every non-overlapping occurrence of `pat`,
/// found from left to right, replaced by `rep`.
pub open spec fn replace_all(s: Seq<char>, pat: Seq<char>, rep: Seq<char>) -> Seq<char>
    decreases s.len(),
{
    if pat.len() == 0 || s.len() < pat.len() {
        s
    } else if s.take(pat.len() as int) == pat {
        rep + replace_all(s.skip(pat.len() as int), pat, rep)
    } else {
        seq![s[0]] + replace_all(s.drop_first(), pat, rep)
    }
}

/// Executable `replace_all`.
pub fn replace_vec(s: &[char], pat: &[char], rep: &[char]) -> (r: Vec<char>)
    requires
        pat@.len() > 0,
    ensures
        r@ == replace_all(s@, pat@, rep@),
{
    let mut out: Vec<char> = Vec::new();
    let mut i: usize = 0;
    let slen = s.len();
    assert(s@.skip(0) =~= s@);
    loop
        invariant
            slen == s@.len(),
            i <= s@.len(),
            pat@.len() > 0,
            replace_all(s@, pat@, rep@) == out@ + replace_all(s@.skip(i as int), pat@, rep@),
        decreases slen - i,
    {
        let ghost rest = s@.skip(i as int);
        if slen - i < pat.len() {
            let ghost before = out@;
            let mut j = i;
            while j < slen
                invariant
                    i <= j <= slen,
                    slen == s@.len(),
                    rest == s@.skip(i as int),
                    out@ == before + rest.take(j - i),
                decreases slen - j,
            {
                out.push(s[j]);
                j = j + 1;
                assert(out@ =~= before + rest.take(j - i));
            }
            assert(rest.take(j - i) =~= rest);
            return out;
        }
        if occurs_at_exec(s, pat, i) {
            assert(rest.take(pat@.len() as int) =~= s@.subrange(i as int, i + pat@.len()));
            assert(rest.skip(pat@.len() as int) =~= s@.skip(i + pat@.len()));
            let ghost before = out@;
            let mut k: usize = 0;
            while k < rep.len()
                invariant
                    k <= rep@.len(),
                    out@ == before + rep@.take(k as int),
                decreases rep.len() - k,
            {
                out.push(rep[k]);
                k = k + 1;
                assert(out@ =~= before + rep@.take(k as int));
            }
            assert(rep@.take(k as int) =~= rep@);
            assert(before + (rep@ + replace_all(s@.skip(i + pat@.len()), pat@, rep@)) =~= (before
                + rep@) + replace_all(s@.skip(i + pat@.len()), pat@, rep@));
            i = i + pat.len();
        } else {
            assert(rest.take(pat@.len() as int) =~= s@.subrange(i as int, i + pat@.len()));
            assert(rest.drop_first() =~= s@.skip(i + 1));
            assert(rest[0] == s@[i as int]);
            let ghost before = out@;
            out.push(s[i]);
            assert(before + (seq![s@[i as int]] + replace_all(s@.skip(i + 1), pat@, rep@)) =~= (
            before.push(s@[i as int])) + replace_all(s@.skip(i + 1), pat@, rep@));
            i = i + 1;
        }
    }
}

/// The end of the run of whitespace at `i`.
pub open spec fn ws_run_end(s: Seq<char>, i: int) -> int
    decreases s.len() - i,
{
    if 0 <= i < s.len() && is_ws(s[i]) {
        ws_run_end(s, i + 1)
    } else {
        i
    }
}

/// The end of the run of non-whitespace at `i`.
pub open spec fn word_end(s: Seq<char>, i: int) -> int
    decreases s.len() - i,
{
    if 0 <= i < s.len() && !is_ws(s[i]) {
        word_end(s, i + 1)
    } else {
        i
    }
}

pub(crate) proof fn lemma_ws_run_end(s: Seq<char>, i: int)
    requires
        0 <= i <= s.len(),
    ensures
        i <= ws_run_end(s, i) <= s.len(),
        ws_run_end(s, i) < s.len() ==> !is_ws(s[ws_run_end(s, i)]),
        forall|k: int| i <= k < ws_run_end(s, i) ==> is_ws(#[trigger] s[k]),
    decreases s.len() - i,
{
    if i < s.len() && is_ws(s[i]) {
        lemma_ws_run_end(s, i + 1);
    }
}

pub(crate) proof fn lemma_word_end(s: Seq<char>, i: int)
    requires
        0 <= i <= s.len(),
    ensures
        i <= word_end(s, i) <= s.len(),
        word_end(s, i) < s.len() ==> is_ws(s[word_end(s, i)]),
        forall|k: int| i <= k < word_end(s, i) ==> !is_ws(#[trigger] s[k]),
    decreases s.len() - i,
{
    if i < s.len() && !is_ws(s[i]) {
        lemma_word_end(s, i + 1);
    }
}

/// `split_whitespace` from `i`: the maximal runs of non-whitespace, in order.
pub open spec fn words_from(s: Seq<char>, i: int) -> Seq<Seq<char>>
    decreases s.len() - i,
{
    let p = ws_run_end(s, i);
    if p >= s.len() || p < i {
        Seq::empty()
    } else {
        let e = word_end(s, p);
        if e <= p || e > s.len() {
            Seq::empty()
        } else {
            seq![s.subrange(p, e)] + words_from(s, e)
        }
    }
}

/// `str::split_whitespace`.
pub open spec fn words(s: Seq<char>) -> Seq<Seq<char>> {
    words_from(s, 0)
}

/// Executable `ws_run_end`.
pub fn ws_run_end_exec(s: &[char], i: usize) -> (j: usize)
    requires
        i <= s@.len(),
    ensures
        j == ws_run_end(s@, i as int),
{
    proof {
        lemma_ws_run_end(s@, i as int);
    }
    let mut j = i;
    while j < s.len() && is_whitespace(s[j])
        invariant
            i <= j <= s@.len(),
            ws_run_end(s@, i as int) == ws_run_end(s@, j as int),
        decreases s.len() - j,
    {
        j = j + 1;
    }
    j
}

/// Executable `word_end`.
pub fn word_end_exec(s: &[char], i: usize) -> (j: usize)
    requires
        i <= s@.len(),
    ensures
        j == word_end(s@, i as int),
{
    proof {
        lemma_word_end(s@, i as int);
    }
    let mut j = i;
    while j < s.len() && !is_whitespace(s[j])
        invariant
            i <= j <= s@.len(),
            word_end(s@, i as int) == word_end(s@, j as int),
        decreases s.len() - j,
    {
        j = j + 1;
    }
    j
}

/// Executable `split_whitespace`.
pub fn words_vec(s: &[char]) -> (r: Vec<Vec<char>>)
    ensures
        r@.map_values(|w: Vec<char>| w@) == words(s@),
{
    let mut out: Vec<Vec<char>> = Vec::new();
    let mut i: usize = 0;
    assert(out@.map_values(|w: Vec<char>| w@) + words_from(s@, 0) =~= words(s@));
    loop
        invariant
            i <= s@.len(),
            words(s@) == out@.map_values(|w: Vec<char>| w@) + words_from(s@, i as int),
        decreases s@.len() - i,
    {
        let ghost before = out@.map_values(|w: Vec<char>| w@);
        let p = ws_run_end_exec(s, i);
        proof {
            lemma_ws_run_end(s@, i as int);
        }
        if p >= s.len() {
            assert(before + Seq::<Seq<char>>::empty() =~= before);
            return out;
        }
        let e = word_end_exec(s, p);
        proof {
            lemma_word_end(s@, p as int);
        }
        out.push(sub_chars(s, p, e));
        proof {
            let after = out@.map_values(|w: Vec<char>| w@);
            assert(after =~= before + seq![s@.subrange(p as int, e as int)]);
            assert((before + seq![s@.subrange(p as int, e as int)]) + words_from(s@, e as int) =~= before
                + (seq![s@.subrange(p as int, e as int)] + words_from(s@, e as int)));
        }
        i = e;
    }
}

} // verus!
