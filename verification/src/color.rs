//! Parsing of hex color strings into 4-channel 8-bit colors.

use vstd::prelude::*;
use vstd::string::StrSliceExecFns;

verus! {

/// A 4-channel, 8-bit color: red, green, blue, alpha.
#[derive(Clone, Copy, Debug, PartialEq, Eq, Structural)]
pub struct Color {
    pub r: u8,
    pub g: u8,
    pub b: u8,
    pub a: u8,
}

impl Color {
    pub fn new(r: u8, g: u8, b: u8, a: u8) -> (c: Color)
        ensures
            c == (Color { r, g, b, a }),
    {
        Color { r, g, b, a }
    }
}

/// Why a hex color string failed to parse.
#[derive(Clone, Copy, Debug, PartialEq, Eq, Structural)]
pub enum ParseError {
    /// The string (after trimming and short-form expansion) is empty, has an
    /// odd number of digits, or holds a character that is no hex digit.
    NotHex,
    /// The decoded byte count is no positive multiple of 3 or of 4.
    InvalidLength,
}

/// The characters with the Unicode `White_Space` property, the set that
/// trimming removes from both ends of the input.
pub open spec fn is_space(c: char) -> bool {
    let u = c as u32;
    ||| u == 0x20
    ||| (0x09 <= u && u <= 0x0d)
    ||| u == 0x85
    ||| u == 0xa0
    ||| u == 0x1680
    ||| (0x2000 <= u && u <= 0x200a)
    ||| u == 0x2028
    ||| u == 0x2029
    ||| u == 0x202f
    ||| u == 0x205f
    ||| u == 0x3000
}

fn is_space_char(c: char) -> (r: bool)
    ensures
        r == is_space(c),
{
    let u = c as u32;
    u == 0x20 || (0x09 <= u && u <= 0x0d) || u == 0x85 || u == 0xa0 || u == 0x1680 || (0x2000 <= u
        && u <= 0x200a) || u == 0x2028 || u == 0x2029 || u == 0x202f || u == 0x205f || u == 0x3000
}

/// The input without its leading whitespace.
pub open spec fn trim_front(s: Seq<char>) -> Seq<char>
    decreases s.len(),
{
    if s.len() > 0 && is_space(s[0]) {
        trim_front(s.drop_first())
    } else {
        s
    }
}

/// The input without its trailing whitespace.
pub open spec fn trim_back(s: Seq<char>) -> Seq<char>
    decreases s.len(),
{
    if s.len() > 0 && is_space(s[s.len() - 1]) {
        trim_back(s.drop_last())
    } else {
        s
    }
}

/// The input without leading and trailing whitespace.
pub open spec fn trim_spec(s: Seq<char>) -> Seq<char> {
    trim_back(trim_front(s))
}

/// `trim_front` keeps exactly the suffix that starts at the first
/// non-whitespace character.
proof fn lemma_trim_front_at(s: Seq<char>, m: int)
    requires
        0 <= m <= s.len(),
        forall|k: int| 0 <= k < m ==> is_space(#[trigger] s[k]),
        m < s.len() ==> !is_space(s[m]),
    ensures
        trim_front(s) == s.subrange(m, s.len() as int),
    decreases m,
{
    if m == 0 {
        assert(trim_front(s) =~= s.subrange(0, s.len() as int));
    } else {
        let d = s.drop_first();
        assert(forall|k: int| 0 <= k < m - 1 ==> is_space(#[trigger] d[k]));
        lemma_trim_front_at(d, m - 1);
        assert(d.subrange(m - 1, d.len() as int) =~= s.subrange(m, s.len() as int));
    }
}

/// `trim_back` keeps exactly the prefix that ends at the last
/// non-whitespace character.
proof fn lemma_trim_back_at(s: Seq<char>, e: int)
    requires
        0 <= e <= s.len(),
        forall|k: int| e <= k < s.len() ==> is_space(#[trigger] s[k]),
        e > 0 ==> !is_space(s[e - 1]),
    ensures
        trim_back(s) == s.subrange(0, e),
    decreases s.len() - e,
{
    if e == s.len() {
        assert(trim_back(s) =~= s.subrange(0, e));
    } else {
        let d = s.drop_last();
        assert(forall|k: int| e <= k < d.len() ==> is_space(#[trigger] d[k]));
        lemma_trim_back_at(d, e);
        assert(d.subrange(0, e) =~= s.subrange(0, e));
    }
}

/// Removes leading and trailing whitespace from a character sequence.
fn trim_chars(v: &Vec<char>) -> (t: Vec<char>)
    ensures
        t@ == trim_spec(v@),
{
    let n = v.len();
    let mut start: usize = 0;
    while start < n && is_space_char(v[start])
        invariant
            n == v@.len(),
            start <= n,
            forall|k: int| 0 <= k < start ==> is_space(#[trigger] v@[k]),
        decreases n - start,
    {
        start = start + 1;
    }
    let mut end: usize = n;
    while end > start && is_space_char(v[end - 1])
        invariant
            n == v@.len(),
            start <= end <= n,
            forall|k: int| end <= k < n ==> is_space(#[trigger] v@[k]),
        decreases end,
    {
        end = end - 1;
    }
    let mut t: Vec<char> = Vec::new();
    let mut idx = start;
    while idx < end
        invariant
            n == v@.len(),
            start <= idx <= end <= n,
            t@ == v@.subrange(start as int, idx as int),
        decreases end - idx,
    {
        t.push(v[idx]);
        assert(t@ =~= v@.subrange(start as int, idx + 1));
        idx = idx + 1;
    }
    proof {
        lemma_trim_front_at(v@, start as int);
        let f = v@.subrange(start as int, n as int);
        lemma_trim_back_at(f, end - start);
        assert(f.subrange(0, end - start) =~= v@.subrange(start as int, end as int));
    }
    t
}

/// Every character doubled: `"f0a"` becomes `"ff00aa"`.
pub open spec fn doubled(s: Seq<char>) -> Seq<char> {
    Seq::new((2 * s.len()) as nat, |k: int| s[k / 2])
}

/// Short hex forms of 3 or 4 digits are expanded by doubling every
/// character; anything else is left as it stands.
pub open spec fn expand_spec(s: Seq<char>) -> Seq<char> {
    if s.len() == 3 || s.len() == 4 {
        doubled(s)
    } else {
        s
    }
}

/// Expands a 3- or 4-character short form by doubling every character.
fn expand_chars(v: Vec<char>) -> (e: Vec<char>)
    ensures
        e@ == expand_spec(v@),
{
    if v.len() == 3 || v.len() == 4 {
        let n = v.len();
        let mut e: Vec<char> = Vec::new();
        let mut idx: usize = 0;
        while idx < n
            invariant
                n == v@.len(),
                idx <= n,
                e@.len() == 2 * idx,
                forall|k: int| 0 <= k < 2 * idx ==> e@[k] == v@[k / 2],
            decreases n - idx,
        {
            let c = v[idx];
            e.push(c);
            e.push(c);
            assert(2 * idx / 2 == idx as int && (2 * idx + 1) / 2 == idx as int);
            idx = idx + 1;
        }
        assert(e@ =~= doubled(v@));
        e
    } else {
        v
    }
}

/// Whether `c` is an ASCII hex digit, the only characters `hex::decode`
/// accepts.
pub open spec fn is_hex_digit(c: char) -> bool {
    let u = c as u32;
    ||| (0x30 <= u && u <= 0x39)  // '0' ..= '9'
    ||| (0x41 <= u && u <= 0x46)  // 'A' ..= 'F'
    ||| (0x61 <= u && u <= 0x66)  // 'a' ..= 'f'
}

/// The numeric value of a hex digit.
pub open spec fn hex_val(c: char) -> u8
    recommends
        is_hex_digit(c),
{
    let u = c as u32;
    if 0x30 <= u && u <= 0x39 {
        (u - 0x30) as u8
    } else if 0x41 <= u && u <= 0x46 {
        (u - 0x41 + 10) as u8
    } else {
        (u - 0x61 + 10) as u8
    }
}

/// The bytes a sequence of hex digits denotes, one byte for each digit
/// pair, most significant digit first.
pub open spec fn hex_bytes(s: Seq<char>) -> Seq<u8>
    recommends
        s.len() % 2 == 0,
        forall|k: int| 0 <= k < s.len() ==> is_hex_digit(#[trigger] s[k]),
{
    Seq::new((s.len() / 2) as nat, |k: int| (16 * hex_val(s[2 * k]) + hex_val(s[2 * k + 1])) as u8)
}

/// Relies on `hex::decode`: it succeeds exactly on an even count of hex
/// digits (`0-9`, `a-f`, `A-F`) and returns one byte per digit pair, most
/// significant digit first; any other input is refused.
#[verifier::external_body]
fn hex_decode_chars(v: &Vec<char>) -> (r: Option<Vec<u8>>)
    ensures
        r is Some <==> (v@.len() % 2 == 0 && forall|k: int|
            0 <= k < v@.len() ==> is_hex_digit(#[trigger] v@[k])),
        r is Some ==> r->Some_0@ == hex_bytes(v@),
{
    let s: String = v.iter().collect();
    hex::decode(s).ok()
}

/// The color a decoded byte sequence denotes.
///
/// A positive multiple of 3 splits into three equal groups read as red,
/// green and blue with full alpha; otherwise a positive multiple of 4
/// splits into four groups read as red, green, blue and alpha. Only the
/// first (most significant) byte of each group is kept. The 3-way reading
/// is checked first, so a length divisible by both is read as opaque RGB.
pub open spec fn color_of_bytes(bytes: Seq<u8>) -> Result<Color, ParseError> {
    let n = bytes.len() as int;
    if n % 3 == 0 && n >= 3 {
        Ok(Color { r: bytes[0], g: bytes[n / 3], b: bytes[2 * (n / 3)], a: 255 })
    } else if n % 4 == 0 && n >= 4 {
        Ok(Color { r: bytes[0], g: bytes[n / 4], b: bytes[2 * (n / 4)], a: bytes[3 * (n / 4)] })
    } else {
        Err(ParseError::InvalidLength)
    }
}

/// What parsing a hex color string yields: the input is trimmed, short
/// forms are expanded, the digits are decoded to bytes, and the bytes are
/// grouped into channels. An empty, odd-length or non-hex string is
/// `NotHex`; a byte count that no grouping fits is `InvalidLength`.
pub open spec fn parse_color_spec(s: Seq<char>) -> Result<Color, ParseError> {
    let t = expand_spec(trim_spec(s));
    if t.len() == 0 || t.len() % 2 != 0 || !(forall|k: int|
        0 <= k < t.len() ==> is_hex_digit(#[trigger] t[k])) {
        Err(ParseError::NotHex)
    } else {
        color_of_bytes(hex_bytes(t))
    }
}

/// Whether parsing `s` drops extra precision: the hex digits decode and
/// give more than one byte per channel (more than 4 bytes in all), so only
/// the first byte of each group is kept.
pub open spec fn truncates_spec(s: Seq<char>) -> bool {
    let t = expand_spec(trim_spec(s));
    &&& t.len() % 2 == 0
    &&& forall|k: int| 0 <= k < t.len() ==> is_hex_digit(#[trigger] t[k])
    &&& hex_bytes(t).len() > 4
}

/// Trims, expands a short form, and decodes the hex digits to bytes;
/// `None` when the digits do not decode.
fn decode_stage(h: &str) -> (r: Option<Vec<u8>>)
    ensures
        ({
            let t = expand_spec(trim_spec(h@));
            &&& (r is Some <==> (t.len() % 2 == 0 && forall|k: int|
                0 <= k < t.len() ==> is_hex_digit(#[trigger] t[k])))
            &&& (r is Some ==> r->Some_0@ == hex_bytes(t))
        }),
{
    let n = h.unicode_len();
    let mut v: Vec<char> = Vec::new();
    let mut idx: usize = 0;
    while idx < n
        invariant
            n == h@.len(),
            idx <= n,
            v@ == h@.subrange(0, idx as int),
        decreases n - idx,
    {
        let c = h.get_char(idx);
        v.push(c);
        assert(v@ =~= h@.subrange(0, idx + 1));
        idx = idx + 1;
    }
    assert(v@ =~= h@);
    let t = trim_chars(&v);
    let e = expand_chars(t);
    hex_decode_chars(&e)
}

/// Groups decoded color bytes into the four channels of a `Color`.
pub fn color_from_bytes(bytes: &Vec<u8>) -> (r: Result<Color, ParseError>)
    ensures
        r == color_of_bytes(bytes@),
{
    let n = bytes.len();
    if n % 3 == 0 && n >= 3 {
        let size = n / 3;
        Ok(Color { r: bytes[0], g: bytes[size], b: bytes[2 * size], a: 255 })
    } else if n % 4 == 0 && n >= 4 {
        let size = n / 4;
        Ok(Color { r: bytes[0], g: bytes[size], b: bytes[2 * size], a: bytes[3 * size] })
    } else {
        Err(ParseError::InvalidLength)
    }
}

/// Parses a hex color string into a 4-channel 8-bit color.
///
/// Whitespace is trimmed; a 3- or 4-digit short form is expanded by
/// doubling each digit; the digits are decoded as byte pairs and grouped
/// into channels, 3 groups (opaque) before 4.
pub fn parse_color(h: &str) -> (r: Result<Color, ParseError>)
    ensures
        r == parse_color_spec(h@),
{
    match decode_stage(h) {
        None => Err(ParseError::NotHex),
        Some(bytes) => {
            if bytes.len() == 0 {
                Err(ParseError::NotHex)
            } else {
                color_from_bytes(&bytes)
            }
        },
    }
}

/// Whether parsing `h` would drop extra precision (more than one byte per
/// channel supplied), the condition the caller reports as a warning.
pub fn parse_color_truncates(h: &str) -> (r: bool)
    ensures
        r == truncates_spec(h@),
{
    match decode_stage(h) {
        None => false,
        Some(bytes) => bytes.len() > 4,
    }
}

} // verus!
