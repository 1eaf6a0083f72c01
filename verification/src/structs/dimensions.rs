//! Label sizes, the approved sizes, and size tokens in a name.

use crate::text::{
    all_digits, blank_end, blank_start, decimal_chars, decimal_text, decimal_value, digits_start,
    is_digit, skip_plus,
    is_digit_char, join_chars, lemma_decimal_text, parse_decimal, slice_chars, string_from_chars,
    strip, stripped, to_chars,
};
use vstd::prelude::*;

verus! {

/// A width and a height, in millimetres.
#[derive(Debug, Clone, Copy, PartialEq, Eq, Hash, Structural)]
pub struct Dimensions {
    pub width: u32,
    pub height: u32,
}

/// The approved sizes, each in the one orientation in which it is listed.
pub open spec fn official(w: u32, h: u32) -> bool {
    ||| (w == 10 && h == 320)
    ||| (w == 27 && h == 40)
    ||| (w == 30 && h == 101)
    ||| (w == 36 && h == 73)
    ||| (w == 40 && h == 20)
    ||| (w == 40 && h == 45)
    ||| (w == 40 && h == 90)
    ||| (w == 42 && h == 50)
    ||| (w == 45 && h == 59)
    ||| (w == 45 && h == 101)
    ||| (w == 50 && h == 22)
    ||| (w == 50 && h == 30)
    ||| (w == 50 && h == 50)
    ||| (w == 50 && h == 100)
    ||| (w == 58 && h == 43)
    ||| (w == 58 && h == 75)
    ||| (w == 60 && h == 40)
    ||| (w == 60 && h == 60)
    ||| (w == 60 && h == 110)
    ||| (w == 68 && h == 40)
    ||| (w == 70 && h == 40)
    ||| (w == 80 && h == 25)
    ||| (w == 80 && h == 55)
    ||| (w == 100 && h == 40)
    ||| (w == 121 && h == 27)
    ||| (w == 130 && h == 450)
}

/// Whether the size is listed, in this orientation.
pub fn is_official(w: u32, h: u32) -> (b: bool)
    ensures
        b == official(w, h),
{
    (w == 10 && h == 320) || (w == 27 && h == 40) || (w == 30 && h == 101) || (w == 36 && h == 73)
        || (w == 40 && h == 20) || (w == 40 && h == 45) || (w == 40 && h
        == 90) || (w == 42 && h == 50) || (w == 45 && h == 59) || (w == 45 && h == 101) || (w == 50
        && h == 22) || (w == 50 && h == 30) || (w == 50 && h == 50) || (w == 50 && h == 100) || (w
        == 58 && h == 43) || (w == 58 && h == 75) || (w == 60 && h == 40) || (w == 60 && h == 60)
        || (w == 60 && h == 110) || (w == 68 && h == 40) || (w == 70 && h == 40) || (w == 80 && h
        == 25) || (w == 80 && h == 55) || (w == 100 && h == 40) || (w == 121 && h == 27) || (w
        == 130 && h == 450)
}

/// The size is listed as it stands, and has no side of zero.
pub open spec fn approved(d: Dimensions) -> bool {
    official(d.width, d.height) && d.width > 0 && d.height > 0
}

/// The approved size that a width and a height stand for: the pair as given
/// where it is listed, else the pair turned round where that is listed.
pub open spec fn canonical(w: u32, h: u32) -> Option<Dimensions> {
    if w == 0 || h == 0 {
        None
    } else if official(w, h) {
        Some(Dimensions { width: w, height: h })
    } else if official(h, w) {
        Some(Dimensions { width: h, height: w })
    } else {
        None
    }
}

/// The approved size that a width and a height stand for.
pub fn canonicalize(w: u32, h: u32) -> (r: Option<Dimensions>)
    ensures
        r == canonical(w, h),
{
    if w == 0 || h == 0 {
        None
    } else if is_official(w, h) {
        Some(Dimensions { width: w, height: h })
    } else if is_official(h, w) {
        Some(Dimensions { width: h, height: w })
    } else {
        None
    }
}

/// A pair and the pair turned round stand for the same approved size, and a
/// pair of which neither orientation is listed stands for none.
pub proof fn lemma_canonical_symmetry(w: u32, h: u32)
    ensures
        canonical(w, h) == canonical(h, w),
        canonical(w, h) is Some <==> w != 0 && h != 0 && (official(w, h) || official(h, w)),
        canonical(w, h) matches Some(d) ==> approved(d),
{
}

/// Two runs of digits stand for the same approved size in either order.
pub proof fn lemma_size_symmetry(w: Seq<char>, h: Seq<char>)
    ensures
        size_of(w, h) == size_of(h, w),
{
    if decimal_value(w) <= u32::MAX && decimal_value(h) <= u32::MAX {
        lemma_canonical_symmetry(decimal_value(w) as u32, decimal_value(h) as u32);
    }
}

/// The index behind the run of ASCII digits that starts at `i`.
pub open spec fn digits_end(s: Seq<char>, i: int) -> int
    decreases s.len() - i,
{
    if 0 <= i < s.len() && is_digit(s[i]) {
        digits_end(s, i + 1)
    } else {
        i
    }
}

/// The sign between the two numbers of a size token in a name: the Latin
/// capital X or the Cyrillic capital Ha.
pub open spec fn is_cross(c: char) -> bool {
    c == 'X' || c == '\u{425}'
}

/// A size token: where it starts, where its sign stands, where it ends.
pub struct Token {
    pub start: int,
    pub cross: int,
    pub end: int,
}

/// The size token that starts at `i`: digits, the sign, digits, each run
/// as long as it goes.
pub open spec fn token_at(s: Seq<char>, i: int) -> Option<Token> {
    let a = digits_end(s, i);
    if 0 <= i < a && a < s.len() && is_cross(s[a]) && a + 1 < digits_end(s, a + 1) <= s.len() {
        Some(Token { start: i, cross: a, end: digits_end(s, a + 1) })
    } else {
        None
    }
}

/// The approved size that two runs of digits stand for, where both numbers
/// fit in 32 bits.
pub open spec fn size_of(w: Seq<char>, h: Seq<char>) -> Option<Dimensions> {
    if decimal_value(w) > u32::MAX || decimal_value(h) > u32::MAX {
        None
    } else {
        canonical(decimal_value(w) as u32, decimal_value(h) as u32)
    }
}

/// The approved size that a token stands for, with whichever of the two
/// signs it is written.
pub open spec fn token_size(s: Seq<char>, t: Token) -> Option<Dimensions> {
    size_of(s.subrange(t.start, t.cross), s.subrange(t.cross + 1, t.end))
}

/// The sign between the two numbers of a size written on its own: the
/// Latin X or the Cyrillic Ha, capital or small.
pub open spec fn is_size_sign(c: char) -> bool {
    c == 'x' || c == 'X' || c == '\u{425}' || c == '\u{445}'
}

/// The approved size that a text stands for which is, blanks at its ends
/// apart, two numbers with a size sign between them. Each number is a run
/// of digits, at will with a plus sign before it.
pub open spec fn size_of_text(text: Seq<char>) -> Option<Dimensions> {
    let s = stripped(text);
    let b = digits_start(s, 0);
    let a = digits_end(s, b);
    let c = digits_start(s, a + 1);
    if b < a < s.len() && is_size_sign(s[a]) && c < digits_end(s, c) && digits_end(s, c)
        == s.len() {
        size_of(s.subrange(b, a), s.subrange(c, s.len() as int))
    } else {
        None
    }
}

/// The text of a size: the width, an `x`, the height.
pub open spec fn size_text(d: Dimensions) -> Seq<char> {
    decimal_text(d.width as nat) + seq!['x'] + decimal_text(d.height as nat)
}

/// A stretch of digits that no digit follows is a whole run of digits.
pub proof fn lemma_digits_end_is(s: Seq<char>, i: int, e: int)
    requires
        0 <= i <= e <= s.len(),
        forall|k: int| i <= k < e ==> is_digit(#[trigger] s[k]),
        e < s.len() ==> !is_digit(s[e]),
    ensures
        digits_end(s, i) == e,
    decreases e - i,
{
    if i < e {
        lemma_digits_end_is(s, i + 1, e);
    }
}

/// The text of an approved size, written with any size sign, stands for
/// that size.
pub proof fn lemma_size_text_round_trip(d: Dimensions, sign: char)
    requires
        official(d.width, d.height),
        is_size_sign(sign),
    ensures
        size_of_text(decimal_text(d.width as nat) + seq![sign] + decimal_text(d.height as nat))
            == Some(d),
        size_of(decimal_text(d.width as nat), decimal_text(d.height as nat)) == Some(d),
{
    let w = decimal_text(d.width as nat);
    let h = decimal_text(d.height as nat);
    let s = w + seq![sign] + h;
    lemma_decimal_text(d.width as nat);
    lemma_decimal_text(d.height as nat);
    let a = w.len() as int;
    assert(stripped(s) == s) by {
        assert(s[0] == w[0]);
        assert(s.last() == h.last());
        assert(blank_end(s, 0) == 0);
        assert(blank_start(s, 0, s.len() as int) == s.len());
        assert(s.subrange(0, s.len() as int) =~= s);
    }
    assert forall|k: int| 0 <= k < a implies is_digit(#[trigger] s[k]) by {
        assert(s[k] == w[k]);
    }
    assert(s[a] == sign);
    assert(s[a + 1] == h[0]);
    lemma_digits_end_is(s, 0, a);
    assert forall|k: int| a + 1 <= k < s.len() implies is_digit(#[trigger] s[k]) by {
        assert(s[k] == h[k - a - 1]);
    }
    lemma_digits_end_is(s, a + 1, s.len() as int);
    assert(s.subrange(0, a) =~= w);
    assert(s.subrange(a + 1, s.len() as int) =~= h);
}

/// A run of digits in the rest of a text is the run in the whole text.
pub proof fn lemma_digits_end_in_rest(s: Seq<char>, cut: int, i: int)
    requires
        0 <= cut <= s.len(),
        0 <= i <= s.len() - cut,
    ensures
        digits_end(s.subrange(cut, s.len() as int), i) == digits_end(s, cut + i) - cut,
    decreases s.len() - cut - i,
{
    let rest = s.subrange(cut, s.len() as int);
    if i < rest.len() {
        assert(rest[i] == s[cut + i]);
        if is_digit(rest[i]) {
            lemma_digits_end_in_rest(s, cut, i + 1);
        }
    }
}

/// A size token of a text is a size token of the rest of the text that
/// starts with it, and stands for the same size there.
pub proof fn lemma_token_in_rest(s: Seq<char>, cut: int)
    requires
        0 <= cut < s.len(),
        token_at(s, cut) is Some,
    ensures
        token_at(s.subrange(cut, s.len() as int), 0) is Some,
        token_size(s.subrange(cut, s.len() as int), token_at(s.subrange(cut, s.len() as int), 0)->0)
            == token_size(s, token_at(s, cut)->0),
{
    let rest = s.subrange(cut, s.len() as int);
    let t = token_at(s, cut)->0;
    lemma_digits_end_in_rest(s, cut, 0);
    lemma_digits_run(s, cut);
    assert(rest[t.cross - cut] == s[t.cross]);
    lemma_digits_end_in_rest(s, cut, t.cross + 1 - cut);
    lemma_digits_run(s, t.cross + 1);
    assert(rest.subrange(0, t.cross - cut) =~= s.subrange(cut, t.cross));
    assert(rest.subrange(t.cross + 1 - cut, t.end - cut) =~= s.subrange(t.cross + 1, t.end));
}

/// From `i` up to the end of its run, every character is a digit.
pub proof fn lemma_digits_run(s: Seq<char>, i: int)
    requires
        0 <= i <= s.len(),
    ensures
        i <= digits_end(s, i) <= s.len(),
        all_digits(s.subrange(i, digits_end(s, i))),
        digits_end(s, i) < s.len() ==> !is_digit(s[digits_end(s, i)]),
    decreases s.len() - i,
{
    if i < s.len() && is_digit(s[i]) {
        lemma_digits_run(s, i + 1);
        let e = digits_end(s, i);
        assert forall|k: int| 0 <= k < e - i implies is_digit(#[trigger] s.subrange(i, e)[k]) by {
            if k > 0 {
                assert(s.subrange(i, e)[k] == s.subrange(i + 1, e)[k - 1]);
            }
        }
    }
}

/// The index behind the run of digits that starts at `i`.
pub fn digits_run_end(s: &Vec<char>, i: usize) -> (e: usize)
    requires
        i <= s@.len(),
    ensures
        e as int == digits_end(s@, i as int),
        i <= e <= s@.len(),
        all_digits(s@.subrange(i as int, e as int)),
{
    let mut e: usize = i;
    while e < s.len() && is_digit_char(s[e])
        invariant
            i <= e <= s@.len(),
            digits_end(s@, i as int) == digits_end(s@, e as int),
        decreases s@.len() - e,
    {
        e += 1;
    }
    proof {
        lemma_digits_run(s@, i as int);
    }
    e
}

/// The size token that starts at `i`.
pub fn read_token(s: &Vec<char>, i: usize) -> (r: Option<(usize, usize, usize)>)
    requires
        i < s@.len(),
    ensures
        match r {
            Some(t) => token_at(s@, i as int) == Some(
                Token { start: t.0 as int, cross: t.1 as int, end: t.2 as int },
            ) && t.0 == i && i < t.1 < t.2 <= s@.len(),
            None => token_at(s@, i as int) is None,
        },
{
    let a: usize = digits_run_end(s, i);
    if a == i || a >= s.len() {
        return None;
    }
    let c: char = s[a];
    if !(c == 'X' || c == '\u{425}') {
        return None;
    }
    let e: usize = digits_run_end(s, a + 1);
    if e == a + 1 {
        return None;
    }
    Some((i, a, e))
}

/// The approved size that two runs of digits stand for.
pub fn size_from_digits(w: &Vec<char>, h: &Vec<char>) -> (r: Option<Dimensions>)
    requires
        all_digits(w@),
        all_digits(h@),
    ensures
        r == size_of(w@, h@),
{
    match parse_decimal(w, 0xffff_ffff) {
        None => None,
        Some(width) => match parse_decimal(h, 0xffff_ffff) {
            None => None,
            Some(height) => canonicalize(width as u32, height as u32),
        },
    }
}

/// The approved size that the token `t` of `s` stands for.
pub fn read_token_size(s: &Vec<char>, t: (usize, usize, usize)) -> (r: Option<Dimensions>)
    requires
        token_at(s@, t.0 as int) == Some(
            Token { start: t.0 as int, cross: t.1 as int, end: t.2 as int },
        ),
        t.0 < t.1 < t.2 <= s@.len(),
    ensures
        r == token_size(s@, Token { start: t.0 as int, cross: t.1 as int, end: t.2 as int }),
{
    proof {
        lemma_digits_run(s@, t.0 as int);
        lemma_digits_run(s@, t.1 + 1);
    }
    let w = slice_chars(s, t.0, t.1);
    let h = slice_chars(s, t.1 + 1, t.2);
    size_from_digits(&w, &h)
}

impl Dimensions {
    /// The size turned round.
    pub fn rev(&self) -> (r: Dimensions)
        ensures
            r.width == self.height,
            r.height == self.width,
    {
        Dimensions { width: self.height, height: self.width }
    }

    /// The approved size that `text` stands for: two numbers with a size
    /// sign between them, and nothing else but blanks at the ends.
    pub fn parse(text: &str) -> (r: Option<Dimensions>)
        ensures
            r == size_of_text(text@),
    {
        let s = strip(&to_chars(text));
        let b: usize = skip_plus(&s, 0);
        let a: usize = digits_run_end(&s, b);
        if a == b || a >= s.len() {
            return None;
        }
        let sign: char = s[a];
        if !(sign == 'x' || sign == 'X' || sign == '\u{425}' || sign == '\u{445}') {
            return None;
        }
        let c: usize = skip_plus(&s, a + 1);
        let e: usize = digits_run_end(&s, c);
        if e == c || e != s.len() {
            return None;
        }
        let w = slice_chars(&s, b, a);
        let h = slice_chars(&s, c, e);
        size_from_digits(&w, &h)
    }

    /// The size as text: the width, an `x`, the height.
    pub fn to_text(&self) -> (s: String)
        ensures
            s@ == size_text(*self),
    {
        let mut cross: Vec<char> = Vec::new();
        cross.push('x');
        assert(cross@ =~= seq!['x']);
        let left = join_chars(&decimal_chars(self.width as u64), &cross);
        string_from_chars(&join_chars(&left, &decimal_chars(self.height as u64)))
    }
}

impl std::str::FromStr for Dimensions {
    type Err = String;

    fn from_str(s: &str) -> (r: Result<Dimensions, String>)
        ensures
            match r {
                Ok(d) => size_of_text(s@) == Some(d),
                Err(_) => size_of_text(s@) is None,
            },
    {
        match Dimensions::parse(s) {
            Some(d) => Ok(d),
            None => Err("not an approved size, written as WxH".to_owned()),
        }
    }
}

} // verus!
