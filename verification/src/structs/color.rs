//! The colour of a label's text.

use crate::structs::parse_stcker_error::{failure, ErrorKind, ParseStickerError};
use crate::text::{
    contains, keyword_at, keyword_matches_at, lemma_keyword_mismatch, occurs, same_letter,
    to_chars,
};
use vstd::prelude::*;

verus! {

/// The colour of a label's text.
#[derive(Debug, Clone, Copy, PartialEq, Eq, Structural)]
pub enum Color {
    Red,
    Green,
    Blue,
    Black,
}

impl Default for Color {
    /// Black, the colour of a label that names none.
    fn default() -> (c: Color)
        ensures
            c == Color::Black,
    {
        Color::Black
    }
}

/// The colour that a piece of text names, by the upper-case words it holds.
pub open spec fn color_of(s: Seq<char>) -> Option<Color> {
    if occurs(s, "RED"@) {
        Some(Color::Red)
    } else if occurs(s, "GREEN"@) {
        Some(Color::Green)
    } else if occurs(s, "BLUE"@) {
        Some(Color::Blue)
    } else if occurs(s, "BLACK"@) || occurs(s, "BLK"@) {
        Some(Color::Black)
    } else {
        None
    }
}

/// The colour whose keyword stands at `i`, in either case of each ASCII
/// letter: `BLK` or `BLACK`, `RED`, `GREEN`, `BLUE`.
pub open spec fn color_at(s: Seq<char>, i: int) -> Option<Color> {
    if keyword_at(s, "BLK"@, i) || keyword_at(s, "BLACK"@, i) {
        Some(Color::Black)
    } else if keyword_at(s, "RED"@, i) {
        Some(Color::Red)
    } else if keyword_at(s, "GREEN"@, i) {
        Some(Color::Green)
    } else if keyword_at(s, "BLUE"@, i) {
        Some(Color::Blue)
    } else {
        None
    }
}

/// The colour of the first colour keyword that starts at or after `p`.
pub open spec fn first_color(s: Seq<char>, p: int) -> Option<Color>
    decreases s.len() - p,
{
    if p < 0 || p >= s.len() {
        None
    } else if color_at(s, p) is Some {
        color_at(s, p)
    } else {
        first_color(s, p + 1)
    }
}

/// The colour that a name's tail states: that of its first colour keyword,
/// whatever the case in which the keyword is written.
pub open spec fn color_in(s: Seq<char>) -> Option<Color> {
    first_color(s, 0)
}

impl Color {
    /// The colour that `text` names by an upper-case word.
    pub fn classify(text: &Vec<char>) -> (r: Option<Color>)
        ensures
            r == color_of(text@),
    {
        if contains(text, &to_chars("RED")) {
            Some(Color::Red)
        } else if contains(text, &to_chars("GREEN")) {
            Some(Color::Green)
        } else if contains(text, &to_chars("BLUE")) {
            Some(Color::Blue)
        } else if contains(text, &to_chars("BLACK")) || contains(text, &to_chars("BLK")) {
            Some(Color::Black)
        } else {
            None
        }
    }

    /// The colour that `text` names, or the failure that holds the text.
    pub fn parse(text: &str) -> (r: Result<Color, ParseStickerError>)
        ensures
            match r {
                Ok(c) => color_of(text@) == Some(c),
                Err(e) => color_of(text@) is None && e@ == failure(ErrorKind::UnknownColor, text@),
            },
    {
        match Color::classify(&to_chars(text)) {
            Some(c) => Ok(c),
            None => Err(ParseStickerError::UnknownColor(text.to_owned())),
        }
    }

    /// The colour's name.
    pub fn label(&self) -> (s: String)
        ensures
            s@ == color_label(*self),
    {
        match self {
            Color::Red => "Red".to_owned(),
            Color::Green => "Green".to_owned(),
            Color::Blue => "Blue".to_owned(),
            Color::Black => "Black".to_owned(),
        }
    }
}

/// The name of a colour.
pub open spec fn color_label(c: Color) -> Seq<char> {
    match c {
        Color::Red => "Red"@,
        Color::Green => "Green"@,
        Color::Blue => "Blue"@,
        Color::Black => "Black"@,
    }
}

impl std::str::FromStr for Color {
    type Err = ParseStickerError;

    fn from_str(s: &str) -> (r: Result<Color, ParseStickerError>)
        ensures
            match r {
                Ok(c) => color_of(s@) == Some(c),
                Err(e) => color_of(s@) is None && e@ == failure(ErrorKind::UnknownColor, s@),
            },
    {
        Color::parse(s)
    }
}

/// The colour whose keyword stands at `i`.
pub fn color_keyword_at(s: &Vec<char>, i: usize) -> (r: Option<Color>)
    ensures
        r == color_at(s@, i as int),
{
    if keyword_matches_at(s, &to_chars("BLK"), i) || keyword_matches_at(s, &to_chars("BLACK"), i) {
        Some(Color::Black)
    } else if keyword_matches_at(s, &to_chars("RED"), i) {
        Some(Color::Red)
    } else if keyword_matches_at(s, &to_chars("GREEN"), i) {
        Some(Color::Green)
    } else if keyword_matches_at(s, &to_chars("BLUE"), i) {
        Some(Color::Blue)
    } else {
        None
    }
}

/// The colour that a name's tail states.
pub fn find_color(s: &Vec<char>) -> (r: Option<Color>)
    ensures
        r == color_in(s@),
{
    let mut p: usize = 0;
    while p < s.len()
        invariant
            p <= s@.len(),
            first_color(s@, 0) == first_color(s@, p as int),
        decreases s@.len() - p,
    {
        let c = color_keyword_at(s, p);
        if c.is_some() {
            return c;
        }
        p += 1;
    }
    None
}

/// No colour keyword can open at `i`: the characters there open none.
pub open spec fn opens_no_color(s: Seq<char>, i: int) -> bool {
    &&& !same_letter(s[i], 'B')
    &&& (same_letter(s[i], 'R') ==> i + 1 >= s.len() || !same_letter(s[i + 1], 'E'))
    &&& (same_letter(s[i], 'G') ==> i + 2 >= s.len() || !same_letter(s[i + 2], 'E'))
}

/// Where no colour keyword can open, none starts.
pub proof fn lemma_no_color_at(s: Seq<char>, i: int)
    requires
        0 <= i < s.len(),
        opens_no_color(s, i),
    ensures
        color_at(s, i) is None,
{
    reveal_strlit("BLK");
    reveal_strlit("BLACK");
    reveal_strlit("RED");
    reveal_strlit("GREEN");
    reveal_strlit("BLUE");
    lemma_keyword_mismatch(s, "BLK"@, i, 0);
    lemma_keyword_mismatch(s, "BLACK"@, i, 0);
    lemma_keyword_mismatch(s, "BLUE"@, i, 0);
    if same_letter(s[i], 'R') {
        lemma_keyword_mismatch(s, "RED"@, i, 1);
    } else {
        lemma_keyword_mismatch(s, "RED"@, i, 0);
    }
    if same_letter(s[i], 'G') {
        lemma_keyword_mismatch(s, "GREEN"@, i, 2);
    } else {
        lemma_keyword_mismatch(s, "GREEN"@, i, 0);
    }
}

/// Where no colour keyword can open from `p` up to `q`, the search for one
/// goes on at `q`.
pub proof fn lemma_no_color_before(s: Seq<char>, p: int, q: int)
    requires
        0 <= p <= q <= s.len(),
        forall|k: int| p <= k < q ==> opens_no_color(s, k),
    ensures
        first_color(s, p) == first_color(s, q),
    decreases q - p,
{
    if p < q {
        lemma_no_color_at(s, p);
        lemma_no_color_before(s, p + 1, q);
    }
}

} // verus!
