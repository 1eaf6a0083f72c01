//! Names built from their fields, and what reading them gives back.

use crate::parser::{
    code_of, coded_name, description_of, first_size_start, lemma_coded_name_code, qualifiers,
    sizes_from,
};
use crate::structs::dimensions::{
    digits_end, lemma_digits_end_is, lemma_digits_run, official, token_at, token_size,
    Dimensions, Token,
};
use crate::parser::{segment_materials, stated};
use crate::structs::color::{
    color_at, first_color, lemma_no_color_before, opens_no_color, Color,
};
use crate::structs::material::{
    closes, is_joint, joints_end, lemma_material_label_read_back, longer, longest_material,
    material_end_at, material_in, material_label, material_part, paper_end, pvc_end, then_word,
    Material,
};
use crate::structs::parse_stcker_error::{failure, ErrorKind, Failure};
use crate::structs::sticker::{
    assembled, color_or_black, records_of, tail_of, tail_start, Record,
};
use crate::text::{
    decimal_text, first_occurrence, is_digit, is_padding, keyword_at, lacks_digits, lacks_pair,
    lemma_keyword_match, lemma_keyword_mismatch, same_letter,
    lemma_decimal_text, lemma_lacks_pair_joined, lemma_no_occurrence, lemma_occurrence_found,
    lemma_without_absent,
    occurs, occurs_at, padding_end, padding_start, trimmed, without,
};
use vstd::prelude::*;

verus! {

/// A size as a name states it: the width, the Latin capital X, the height.
pub open spec fn size_token_text(d: Dimensions) -> Seq<char> {
    decimal_text(d.width as nat) + seq!['X'] + decimal_text(d.height as nat)
}

/// The token that the size token text of `d` makes where it starts at
/// `at`.
pub open spec fn size_token_from(at: int, d: Dimensions) -> Token {
    Token {
        start: at,
        cross: at + decimal_text(d.width as nat).len(),
        end: at + size_token_text(d).len(),
    }
}

/// The front of a built name: the code, the description between two
/// underscores.
pub open spec fn built_front(code: u64, description: Seq<char>) -> Seq<char> {
    decimal_text(code as nat) + seq!['_'] + description + seq!['_']
}

/// A run of digits does not change when text that starts with no digit is
/// set behind the text it stands in.
pub proof fn lemma_digits_end_in_front(x: Seq<char>, y: Seq<char>, i: int)
    requires
        0 <= i <= x.len(),
        y.len() > 0 ==> !is_digit(y[0]),
    ensures
        digits_end(x + y, i) == digits_end(x, i),
    decreases x.len() - i,
{
    if i < x.len() {
        assert((x + y)[i] == x[i]);
        if is_digit(x[i]) {
            lemma_digits_end_in_front(x, y, i + 1);
        }
    }
}

/// The size tokens of a text do not change when text that starts with
/// an underscore is set behind it.
pub proof fn lemma_token_in_front(x: Seq<char>, y: Seq<char>, i: int)
    requires
        0 <= i < x.len(),
        y.len() > 0 ==> y[0] == '_',
    ensures
        token_at(x + y, i) == token_at(x, i),
        token_at(x, i) matches Some(t) ==> token_size(x + y, t) == token_size(x, t) && i < t.end
            <= x.len(),
{
    let s = x + y;
    let a = digits_end(x, i);
    lemma_digits_end_in_front(x, y, i);
    lemma_digits_run(x, i);
    if a < x.len() {
        assert(s[a] == x[a]);
        lemma_digits_end_in_front(x, y, a + 1);
        lemma_digits_run(x, a + 1);
        let e = digits_end(x, a + 1);
        assert(s.subrange(i, a) =~= x.subrange(i, a));
        assert(s.subrange(a + 1, e) =~= x.subrange(a + 1, e));
    }
}

/// Where a text that ends in an underscore has no token of an approved
/// size, the search for one in a longer text goes on behind it.
pub proof fn lemma_search_passes(x: Seq<char>, y: Seq<char>, p: int)
    requires
        0 <= p <= x.len(),
        y.len() > 0 ==> y[0] == '_',
        first_size_start(x, p) is None,
    ensures
        first_size_start(x + y, p) == first_size_start(x + y, x.len() as int),
    decreases x.len() - p,
{
    if p < x.len() {
        lemma_token_in_front(x, y, p);
        match token_at(x, p) {
            Some(t) => {
                lemma_search_passes(x, y, t.end);
            },
            None => {
                lemma_search_passes(x, y, p + 1);
            },
        }
    }
}

/// In a text, the size token text of an approved size that no digit
/// follows is a token that stands for that size.
pub proof fn lemma_size_token_read(x: Seq<char>, d: Dimensions, z: Seq<char>)
    requires
        official(d.width, d.height),
        z.len() > 0 ==> !is_digit(z[0]),
    ensures
        token_at(x + size_token_text(d) + z, x.len() as int) == Some(
            size_token_from(x.len() as int, d),
        ),
        token_size(x + size_token_text(d) + z, size_token_from(x.len() as int, d)) == Some(d),
{
    let w = decimal_text(d.width as nat);
    let h = decimal_text(d.height as nat);
    let s = x + size_token_text(d) + z;
    let i = x.len() as int;
    let a = i + w.len();
    let e = a + 1 + h.len();
    lemma_decimal_text(d.width as nat);
    lemma_decimal_text(d.height as nat);
    assert forall|k: int| i <= k < a implies is_digit(#[trigger] s[k]) by {
        assert(s[k] == w[k - i]);
    }
    assert(s[a] == 'X');
    lemma_digits_end_is(s, i, a);
    assert forall|k: int| a + 1 <= k < e implies is_digit(#[trigger] s[k]) by {
        assert(s[k] == h[k - a - 1]);
    }
    if e < s.len() {
        assert(s[e] == z[0]);
    }
    lemma_digits_end_is(s, a + 1, e);
    assert(s.subrange(i, a) =~= w);
    assert(s.subrange(a + 1, e) =~= h);
}

/// A text between two underscores, with no padding at its own ends, is
/// what trimming leaves of the whole.
pub proof fn lemma_trimmed_between(d: Seq<char>)
    requires
        d.len() > 0,
        !is_padding(d[0], false),
        !is_padding(d.last(), false),
    ensures
        trimmed(seq!['_'] + d + seq!['_'], false) == d,
{
    let s = seq!['_'] + d + seq!['_'];
    let n = s.len() as int;
    assert(s[0] == '_');
    assert(s[1] == d[0]);
    assert(padding_end(s, false, 1) == 1);
    assert(padding_end(s, false, 0) == 1);
    assert(s[n - 1] == '_');
    assert(s[n - 2] == d.last());
    assert(padding_start(s, false, 1, n - 1) == n - 1);
    assert(padding_start(s, false, 1, n) == n - 1);
    assert(s.subrange(1, n - 1) =~= d);
}

/// In a name, a front that ends in an underscore and has no token of an
/// approved size is cut off where the token of an approved size follows it.
pub proof fn lemma_built_cut(front: Seq<char>, d: Dimensions, rest: Seq<char>)
    requires
        front.len() > 0,
        front.last() == '_',
        first_size_start(front, 0) is None,
        official(d.width, d.height),
        rest.len() > 0 ==> !is_digit(rest[0]),
    ensures
        first_size_start(front + size_token_text(d) + rest, 0) == Some(front.len() as int),
{
    let token = size_token_text(d);
    let name = front + token + rest;
    let cut = front.len() as int;
    lemma_front_without_underscore(front);
    lemma_search_passes(front.drop_last(), seq!['_'] + (token + rest), 0);
    assert(front.drop_last() + (seq!['_'] + (token + rest)) =~= name);
    assert(name[cut - 1] == '_');
    lemma_digits_run(name, cut - 1);
    assert(token_at(name, cut - 1) is None);
    lemma_size_token_read(front, d, rest);
    lemma_decimal_text(d.width as nat);
    lemma_decimal_text(d.height as nat);
    assert(first_size_start(name, cut) == Some(cut));
    assert(first_size_start(name, cut - 1) == first_size_start(name, cut));
}

/// The first size of a tail that starts with the token of an approved
/// size is that size.
pub proof fn lemma_built_first_size(d: Dimensions, rest: Seq<char>)
    requires
        official(d.width, d.height),
        rest.len() > 0 ==> !is_digit(rest[0]),
    ensures
        sizes_from(size_token_text(d) + rest, 0).len() >= 1,
        sizes_from(size_token_text(d) + rest, 0)[0] == d,
{
    let tail = size_token_text(d) + rest;
    lemma_size_token_read(Seq::<char>::empty(), d, rest);
    assert(Seq::<char>::empty() + size_token_text(d) + rest =~= tail);
    lemma_decimal_text(d.width as nat);
    lemma_decimal_text(d.height as nat);
    let t = size_token_from(0, d);
    assert(token_at(tail, 0) == Some(t));
    assert(token_size(tail, t) == Some(d));
    assert(sizes_from(tail, 0) == seq![d] + sizes_from(tail, t.end));
}

/// The description of a built front is the one it was built from, followed
/// by the qualifiers of the tail.
pub proof fn lemma_built_description(code: u64, description: Seq<char>, tail: Seq<char>)
    requires
        description.len() > 0,
        !is_padding(description[0], false),
        !is_padding(description.last(), false),
    ensures
        description_of(built_front(code, description), tail, code) == Some(
            description + qualifiers(tail),
        ),
{
    let digits = decimal_text(code as nat);
    let front = built_front(code, description);
    lemma_decimal_text(code as nat);
    assert(front.subrange(0, digits.len() as int) =~= digits);
    assert(occurs_at(front, digits, 0));
    assert(first_occurrence(front, digits, 0) == Some(0int));
    assert(front.subrange(digits.len() as int, front.len() as int) =~= seq!['_'] + description
        + seq!['_']);
    lemma_trimmed_between(description);
}

/// Reading gives back the front of a built name. Let a name be a code of
/// three digits or more, an underscore, a description, an underscore, the
/// token of an approved size and then any text that starts with no digit;
/// let the description have no padding at its ends, and the name no token
/// of an approved size before the one set in. Then the name starts with
/// that code, is cut where the size token starts, its first size is that
/// size, and its description is the one given, followed by the qualifiers
/// of the tail. Where the name yields records, the first of them holds
/// that code, that description and that size.
pub proof fn lemma_built_name_front(
    code: u64,
    description: Seq<char>,
    d: Dimensions,
    rest: Seq<char>,
)
    requires
        code >= 100,
        official(d.width, d.height),
        description.len() > 0,
        !is_padding(description[0], false),
        !is_padding(description.last(), false),
        first_size_start(built_front(code, description), 0) is None,
        rest.len() > 0 ==> !is_digit(rest[0]),
    ensures
        ({
            let name = built_front(code, description) + size_token_text(d) + rest;
            let tail = size_token_text(d) + rest;
            &&& code_of(name) == Some(code)
            &&& first_size_start(name, 0) == Some(built_front(code, description).len() as int)
            &&& tail_of(name) == tail
            &&& description_of(name.subrange(0, tail_start(name)), tail, code) == Some(
                description + qualifiers(tail),
            )
            &&& sizes_from(tail, 0).len() >= 1
            &&& sizes_from(tail, 0)[0] == d
            &&& records_of(name) matches Ok(found) ==> found.len() >= 1 && found[0].code == code
                && found[0].description == description + qualifiers(tail) && found[0].dimensions
                == d && found[0].full_name == name
        }),
{
    let front = built_front(code, description);
    let tail = size_token_text(d) + rest;
    let name = front + size_token_text(d) + rest;
    let cut = front.len() as int;
    assert(name =~= coded_name(code, description + seq!['_'] + size_token_text(d) + rest));
    lemma_coded_name_code(code, description + seq!['_'] + size_token_text(d) + rest);
    lemma_built_cut(front, d, rest);
    assert(name.subrange(cut, name.len() as int) =~= tail);
    assert(name.subrange(0, cut) =~= front);
    lemma_built_first_size(d, rest);
    lemma_built_description(code, description, tail);
}

/// A text that ends in an underscore and has no token of an approved size
/// has none without that underscore either.
pub proof fn lemma_front_without_underscore(front: Seq<char>)
    requires
        front.len() > 0,
        front.last() == '_',
        first_size_start(front, 0) is None,
    ensures
        first_size_start(front.drop_last(), 0) is None,
{
    lemma_none_without_underscore(front, 0);
}

/// From any index on: a text that ends in an underscore and has no token
/// of an approved size has none without that underscore either.
pub proof fn lemma_none_without_underscore(front: Seq<char>, p: int)
    requires
        front.len() > 0,
        front.last() == '_',
        0 <= p <= front.len() - 1,
        first_size_start(front, p) is None,
    ensures
        first_size_start(front.drop_last(), p) is None,
    decreases front.len() - p,
{
    let x = front.drop_last();
    if p < x.len() {
        assert(x + seq!['_'] =~= front);
        lemma_token_in_front(x, seq!['_'], p);
        match token_at(x, p) {
            Some(t) => {
                lemma_none_without_underscore(front, t.end);
            },
            None => {
                lemma_none_without_underscore(front, p + 1);
            },
        }
    }
}


/// The word by which a name states a colour.
pub open spec fn color_word(c: Color) -> Seq<char> {
    match c {
        Color::Red => "RED"@,
        Color::Green => "GREEN"@,
        Color::Blue => "BLUE"@,
        Color::Black => "BLACK"@,
    }
}

/// What a built name says of its colour: nothing, or an underscore and
/// the colour's word.
pub open spec fn color_part(color: Option<Color>) -> Seq<char> {
    match color {
        Some(c) => seq!['_'] + color_word(c),
        None => Seq::empty(),
    }
}

/// The words of a built name: the material's name and the colour part.
pub open spec fn built_words(m: Material, color: Option<Color>) -> Seq<char> {
    material_label(m) + color_part(color)
}

/// The letters of the words that name materials and colours, revealed.
pub proof fn lemma_words_revealed()
    ensures
        "PAPER"@ == seq!['P', 'A', 'P', 'E', 'R'],
        "PAPER GR"@ == seq!['P', 'A', 'P', 'E', 'R', ' ', 'G', 'R'],
        "PVC"@ == seq!['P', 'V', 'C'],
        "PVC R"@ == seq!['P', 'V', 'C', ' ', 'R'],
        "PVC R SLV"@ == seq!['P', 'V', 'C', ' ', 'R', ' ', 'S', 'L', 'V'],
        "LEAFLET"@ == seq!['L', 'E', 'A', 'F', 'L', 'E', 'T'],
        "RED"@ == seq!['R', 'E', 'D'],
        "GREEN"@ == seq!['G', 'R', 'E', 'E', 'N'],
        "BLUE"@ == seq!['B', 'L', 'U', 'E'],
        "BLACK"@ == seq!['B', 'L', 'A', 'C', 'K'],
{
    reveal_strlit("PAPER");
    reveal_strlit("PAPER GR");
    reveal_strlit("PVC");
    reveal_strlit("PVC R");
    reveal_strlit("PVC R SLV");
    reveal_strlit("LEAFLET");
    reveal_strlit("RED");
    reveal_strlit("GREEN");
    reveal_strlit("BLUE");
    reveal_strlit("BLACK");
    assert("PAPER"@ =~= seq!['P', 'A', 'P', 'E', 'R']);
    assert("PAPER GR"@ =~= seq!['P', 'A', 'P', 'E', 'R', ' ', 'G', 'R']);
    assert("PVC"@ =~= seq!['P', 'V', 'C']);
    assert("PVC R"@ =~= seq!['P', 'V', 'C', ' ', 'R']);
    assert("PVC R SLV"@ =~= seq!['P', 'V', 'C', ' ', 'R', ' ', 'S', 'L', 'V']);
    assert("LEAFLET"@ =~= seq!['L', 'E', 'A', 'F', 'L', 'E', 'T']);
    assert("RED"@ =~= seq!['R', 'E', 'D']);
    assert("GREEN"@ =~= seq!['G', 'R', 'E', 'E', 'N']);
    assert("BLUE"@ =~= seq!['B', 'L', 'U', 'E']);
    assert("BLACK"@ =~= seq!['B', 'L', 'A', 'C', 'K']);
}

/// The words of a built name hold no digit, and none of the pairs of
/// letters with which a workflow mark or a qualifier starts.
pub proof fn lemma_words_plain(m: Material, color: Option<Color>)
    ensures
        lacks_digits(built_words(m, color)),
        lacks_pair(built_words(m, color), 'O', 'K'),
        lacks_pair(built_words(m, color), 'D', 'V'),
        lacks_pair(built_words(m, color), 'P', 'F'),
        lacks_pair(built_words(m, color), 'S', 'T'),
        lacks_pair(built_words(m, color), 'P', 'R'),
        lacks_pair(built_words(m, color), 'T', 'E'),
{
    lemma_words_revealed();
    let a = material_label(m);
    let b = color_part(color);
    assert(lacks_digits(a) && lacks_pair(a, 'O', 'K') && lacks_pair(a, 'D', 'V') && lacks_pair(
        a,
        'P',
        'F',
    ) && lacks_pair(a, 'S', 'T') && lacks_pair(a, 'P', 'R') && lacks_pair(a, 'T', 'E'));
    assert(lacks_digits(b) && lacks_pair(b, 'O', 'K') && lacks_pair(b, 'D', 'V') && lacks_pair(
        b,
        'P',
        'F',
    ) && lacks_pair(b, 'S', 'T') && lacks_pair(b, 'P', 'R') && lacks_pair(b, 'T', 'E'));
    lemma_lacks_pair_joined(a, b, 'O', 'K');
    lemma_lacks_pair_joined(a, b, 'D', 'V');
    lemma_lacks_pair_joined(a, b, 'P', 'F');
    lemma_lacks_pair_joined(a, b, 'S', 'T');
    lemma_lacks_pair_joined(a, b, 'P', 'R');
    lemma_lacks_pair_joined(a, b, 'T', 'E');
    assert forall|i: int| 0 <= i < (a + b).len() implies !is_digit(#[trigger] (a + b)[i]) by {
        if i < a.len() {
            assert(!is_digit(a[i]));
        } else {
            assert(!is_digit(b[i - a.len()]));
        }
    }
}


/// The rest of a built name behind its size token: an underscore and the
/// words.
pub open spec fn built_rest(m: Material, color: Option<Color>) -> Seq<char> {
    seq!['_'] + built_words(m, color)
}

/// The tail of a built name: the size token and the rest.
pub open spec fn built_tail(d: Dimensions, m: Material, color: Option<Color>) -> Seq<char> {
    size_token_text(d) + built_rest(m, color)
}

/// A name built from its fields: the code, the description, the size
/// token, the material's name and, where one is given, the colour's word,
/// with underscores between them.
pub open spec fn built_name(
    code: u64,
    description: Seq<char>,
    d: Dimensions,
    m: Material,
    color: Option<Color>,
) -> Seq<char> {
    built_front(code, description) + built_tail(d, m, color)
}

/// A size token text is made of digits and one `X`.
pub proof fn lemma_token_plain(d: Dimensions, a: char, b: char)
    requires
        !is_digit(a),
        a != 'X',
    ensures
        lacks_pair(size_token_text(d), a, b),
        size_token_text(d).len() >= 3,
        is_digit(size_token_text(d)[0]),
        size_token_text(d).last() != a,
{
    let w = decimal_text(d.width as nat);
    let h = decimal_text(d.height as nat);
    let s = size_token_text(d);
    lemma_decimal_text(d.width as nat);
    lemma_decimal_text(d.height as nat);
    assert(s[0] == w[0]);
    assert(s.last() == h.last());
    assert forall|i: int| 0 <= i < s.len() implies #[trigger] s[i] != a by {
        if i < w.len() {
            assert(s[i] == w[i]);
        } else if i > w.len() {
            assert(s[i] == h[i - w.len() - 1]);
        }
    }
}

/// From an index on which no digit follows, a text has no size token: it
/// states no size there, and the stretch that is open is its last.
pub proof fn lemma_no_tokens(s: Seq<char>, name: Seq<char>, start: int, p: int)
    requires
        0 <= start <= p <= s.len(),
        forall|k: int| p <= k < s.len() ==> !is_digit(#[trigger] s[k]),
    ensures
        sizes_from(s, p) == Seq::<Dimensions>::empty(),
        segment_materials(s, name, start, p) == stated(
            material_in(s.subrange(start, s.len() as int), name),
        ),
    decreases s.len() - p,
{
    if p < s.len() {
        assert(!is_digit(s[p]));
        assert(digits_end(s, p) == p);
        assert(token_at(s, p) is None);
        lemma_no_tokens(s, name, start, p + 1);
    }
}

/// The tail of a built name lacks a pair of letters that its words lack
/// and that starts with a letter other than `X`.
pub proof fn lemma_tail_lacks_pair(d: Dimensions, m: Material, color: Option<Color>, a: char, b: char)
    requires
        !is_digit(a),
        a != 'X',
        a != '_',
        lacks_pair(built_words(m, color), a, b),
    ensures
        lacks_pair(built_rest(m, color), a, b),
        lacks_pair(built_tail(d, m, color), a, b),
{
    let line = seq!['_'];
    assert(lacks_pair(line, a, b));
    lemma_lacks_pair_joined(line, built_words(m, color), a, b);
    lemma_token_plain(d, a, b);
    lemma_lacks_pair_joined(size_token_text(d), built_rest(m, color), a, b);
}

/// The tail of a built name states exactly the size it was built from,
/// and holds no qualifier.
pub proof fn lemma_built_tail_sizes(d: Dimensions, m: Material, color: Option<Color>)
    requires
        official(d.width, d.height),
    ensures
        sizes_from(built_tail(d, m, color), 0) == seq![d],
        qualifiers(built_tail(d, m, color)) == Seq::<char>::empty(),
{
    let token = size_token_text(d);
    let rest = built_rest(m, color);
    let tail = built_tail(d, m, color);
    let words = built_words(m, color);
    lemma_words_plain(m, color);
    lemma_decimal_text(d.width as nat);
    lemma_decimal_text(d.height as nat);
    assert(rest[0] == '_');
    lemma_size_token_read(Seq::<char>::empty(), d, rest);
    assert(Seq::<char>::empty() + token + rest =~= tail);
    let t = size_token_from(0, d);
    assert(token_at(tail, 0) == Some(t));
    assert forall|k: int| t.end <= k < tail.len() implies !is_digit(#[trigger] tail[k]) by {
        assert(tail[k] == rest[k - t.end]);
        if k > t.end {
            assert(rest[k - t.end] == words[k - t.end - 1]);
        }
    }
    lemma_no_tokens(tail, tail, t.end, t.end);
    assert(sizes_from(tail, 0) =~= seq![d]);
    reveal_strlit("PROMO");
    reveal_strlit("TESTER");
    lemma_tail_lacks_pair(d, m, color, 'P', 'R');
    lemma_tail_lacks_pair(d, m, color, 'T', 'E');
    lemma_no_occurrence(tail, "PROMO"@, 0);
    lemma_no_occurrence(tail, "TESTER"@, 0);
    assert(qualifiers(tail) =~= Seq::<char>::empty());
}

/// A stretch without text states a material only through the name.
pub proof fn lemma_empty_stretch(name: Seq<char>)
    ensures
        material_in(Seq::<char>::empty(), name) == (if occurs(name, "LEAFLET"@) {
            Ok::<Material, Failure>(Material::LEAFLET)
        } else {
            Err::<Material, Failure>(failure(ErrorKind::MissingMaterial, name))
        }),
{
    let e = Seq::<char>::empty();
    assert(without(e, "OK"@) =~= e);
    assert(without(e, "DV"@) =~= e);
    assert(without(e, "PF"@) =~= e);
    assert(without(e, "ST"@) =~= e);
    assert(trimmed(e, true) =~= e);
    assert(material_part(e) == e);
}

/// The rest of a built name holds no workflow mark, and trimming leaves
/// its words.
pub proof fn lemma_built_rest_part(m: Material, color: Option<Color>)
    ensures
        material_part(built_rest(m, color)) == built_words(m, color),
{
    let words = built_words(m, color);
    let rest = built_rest(m, color);
    lemma_words_plain(m, color);
    lemma_words_revealed();
    reveal_strlit("OK");
    reveal_strlit("DV");
    reveal_strlit("PF");
    reveal_strlit("ST");
    let line = seq!['_'];
    assert(lacks_pair(line, 'O', 'K') && lacks_pair(line, 'D', 'V') && lacks_pair(line, 'P', 'F')
        && lacks_pair(line, 'S', 'T'));
    lemma_lacks_pair_joined(line, words, 'O', 'K');
    lemma_lacks_pair_joined(line, words, 'D', 'V');
    lemma_lacks_pair_joined(line, words, 'P', 'F');
    lemma_lacks_pair_joined(line, words, 'S', 'T');
    lemma_without_absent(rest, "OK"@, 0);
    lemma_without_absent(rest, "DV"@, 0);
    lemma_without_absent(rest, "PF"@, 0);
    lemma_without_absent(rest, "ST"@, 0);
    assert(rest.subrange(0, rest.len() as int) =~= rest);
    assert(without(rest, "OK"@) == rest);
    assert(without(rest, "DV"@) == rest);
    assert(without(rest, "PF"@) == rest);
    assert(without(rest, "ST"@) == rest);
    // trimming
    let n = rest.len() as int;
    assert(words.len() >= 3);
    assert(rest[0] == '_');
    assert(rest[1] == words[0]);
    assert(!is_padding(words[0], true));
    assert(rest[n - 1] == words.last());
    assert(!is_padding(words.last(), true));
    assert(padding_end(rest, true, 1) == 1);
    assert(padding_end(rest, true, 0) == 1);
    assert(padding_start(rest, true, 1, n) == n);
    assert(rest.subrange(1, n) =~= words);
}


/// No material word can open at `i`: the character there opens none of
/// the keywords.
pub open spec fn opens_no_material(s: Seq<char>, i: int) -> bool {
    &&& !same_letter(s[i], 'P')
    &&& !same_letter(s[i], 'S')
    &&& (same_letter(s[i], 'L') ==> i + 1 >= s.len() || !same_letter(s[i + 1], 'E'))
}

/// Where no material word can open, none starts.
pub proof fn lemma_no_material_at(s: Seq<char>, i: int)
    requires
        0 <= i < s.len(),
        opens_no_material(s, i),
    ensures
        material_end_at(s, i) is None,
{
    lemma_words_revealed();
    reveal_strlit("PP");
    reveal_strlit("SLV");
    lemma_keyword_mismatch(s, "PAPER"@, i, 0);
    lemma_keyword_mismatch(s, "PP"@, i, 0);
    lemma_keyword_mismatch(s, "PVC"@, i, 0);
    lemma_keyword_mismatch(s, "SLV"@, i, 0);
    if same_letter(s[i], 'L') {
        lemma_keyword_mismatch(s, "LEAFLET"@, i, 1);
    } else {
        lemma_keyword_mismatch(s, "LEAFLET"@, i, 0);
    }
}

/// Where no material word starts from `p` on, the longest one found so far
/// stays.
pub proof fn lemma_no_material_after(s: Seq<char>, p: int, best: Option<(int, int)>)
    requires
        0 <= p <= s.len(),
        forall|k: int| p <= k < s.len() ==> opens_no_material(s, k),
    ensures
        longest_material(s, p, best) == best,
    decreases s.len() - p,
{
    if p < s.len() {
        lemma_no_material_at(s, p);
        lemma_no_material_after(s, p + 1, best);
    }
}

/// The colour part opens no material word, and starts with an underscore
/// where it is not empty.
pub proof fn lemma_color_part_plain(color: Option<Color>)
    ensures
        forall|k: int| 0 <= k < color_part(color).len() ==> opens_no_material(color_part(color), k),
        color_part(color).len() > 0 ==> color_part(color)[0] == '_' && color_part(color).len() >= 4
            && !is_joint(color_part(color)[1]),
{
    lemma_words_revealed();
}

/// Where the words of a built name start with a material word that ends at
/// `e`, and `e` lies behind the material's name, that word is the longest.
pub proof fn lemma_longest_is_first(m: Material, color: Option<Color>, e: int)
    requires
        material_end_at(built_words(m, color), 0) == Some(e),
        material_label(m).len() <= e <= built_words(m, color).len(),
        e > 0,
    ensures
        longest_material(built_words(m, color), 0, None) == Some((0int, e)),
{
    let words = built_words(m, color);
    let label = material_label(m);
    let part = color_part(color);
    lemma_color_part_plain(color);
    lemma_words_revealed();
    assert forall|k: int| e <= k < words.len() implies opens_no_material(words, k) by {
        assert(words[k] == part[k - label.len()]);
        assert(opens_no_material(part, k - label.len()));
        if k + 1 < words.len() {
            assert(words[k + 1] == part[k + 1 - label.len()]);
        }
    }
    lemma_no_material_after(words, e, Some((0int, e)));
    assert(longer(None, 0, e) == Some((0int, e)));
}

/// Where the joints end behind a word of a built name: behind the one
/// underscore of the colour part, or at the end of the words.
pub proof fn lemma_joints_behind_label(m: Material, color: Option<Color>)
    ensures
        joints_end(built_words(m, color), material_label(m).len() as int) == material_label(
            m,
        ).len() + (if color is Some {
            1int
        } else {
            0int
        }),
        closes(built_words(m, color), material_label(m).len() as int) == Some(
            material_label(m).len() + (if color is Some {
                1int
            } else {
                0int
            }),
        ),
{
    let words = built_words(m, color);
    let label = material_label(m);
    let part = color_part(color);
    let n = label.len() as int;
    lemma_color_part_plain(color);
    if color is Some {
        assert(words[n] == part[0]);
        assert(words[n + 1] == part[1]);
        assert(joints_end(words, n + 1) == n + 1);
        assert(joints_end(words, n) == n + 1);
    } else {
        assert(words =~= label);
    }
}


/// The index behind the material's name in the words of a built name, the
/// underscore of the colour part included.
pub open spec fn label_end(m: Material, color: Option<Color>) -> int {
    material_label(m).len() + (if color is Some {
        1int
    } else {
        0int
    })
}

/// The first characters of the words of a built name are those of the
/// material's name; the colour part follows.
pub proof fn lemma_words_letters(m: Material, color: Option<Color>)
    ensures
        forall|k: int|
            0 <= k < material_label(m).len() ==> (#[trigger] built_words(m, color)[k])
                == material_label(m)[k],
        forall|k: int|
            material_label(m).len() <= k < built_words(m, color).len() ==> (
            #[trigger] built_words(m, color)[k]) == color_part(color)[k - material_label(m).len()],
        built_words(m, color).len() == material_label(m).len() + color_part(color).len(),
{
}

/// In the words of a built name, the material word at the start ends
/// behind the material's name, the underscore of the colour part included.
pub proof fn lemma_material_opens(m: Material, color: Option<Color>)
    requires
        m != Material::LEAFLET,
    ensures
        material_end_at(built_words(m, color), 0) == Some(label_end(m, color)),
{
    let words = built_words(m, color);
    let n = material_label(m).len() as int;
    lemma_words_revealed();
    lemma_words_letters(m, color);
    lemma_color_part_plain(color);
    lemma_joints_behind_label(m, color);
    reveal_strlit("GR");
    reveal_strlit("PP");
    reveal_strlit("SLV");
    reveal_strlit("R");
    match m {
        Material::Paper => {
            lemma_keyword_match(words, "PAPER"@, 0);
            if color is Some {
                assert(joints_end(words, 5) == 6);
                if keyword_at(words, "GR"@, 6) {
                    assert(words[8] == color_part(color)[3]);
                    assert(!is_joint(words[8]));
                    assert(joints_end(words, 8) == 8);
                    assert(closes(words, 8) is None);
                }
            }
            assert(paper_end(words, 5) == closes(words, 5));
        },
        Material::PaperGR => {
            lemma_keyword_match(words, "PAPER"@, 0);
            assert(words[5] == ' ');
            assert(words[6] == 'G');
            assert(joints_end(words, 6) == 6);
            assert(joints_end(words, 5) == 6);
            lemma_keyword_match(words, "GR"@, 6);
            assert(then_word(words, 5, "GR"@) == Some(8int));
            assert(paper_end(words, 5) == closes(words, 8));
        },
        Material::PVC => {
            lemma_keyword_mismatch(words, "PAPER"@, 0, 1);
            lemma_keyword_mismatch(words, "LEAFLET"@, 0, 0);
            lemma_keyword_mismatch(words, "PP"@, 0, 1);
            lemma_keyword_match(words, "PVC"@, 0);
            if color is Some {
                assert(joints_end(words, 3) == 4);
                if keyword_at(words, "R"@, 4) {
                    assert(words[5] == color_part(color)[2]);
                    assert(!is_joint(words[5]));
                    assert(joints_end(words, 5) == 5);
                    assert(then_word(words, 5, "SLV"@) is None);
                    assert(closes(words, 5) is None);
                }
            }
            assert(pvc_end(words, 3) == closes(words, 3));
        },
        Material::PVCR => {
            lemma_keyword_mismatch(words, "PAPER"@, 0, 1);
            lemma_keyword_mismatch(words, "LEAFLET"@, 0, 0);
            lemma_keyword_mismatch(words, "PP"@, 0, 1);
            lemma_keyword_match(words, "PVC"@, 0);
            assert(words[3] == ' ');
            assert(words[4] == 'R');
            assert(joints_end(words, 4) == 4);
            assert(joints_end(words, 3) == 4);
            lemma_keyword_match(words, "R"@, 4);
            assert(then_word(words, 3, "R"@) == Some(5int));
            if color is Some {
                assert(joints_end(words, 5) == 6);
                assert(words[6] == color_part(color)[1]);
                lemma_keyword_mismatch(words, "SLV"@, 6, 0);
            }
            assert(then_word(words, 5, "SLV"@) is None);
            assert(pvc_end(words, 3) == closes(words, 5));
        },
        Material::PVCRSLV => {
            lemma_keyword_mismatch(words, "PAPER"@, 0, 1);
            lemma_keyword_mismatch(words, "LEAFLET"@, 0, 0);
            lemma_keyword_mismatch(words, "PP"@, 0, 1);
            lemma_keyword_match(words, "PVC"@, 0);
            assert(words[3] == ' ');
            assert(words[4] == 'R');
            assert(joints_end(words, 4) == 4);
            assert(joints_end(words, 3) == 4);
            lemma_keyword_match(words, "R"@, 4);
            assert(then_word(words, 3, "R"@) == Some(5int));
            assert(words[5] == ' ');
            assert(words[6] == 'S');
            assert(joints_end(words, 6) == 6);
            assert(joints_end(words, 5) == 6);
            lemma_keyword_match(words, "SLV"@, 6);
            assert(then_word(words, 5, "SLV"@) == Some(9int));
            assert(pvc_end(words, 3) == closes(words, 9));
        },
        Material::LEAFLET => {},
    }
}

/// The rest of a built name states the material it was built from.
pub proof fn lemma_built_rest_material(m: Material, color: Option<Color>, name: Seq<char>)
    requires
        m != Material::LEAFLET,
    ensures
        material_in(built_rest(m, color), name) == Ok::<Material, Failure>(m),
{
    let words = built_words(m, color);
    let label = material_label(m);
    let e = label_end(m, color);
    lemma_built_rest_part(m, color);
    lemma_material_opens(m, color);
    lemma_words_revealed();
    lemma_color_part_plain(color);
    lemma_longest_is_first(m, color, e);
    if color is Some {
        assert(words[label.len() as int] == color_part(color)[0]);
        assert(words.subrange(0, e) =~= label + seq!['_']);
    } else {
        assert(words.subrange(0, e) =~= label);
    }
    lemma_material_label_read_back(m);
}


/// The colour that a built name asks for: the one given, or black.
pub open spec fn color_asked(color: Option<Color>) -> Color {
    match color {
        Some(c) => c,
        None => Color::Black,
    }
}

/// No colour keyword can open in the rest of a built name before the
/// colour's word.
pub proof fn lemma_rest_opens_no_color(m: Material, color: Option<Color>)
    ensures
        forall|j: int|
            0 <= j < 1 + label_end(m, color) ==> opens_no_color(built_rest(m, color), j),
        built_rest(m, color).len() == 1 + material_label(m).len() + color_part(color).len(),
{
    let rest = built_rest(m, color);
    let words = built_words(m, color);
    lemma_words_revealed();
    lemma_words_letters(m, color);
    assert forall|j: int| 0 <= j < 1 + label_end(m, color) implies opens_no_color(rest, j) by {
        if j > 0 {
            assert(rest[j] == words[j - 1]);
        }
        if j + 1 < rest.len() {
            assert(rest[j + 1] == words[j]);
        }
        if j + 2 < rest.len() {
            assert(rest[j + 2] == words[j + 1]);
        }
    }
}

/// The tail of a built name states the colour it was built with, and black
/// where it was built with none.
pub proof fn lemma_built_tail_color(d: Dimensions, m: Material, color: Option<Color>)
    ensures
        color_or_black(built_tail(d, m, color)) == color_asked(color),
{
    let token = size_token_text(d);
    let rest = built_rest(m, color);
    let tail = built_tail(d, m, color);
    let n = token.len() as int;
    let q = n + 1 + label_end(m, color);
    lemma_rest_opens_no_color(m, color);
    lemma_words_revealed();
    lemma_decimal_text(d.width as nat);
    lemma_decimal_text(d.height as nat);
    let w = decimal_text(d.width as nat);
    let h = decimal_text(d.height as nat);
    assert forall|k: int| 0 <= k < q implies opens_no_color(tail, k) by {
        if k < n {
            if k < w.len() {
                assert(tail[k] == w[k]);
            } else if k > w.len() {
                assert(tail[k] == h[k - w.len() - 1]);
            } else {
                assert(tail[k] == 'X');
            }
        } else {
            assert(opens_no_color(rest, k - n));
            assert(tail[k] == rest[k - n]);
            if k + 1 < tail.len() {
                assert(tail[k + 1] == rest[k + 1 - n]);
            }
            if k + 2 < tail.len() {
                assert(tail[k + 2] == rest[k + 2 - n]);
            }
        }
    }
    lemma_no_color_before(tail, 0, q);
    match color {
        None => {
            assert(q == tail.len());
        },
        Some(c) => {
            let word = color_word(c);
            assert(q + word.len() == tail.len());
            assert forall|k: int| 0 <= k < word.len() implies #[trigger] tail[q + k] == word[k] by {
                assert(tail[q + k] == rest[q + k - n]);
            }
            assert(tail.subrange(q, q + word.len()) =~= word);
            reveal_strlit("BLK");
            match c {
                Color::Red => {
                    lemma_keyword_mismatch(tail, "BLK"@, q, 0);
                    lemma_keyword_mismatch(tail, "BLACK"@, q, 0);
                    lemma_keyword_match(tail, "RED"@, q);
                },
                Color::Green => {
                    lemma_keyword_mismatch(tail, "BLK"@, q, 0);
                    lemma_keyword_mismatch(tail, "BLACK"@, q, 0);
                    lemma_keyword_mismatch(tail, "RED"@, q, 0);
                    lemma_keyword_match(tail, "GREEN"@, q);
                },
                Color::Blue => {
                    lemma_keyword_mismatch(tail, "BLK"@, q, 2);
                    lemma_keyword_mismatch(tail, "BLACK"@, q, 2);
                    lemma_keyword_mismatch(tail, "RED"@, q, 0);
                    lemma_keyword_mismatch(tail, "GREEN"@, q, 0);
                    lemma_keyword_match(tail, "BLUE"@, q);
                },
                Color::Black => {
                    lemma_keyword_mismatch(tail, "BLK"@, q, 2);
                    lemma_keyword_match(tail, "BLACK"@, q);
                },
            }
            assert(color_at(tail, q) == Some(c));
            assert(first_color(tail, q) == Some(c));
        },
    }
}


/// The tail of a built name has two stretches for materials: the empty one
/// before its size token and the rest behind it.
pub proof fn lemma_built_tail_stretches(
    d: Dimensions,
    m: Material,
    color: Option<Color>,
    name: Seq<char>,
)
    requires
        official(d.width, d.height),
    ensures
        segment_materials(built_tail(d, m, color), name, 0, 0) == stated(
            material_in(Seq::<char>::empty(), name),
        ) + stated(material_in(built_rest(m, color), name)),
{
    let token = size_token_text(d);
    let rest = built_rest(m, color);
    let tail = built_tail(d, m, color);
    let words = built_words(m, color);
    lemma_words_plain(m, color);
    lemma_decimal_text(d.width as nat);
    lemma_decimal_text(d.height as nat);
    assert(rest[0] == '_');
    lemma_size_token_read(Seq::<char>::empty(), d, rest);
    assert(Seq::<char>::empty() + token + rest =~= tail);
    let t = size_token_from(0, d);
    assert(token_at(tail, 0) == Some(t));
    assert forall|k: int| t.end <= k < tail.len() implies !is_digit(#[trigger] tail[k]) by {
        assert(tail[k] == rest[k - t.end]);
        if k > t.end {
            assert(rest[k - t.end] == words[k - t.end - 1]);
        }
    }
    lemma_no_tokens(tail, name, t.end, t.end);
    assert(tail.subrange(0, 0) =~= Seq::<char>::empty());
    assert(tail.subrange(t.end, tail.len() as int) =~= rest);
}

/// A name built with the leaflet as its material says `LEAFLET`.
pub proof fn lemma_leaflet_named(
    code: u64,
    description: Seq<char>,
    d: Dimensions,
    color: Option<Color>,
)
    ensures
        occurs(built_name(code, description, d, Material::LEAFLET, color), "LEAFLET"@),
{
    let m = Material::LEAFLET;
    let front = built_front(code, description);
    let token = size_token_text(d);
    let rest = built_rest(m, color);
    let name = built_name(code, description, d, m, color);
    let at = (front.len() + token.len() + 1) as int;
    lemma_words_revealed();
    lemma_words_letters(m, color);
    assert forall|k: int| 0 <= k < 7 implies #[trigger] name[at + k] == "LEAFLET"@[k] by {
        assert(name[at + k] == rest[k + 1]);
        assert(rest[k + 1] == built_words(m, color)[k]);
    }
    assert(name.subrange(at, at + 7) =~= "LEAFLET"@);
    lemma_occurrence_found(name, "LEAFLET"@, at);
}

/// The stretches of a built name's tail state its material first.
pub proof fn lemma_built_materials(
    code: u64,
    description: Seq<char>,
    d: Dimensions,
    m: Material,
    color: Option<Color>,
)
    requires
        official(d.width, d.height),
        m != Material::LEAFLET ==> !occurs(
            built_name(code, description, d, m, color),
            "LEAFLET"@,
        ),
    ensures
        segment_materials(
            built_tail(d, m, color),
            built_name(code, description, d, m, color),
            0,
            0,
        ).len() >= 1,
        segment_materials(
            built_tail(d, m, color),
            built_name(code, description, d, m, color),
            0,
            0,
        )[0] == m,
{
    let name = built_name(code, description, d, m, color);
    lemma_built_tail_stretches(d, m, color, name);
    lemma_empty_stretch(name);
    if m == Material::LEAFLET {
        lemma_leaflet_named(code, description, d, color);
    } else {
        lemma_built_rest_material(m, color, name);
    }
}

/// Reading a built name gives back the fields it was built from. Let a
/// name be built from a code of three digits or more, a description, an
/// approved size, a material and, at will, a colour. Let the description
/// have no padding at its ends, let the name have no token of an approved
/// size before the one set in, and let it not say `LEAFLET` unless the
/// leaflet is its material. Then the name yields exactly one record, with
/// that code, that description, that size, that material, and that colour
/// or black where none was given.
pub proof fn lemma_round_trip(
    code: u64,
    description: Seq<char>,
    d: Dimensions,
    m: Material,
    color: Option<Color>,
)
    requires
        code >= 100,
        official(d.width, d.height),
        description.len() > 0,
        !is_padding(description[0], false),
        !is_padding(description.last(), false),
        first_size_start(built_front(code, description), 0) is None,
        m != Material::LEAFLET ==> !occurs(
            built_name(code, description, d, m, color),
            "LEAFLET"@,
        ),
    ensures
        records_of(built_name(code, description, d, m, color)) == Ok::<Seq<Record>, Failure>(
            seq![
                Record {
                    code,
                    description,
                    dimensions: d,
                    material: m,
                    text_color: color_asked(color),
                    full_name: built_name(code, description, d, m, color),
                },
            ],
        ),
{
    let front = built_front(code, description);
    let rest = built_rest(m, color);
    let tail = built_tail(d, m, color);
    let name = built_name(code, description, d, m, color);
    let cut = front.len() as int;
    assert(rest[0] == '_');
    lemma_built_name_front(code, description, d, rest);
    assert(front + size_token_text(d) + rest =~= name);
    lemma_built_tail_sizes(d, m, color);
    assert(description + Seq::<char>::empty() =~= description);
    lemma_built_materials(code, description, d, m, color);
    lemma_built_tail_color(d, m, color);
    lemma_record_of_parts(name, code, cut, description, d, m, color_asked(color));
}

/// A name whose parts are known yields the one record made of them.
pub proof fn lemma_record_of_parts(
    name: Seq<char>,
    code: u64,
    cut: int,
    description: Seq<char>,
    d: Dimensions,
    m: Material,
    c: Color,
)
    requires
        code_of(name) == Some(code),
        first_size_start(name, 0) == Some(cut),
        description_of(name.subrange(0, cut), name.subrange(cut, name.len() as int), code) == Some(
            description,
        ),
        sizes_from(name.subrange(cut, name.len() as int), 0) == seq![d],
        segment_materials(name.subrange(cut, name.len() as int), name, 0, 0).len() >= 1,
        segment_materials(name.subrange(cut, name.len() as int), name, 0, 0)[0] == m,
        color_or_black(name.subrange(cut, name.len() as int)) == c,
    ensures
        records_of(name) == Ok::<Seq<Record>, Failure>(
            seq![
                Record {
                    code,
                    description,
                    dimensions: d,
                    material: m,
                    text_color: c,
                    full_name: name,
                },
            ],
        ),
{
    let suffix = name.subrange(cut, name.len() as int);
    let materials = segment_materials(suffix, name, 0, 0);
    let expected = seq![
        Record { code, description, dimensions: d, material: m, text_color: c, full_name: name },
    ];
    assert(assembled(code, description, seq![d], materials, c, name) =~= expected);
}

} // verus!
