//! The fields of a name: code, sizes, description, material and colour.

use crate::structs::color::{color_in, find_color, Color};
use crate::structs::dimensions::{
    approved, digits_end, digits_run_end, lemma_digits_end_is, lemma_token_in_rest, read_token,
    read_token_size,
    token_at, token_size, Dimensions,
};
use crate::structs::material::{find_material, material_in, Material};
use crate::structs::parse_stcker_error::{failure, ErrorKind, Failure, ParseStickerError};
use crate::similarity::{are_similar, similar, SimilarityBound};
use crate::structs::sticker::{
    agrees, lemma_records_not_empty, records, records_of, Record, Sticker,
};
use crate::text::{
    contains, decimal_chars, decimal_text, decimal_value, find_from, first_occurrence, is_digit,
    join_chars, keyword_matches_at, lemma_decimal_text, occurs, parse_decimal, replace_all,
    replaced, slice_chars, spells, string_from_chars, to_chars, trim, trimmed,
};
use vstd::prelude::*;
use vstd::string::*;

verus! {

/// Whether a character is a letter or a number of any script, as
/// `char::is_alphanumeric` tells.
pub uninterp spec fn alphanumeric(c: char) -> bool;

/// `char::is_alphanumeric`: whether the character is a letter or a number
/// of any script.
#[verifier::external_body]
fn is_alphanumeric_char(c: char) -> (b: bool)
    ensures
        b == alphanumeric(c),
{
    c.is_alphanumeric()
}

/// A text in upper case, as `str::to_uppercase` gives it.
pub uninterp spec fn uppercase(s: Seq<char>) -> Seq<char>;

/// `str::to_uppercase`: the text with every character in its upper-case
/// form.
#[verifier::external_body]
fn raised(s: &str) -> (r: String)
    ensures
        r@ == uppercase(s@),
{
    s.to_uppercase()
}

/// The name under which a design file is read, from the stem of its file
/// name: the stem in upper case, with an underscore in place of every
/// space that an underscore follows. A stem that says `BACKUP` gives no
/// name.
pub open spec fn archive_name(stem: Seq<char>) -> Option<Seq<char>> {
    if occurs(uppercase(stem), "BACKUP"@) {
        None
    } else {
        Some(replaced(uppercase(stem), " _"@, "_"@))
    }
}

/// The extension is that of a design file: `cdr`, in either case.
pub open spec fn is_design_extension(extension: Seq<char>) -> bool {
    spells(extension, "CDR"@)
}

/// The name under which a design file is read, from the stem of its file
/// name.
pub fn design_name(stem: &str) -> (r: Option<String>)
    ensures
        match r {
            Some(name) => archive_name(stem@) == Some(name@),
            None => archive_name(stem@) is None,
        },
{
    let upper = raised(stem);
    let chars = to_chars(upper.as_str());
    if contains(&chars, &to_chars("BACKUP")) {
        None
    } else {
        Some(string_from_chars(&replace_all(&chars, &to_chars(" _"), &to_chars("_"))))
    }
}

/// Whether the extension is that of a design file.
pub fn has_design_extension(extension: &str) -> (b: bool)
    ensures
        b == is_design_extension(extension@),
{
    let e = to_chars(extension);
    let word = to_chars("CDR");
    let b = e.len() == word.len() && keyword_matches_at(&e, &word, 0);
    proof {
        if e@.len() == word@.len() {
            assert(e@.subrange(0, e@.len() as int) =~= e@);
        }
    }
    b
}

/// A character that a code can be made of: a letter or a number. Of an
/// ASCII character this is told here, of any other by `alphanumeric`,
/// which takes in every character that Unicode calls alphabetic or
/// numeric: the letters and numbers of all scripts, and the few marks and
/// signs that count as alphabetic without being letters.
pub open spec fn is_code_char(c: char) -> bool {
    if c <= '\u{7f}' {
        is_digit(c) || ('a' <= c && c <= 'z') || ('A' <= c && c <= 'Z')
    } else {
        alphanumeric(c)
    }
}

/// The code that a name starts with: its leading run of letters and
/// numbers, where that is three digits or more and nothing else, read as a
/// number that fits in 64 bits.
pub open spec fn code_of(name: Seq<char>) -> Option<u64> {
    let e = digits_end(name, 0);
    if e < 3 || (e < name.len() && is_code_char(name[e])) {
        None
    } else if decimal_value(name.subrange(0, e)) > u64::MAX {
        None
    } else {
        Some(decimal_value(name.subrange(0, e)) as u64)
    }
}

/// Where the first size token starts that stands for an approved size, the
/// tokens read from `p` on, each behind the one before it.
pub open spec fn first_size_start(s: Seq<char>, p: int) -> Option<int>
    decreases s.len() - p,
{
    if p < 0 || p >= s.len() {
        None
    } else {
        match token_at(s, p) {
            Some(t) => if token_size(s, t) is Some {
                Some(p)
            } else {
                first_size_start(s, t.end)
            },
            None => first_size_start(s, p + 1),
        }
    }
}

/// The approved sizes that the size tokens from `p` on stand for, in their
/// order.
pub open spec fn sizes_from(s: Seq<char>, p: int) -> Seq<Dimensions>
    decreases s.len() - p,
{
    if p < 0 || p >= s.len() {
        Seq::empty()
    } else {
        match token_at(s, p) {
            Some(t) => (match token_size(s, t) {
                Some(d) => seq![d],
                None => Seq::empty(),
            }) + sizes_from(s, t.end),
            None => sizes_from(s, p + 1),
        }
    }
}

/// Where a text has a first token of an approved size, a token starts
/// there and stands for an approved size.
pub proof fn lemma_first_size_is_token(s: Seq<char>, p: int)
    requires
        first_size_start(s, p) is Some,
    ensures
        p <= first_size_start(s, p)->0 < s.len(),
        token_at(s, first_size_start(s, p)->0) is Some,
        token_size(s, token_at(s, first_size_start(s, p)->0)->0) is Some,
    decreases s.len() - p,
{
    if 0 <= p < s.len() {
        match token_at(s, p) {
            Some(t) => {
                if token_size(s, t) is None {
                    lemma_first_size_is_token(s, t.end);
                }
            },
            None => {
                lemma_first_size_is_token(s, p + 1);
            },
        }
    }
}

/// The rest of a text from its first token of an approved size on states
/// at least that size.
pub proof fn lemma_tail_states_a_size(s: Seq<char>)
    requires
        first_size_start(s, 0) is Some,
    ensures
        sizes_from(s.subrange(first_size_start(s, 0)->0, s.len() as int), 0).len() >= 1,
{
    let cut = first_size_start(s, 0)->0;
    let rest = s.subrange(cut, s.len() as int);
    lemma_first_size_is_token(s, 0);
    lemma_token_in_rest(s, cut);
    let t = token_at(rest, 0)->0;
    let d = token_size(rest, t)->0;
    assert(sizes_from(rest, 0) == seq![d] + sizes_from(rest, t.end));
}

/// Every size that a text states is an approved size, in the orientation in
/// which it is listed, and neither of its sides is zero.
pub proof fn lemma_sizes_are_official(s: Seq<char>, p: int)
    ensures
        forall|i: int| 0 <= i < sizes_from(s, p).len() ==> approved(#[trigger] sizes_from(s, p)[i]),
    decreases s.len() - p,
{
    if 0 <= p < s.len() {
        match token_at(s, p) {
            Some(t) => {
                lemma_sizes_are_official(s, t.end);
                let rest = sizes_from(s, t.end);
                let all = sizes_from(s, p);
                match token_size(s, t) {
                    Some(d) => {
                        assert(all == seq![d] + rest);
                        assert(approved(d));
                        assert forall|i: int| 0 <= i < all.len() implies approved(
                            #[trigger] all[i],
                        ) by {
                            if i > 0 {
                                assert(all[i] == rest[i - 1]);
                            }
                        }
                    },
                    None => {
                        assert(all =~= rest);
                    },
                }
            },
            None => {
                lemma_sizes_are_official(s, p + 1);
                assert(sizes_from(s, p) == sizes_from(s, p + 1));
            },
        }
    } else {
        assert(sizes_from(s, p).len() == 0);
    }
}

/// The material of a stretch, where it states one.
pub open spec fn stated(r: Result<Material, Failure>) -> Seq<Material> {
    match r {
        Ok(m) => seq![m],
        Err(_) => Seq::empty(),
    }
}

/// The materials of the stretches that the size tokens of `s` leave
/// between them, each stretch read on its own: of the stretch from `start`
/// and of those behind it, the tokens sought from `p` on.
pub open spec fn segment_materials(s: Seq<char>, name: Seq<char>, start: int, p: int) -> Seq<
    Material,
>
    decreases s.len() - p,
{
    if p < 0 || p >= s.len() {
        stated(material_in(s.subrange(start, s.len() as int), name))
    } else {
        match token_at(s, p) {
            Some(t) => stated(material_in(s.subrange(start, p), name)) + segment_materials(
                s,
                name,
                t.end,
                t.end,
            ),
            None => segment_materials(s, name, start, p + 1),
        }
    }
}

/// The words that a description takes over from the tail of the name.
pub open spec fn qualifiers(suffix: Seq<char>) -> Seq<char> {
    (if occurs(suffix, "PROMO"@) {
        " PROMO"@
    } else {
        Seq::empty()
    }) + (if occurs(suffix, "TESTER"@) {
        " TESTER"@
    } else {
        Seq::empty()
    })
}

/// The description: what stands in `prefix` behind the first occurrence of
/// the code, without the padding at its ends and, where anything is left,
/// with the qualifiers of `suffix` behind it.
pub open spec fn description_of(prefix: Seq<char>, suffix: Seq<char>, code: u64) -> Option<
    Seq<char>,
> {
    let digits = decimal_text(code as nat);
    match first_occurrence(prefix, digits, 0) {
        None => None,
        Some(i) => {
            let rest = trimmed(prefix.subrange(i + digits.len(), prefix.len() as int), false);
            if rest.len() == 0 {
                None
            } else {
                Some(rest + qualifiers(suffix))
            }
        },
    }
}

/// Whether a code can be made of the character.
pub fn is_code_character(c: char) -> (b: bool)
    ensures
        b == is_code_char(c),
{
    if c <= '\u{7f}' {
        (c >= '0' && c <= '9') || (c >= 'a' && c <= 'z') || (c >= 'A' && c <= 'Z')
    } else {
        is_alphanumeric_char(c)
    }
}

/// The code that `name` starts with.
pub fn code_from(name: &Vec<char>) -> (r: Option<u64>)
    ensures
        r == code_of(name@),
{
    let e: usize = digits_run_end(name, 0);
    if e < 3 || (e < name.len() && is_code_character(name[e])) {
        return None;
    }
    let digits = slice_chars(name, 0, e);
    parse_decimal(&digits, u64::MAX)
}

/// Where the first size token of `s` starts that stands for an approved
/// size.
pub fn find_first_size(s: &Vec<char>) -> (r: Option<usize>)
    ensures
        match r {
            Some(i) => first_size_start(s@, 0) == Some(i as int) && i < s@.len(),
            None => first_size_start(s@, 0) is None,
        },
{
    let mut p: usize = 0;
    while p < s.len()
        invariant
            first_size_start(s@, 0) == first_size_start(s@, p as int),
        decreases s@.len() - p,
    {
        match read_token(s, p) {
            Some(t) => {
                if read_token_size(s, t).is_some() {
                    return Some(p);
                }
                p = t.2;
            },
            None => {
                p += 1;
            },
        }
    }
    None
}

/// The approved sizes that the size tokens of `s` stand for.
pub fn sizes_in(s: &Vec<char>) -> (r: Vec<Dimensions>)
    ensures
        r@ == sizes_from(s@, 0),
{
    let mut r: Vec<Dimensions> = Vec::new();
    let mut p: usize = 0;
    while p < s.len()
        invariant
            r@ + sizes_from(s@, p as int) == sizes_from(s@, 0),
        decreases s@.len() - p,
    {
        match read_token(s, p) {
            Some(t) => {
                let ghost before = r@;
                let ghost rest = sizes_from(s@, t.2 as int);
                match read_token_size(s, t) {
                    Some(d) => {
                        r.push(d);
                        assert(r@ + rest =~= before + (seq![d] + rest));
                    },
                    None => {
                        assert(r@ + rest =~= before + (Seq::<Dimensions>::empty() + rest));
                    },
                }
                p = t.2;
            },
            None => {
                p += 1;
            },
        }
    }
    assert(r@ + Seq::<Dimensions>::empty() =~= r@);
    r
}

/// The materials of the stretches that the size tokens of `s` leave
/// between them.
pub fn materials_in(s: &Vec<char>, name: &Vec<char>) -> (r: Vec<Material>)
    ensures
        r@ == segment_materials(s@, name@, 0, 0),
{
    let mut r: Vec<Material> = Vec::new();
    let mut start: usize = 0;
    let mut p: usize = 0;
    while p < s.len()
        invariant
            start <= p,
            start <= s@.len(),
            r@ + segment_materials(s@, name@, start as int, p as int) == segment_materials(
                s@,
                name@,
                0,
                0,
            ),
        decreases s@.len() - p,
    {
        match read_token(s, p) {
            Some(t) => {
                let ghost before = r@;
                let ghost rest = segment_materials(s@, name@, t.2 as int, t.2 as int);
                let segment = slice_chars(s, start, p);
                match find_material(&segment, name) {
                    Ok(m) => {
                        r.push(m);
                        assert(r@ + rest =~= before + (seq![m] + rest));
                    },
                    Err(_) => {
                        assert(r@ + rest =~= before + (Seq::<Material>::empty() + rest));
                    },
                }
                start = t.2;
                p = t.2;
            },
            None => {
                p += 1;
            },
        }
    }
    let ghost before = r@;
    let segment = slice_chars(s, start, s.len());
    match find_material(&segment, name) {
        Ok(m) => {
            r.push(m);
            assert(r@ =~= before + seq![m]);
        },
        Err(_) => {
            assert(r@ =~= before + Seq::<Material>::empty());
        },
    }
    r
}

/// The description that stands in `prefix` behind the code.
pub fn describe(prefix: &Vec<char>, suffix: &Vec<char>, code: u64) -> (r: Option<Vec<char>>)
    ensures
        match r {
            Some(d) => description_of(prefix@, suffix@, code) == Some(d@),
            None => description_of(prefix@, suffix@, code) is None,
        },
{
    let digits = decimal_chars(code);
    match find_from(prefix, &digits, 0) {
        None => None,
        Some(i) => {
            assert(first_occurrence(prefix@, digits@, 0) == Some(i as int));
            let tail = slice_chars(prefix, i + digits.len(), prefix.len());
            let mut rest = trim(&tail, false);
            if rest.len() == 0 {
                return None;
            }
            let ghost bare = rest@;
            if contains(suffix, &to_chars("PROMO")) {
                rest = join_chars(&rest, &to_chars(" PROMO"));
            } else {
                assert(rest@ =~= bare + Seq::<char>::empty());
            }
            let ghost promoted = rest@;
            if contains(suffix, &to_chars("TESTER")) {
                rest = join_chars(&rest, &to_chars(" TESTER"));
            } else {
                assert(rest@ =~= promoted + Seq::<char>::empty());
            }
            assert(rest@ =~= bare + qualifiers(suffix@));
            Some(rest)
        },
    }
}

/// The code that the name starts with, or the failure `MissingCode` on
/// the name.
pub fn extract_code(name: &str) -> (r: Result<u64, ParseStickerError>)
    ensures
        match r {
            Ok(code) => code_of(name@) == Some(code),
            Err(e) => code_of(name@) is None && e@ == failure(ErrorKind::MissingCode, name@),
        },
{
    match code_from(&to_chars(name)) {
        Some(code) => Ok(code),
        None => Err(ParseStickerError::MissingCode(name.to_owned())),
    }
}

/// The name cut in two where its first token of an approved size starts,
/// or the failure `MissingDimensions` on the name.
pub fn split_at_dimensions<'a>(name: &'a str) -> (r: Result<(&'a str, &'a str), ParseStickerError>)
    ensures
        match r {
            Ok(parts) => first_size_start(name@, 0) is Some && parts.0@ == name@.subrange(
                0,
                first_size_start(name@, 0).unwrap(),
            ) && parts.1@ == name@.subrange(
                first_size_start(name@, 0).unwrap(),
                name@.len() as int,
            ),
            Err(e) => first_size_start(name@, 0) is None && e@ == failure(
                ErrorKind::MissingDimensions,
                name@,
            ),
        },
{
    let chars = to_chars(name);
    match find_first_size(&chars) {
        Some(cut) => Ok(
            (name.substring_char(0, cut), name.substring_char(cut, name.unicode_len())),
        ),
        None => Err(ParseStickerError::MissingDimensions(name.to_owned())),
    }
}

/// The approved sizes that the size tokens of the text stand for, in
/// their order.
pub fn extract_dimensions(end_string: &str) -> (r: Vec<Dimensions>)
    ensures
        r@ == sizes_from(end_string@, 0),
{
    sizes_in(&to_chars(end_string))
}

/// The description that stands in the first part behind the code, or the
/// failure `MissingDescription` on the two parts joined.
pub fn extract_description(name_parts: (&str, &str), code: u64) -> (r: Result<
    String,
    ParseStickerError,
>)
    ensures
        match r {
            Ok(d) => description_of(name_parts.0@, name_parts.1@, code) == Some(d@),
            Err(e) => description_of(name_parts.0@, name_parts.1@, code) is None && e@ == failure(
                ErrorKind::MissingDescription,
                name_parts.0@ + name_parts.1@,
            ),
        },
{
    let prefix = to_chars(name_parts.0);
    let suffix = to_chars(name_parts.1);
    match describe(&prefix, &suffix, code) {
        Some(d) => Ok(string_from_chars(&d)),
        None => Err(
            ParseStickerError::MissingDescription(string_from_chars(&join_chars(&prefix, &suffix))),
        ),
    }
}

/// The material that a stretch of a name states, or why it states none:
/// `UnknownMaterial` on a material word that is not in upper case,
/// `MissingMaterial` on the name where the stretch has no material word
/// and the name does not say `LEAFLET`.
pub fn extract_material(material_part: &str, name: &str) -> (r: Result<
    Material,
    ParseStickerError,
>)
    ensures
        match r {
            Ok(m) => material_in(material_part@, name@) == Ok::<Material, Failure>(m),
            Err(e) => material_in(material_part@, name@) == Err::<Material, Failure>(e@),
        },
{
    find_material(&to_chars(material_part), &to_chars(name))
}

/// The colour that the text states with its first colour keyword.
pub fn extract_color(end_part: &str) -> (r: Option<Color>)
    ensures
        r == color_in(end_part@),
{
    find_color(&to_chars(end_part))
}

/// The records of each name, or why it has none, in the order of the
/// names.
pub fn parse_names(names: &[String]) -> (r: Vec<Result<Vec<Sticker>, ParseStickerError>>)
    ensures
        r@.len() == names@.len(),
        forall|i: int| 0 <= i < names@.len() ==> agrees(#[trigger] r@[i], names@[i]@),
{
    let mut r: Vec<Result<Vec<Sticker>, ParseStickerError>> = Vec::new();
    let mut i: usize = 0;
    while i < names.len()
        invariant
            i <= names@.len(),
            r@.len() == i,
            forall|k: int| 0 <= k < i ==> agrees(#[trigger] r@[k], names@[k]@),
        decreases names@.len() - i,
    {
        r.push(Sticker::parse_stickers(names[i].as_str()));
        i += 1;
    }
    r
}

/// The description by which a name without a code is compared: what
/// stands before its first token of an approved size, without the padding
/// at its ends.
pub open spec fn candidate_description(name: Seq<char>) -> Option<Seq<char>> {
    match first_size_start(name, 0) {
        Some(cut) => Some(trimmed(name.subrange(0, cut), false)),
        None => None,
    }
}

/// A name with a code set before it.
pub open spec fn coded_name(code: u64, name: Seq<char>) -> Seq<char> {
    decimal_text(code as nat) + seq!['_'] + name
}

/// The records that a name without a code yields under the code of one
/// record of the pool: those of the name with that code set before it,
/// where the record's description is like the name's; else none.
pub open spec fn recovered_under(
    name: Seq<char>,
    candidate: Seq<char>,
    source: Record,
    bound: SimilarityBound,
) -> Seq<Record> {
    if similar(candidate, source.description, bound) {
        match records_of(coded_name(source.code, name)) {
            Ok(found) => found,
            Err(_) => Seq::empty(),
        }
    } else {
        Seq::empty()
    }
}

/// The records that a name without a code yields under the codes of the
/// pool's records, taken in the pool's order.
pub open spec fn recovered(
    name: Seq<char>,
    candidate: Seq<char>,
    pool: Seq<Record>,
    bound: SimilarityBound,
) -> Seq<Record>
    decreases pool.len(),
{
    if pool.len() == 0 {
        Seq::empty()
    } else {
        recovered(name, candidate, pool.drop_last(), bound) + recovered_under(
            name,
            candidate,
            pool.last(),
            bound,
        )
    }
}

/// What recovery makes of a failure: a failure other than a missing code
/// stays as it is; a missing code gives the recovered records, or stays as
/// it is where there are none, as on a name without an approved size.
pub open spec fn inferred(error: Failure, pool: Seq<Record>, bound: SimilarityBound) -> Result<
    Seq<Record>,
    Failure,
> {
    if error.kind != ErrorKind::MissingCode {
        Err(error)
    } else {
        match candidate_description(error.fragment) {
            None => Err(error),
            Some(candidate) => if recovered(error.fragment, candidate, pool, bound).len() == 0 {
                Err(error)
            } else {
                Ok(recovered(error.fragment, candidate, pool, bound))
            },
        }
    }
}

/// A name with a code of three digits or more set before it starts with
/// that code.
pub proof fn lemma_coded_name_code(code: u64, name: Seq<char>)
    requires
        code >= 100,
    ensures
        code_of(coded_name(code, name)) == Some(code),
{
    let digits = decimal_text(code as nat);
    let s = coded_name(code, name);
    let e = digits.len() as int;
    lemma_decimal_text(code as nat);
    assert forall|k: int| 0 <= k < e implies is_digit(#[trigger] s[k]) by {
        assert(s[k] == digits[k]);
    }
    assert(s[e] == '_');
    lemma_digits_end_is(s, 0, e);
    assert(s.subrange(0, e) =~= digits);
}

/// A name with a code below a hundred set before it has no code: the code
/// is written with fewer than three digits.
pub proof fn lemma_coded_name_needs_three_digits(code: u64, name: Seq<char>)
    requires
        code < 100,
    ensures
        code_of(coded_name(code, name)) is None,
        records_of(coded_name(code, name)) is Err,
{
    let digits = decimal_text(code as nat);
    let s = coded_name(code, name);
    let e = digits.len() as int;
    lemma_decimal_text(code as nat);
    if code >= 10 {
        lemma_decimal_text((code / 10) as nat);
        assert(decimal_text((code / 10) as nat).len() == 1);
    }
    assert(e <= 2);
    assert forall|k: int| 0 <= k < e implies is_digit(#[trigger] s[k]) by {
        assert(s[k] == digits[k]);
    }
    assert(s[e] == '_');
    lemma_digits_end_is(s, 0, e);
}

/// Where no record of the pool has a description like the name's, the
/// missing code is not recovered: the failure stays as it is.
pub proof fn lemma_unlike_pool_recovers_nothing(
    name: Seq<char>,
    pool: Seq<Record>,
    bound: SimilarityBound,
)
    requires
        candidate_description(name) matches Some(candidate) ==> forall|k: int|
            0 <= k < pool.len() ==> !similar(candidate, (#[trigger] pool[k]).description, bound),
    ensures
        inferred(failure(ErrorKind::MissingCode, name), pool, bound) == Err::<Seq<Record>, Failure>(
            failure(ErrorKind::MissingCode, name),
        ),
    decreases pool.len(),
{
    if candidate_description(name) is Some && pool.len() > 0 {
        let candidate = candidate_description(name)->0;
        lemma_unlike_pool_recovers_nothing(name, pool.drop_last(), bound);
        assert(!similar(candidate, pool[pool.len() - 1].description, bound));
        assert(recovered(name, candidate, pool.drop_last(), bound).len() == 0);
        assert(recovered(name, candidate, pool, bound).len() == 0);
    }
}

/// A record of the pool whose description is like the name's recovers the
/// missing code, where the name yields records under its code: recovery
/// then succeeds with the records recovered from the pool, and one of them
/// carries that code.
pub proof fn lemma_like_record_recovers(
    name: Seq<char>,
    pool: Seq<Record>,
    bound: SimilarityBound,
    k: int,
)
    requires
        0 <= k < pool.len(),
        candidate_description(name) matches Some(candidate) && similar(
            candidate,
            pool[k].description,
            bound,
        ),
        records_of(coded_name(pool[k].code, name)) is Ok,
    ensures
        inferred(failure(ErrorKind::MissingCode, name), pool, bound) == Ok::<Seq<Record>, Failure>(
            recovered(name, candidate_description(name)->0, pool, bound),
        ),
        exists|i: int|
            0 <= i < recovered(name, candidate_description(name)->0, pool, bound).len() && (
            #[trigger] recovered(name, candidate_description(name)->0, pool, bound)[i]).code
                == pool[k].code,
    decreases pool.len(),
{
    let candidate = candidate_description(name).unwrap();
    let before = recovered(name, candidate, pool.drop_last(), bound);
    let all = recovered(name, candidate, pool, bound);
    let error = failure(ErrorKind::MissingCode, name);
    assert(all == before + recovered_under(name, candidate, pool.last(), bound));
    if k < pool.len() - 1 {
        assert(pool.drop_last()[k] == pool[k]);
        lemma_like_record_recovers(name, pool.drop_last(), bound, k);
        assert(inferred(error, pool.drop_last(), bound) == Ok::<Seq<Record>, Failure>(before));
        let i = choose|i: int| 0 <= i < before.len() && (#[trigger] before[i]).code == pool[k].code;
        assert(all[i].code == pool[k].code);
        assert(exists|i: int| 0 <= i < all.len() && (#[trigger] all[i]).code == pool[k].code);
    } else {
        if pool[k].code < 100 {
            lemma_coded_name_needs_three_digits(pool[k].code, name);
        }
        lemma_coded_name_code(pool[k].code, name);
        lemma_records_not_empty(coded_name(pool[k].code, name));
        let found = records_of(coded_name(pool[k].code, name))->Ok_0;
        assert(found[0].code == pool[k].code);
        assert(all[before.len() as int] == found[0]);
        assert(exists|i: int| 0 <= i < all.len() && (#[trigger] all[i]).code == pool[k].code);
    }
    assert(inferred(error, pool, bound) == Ok::<Seq<Record>, Failure>(all));
}

/// The records of the name under the code of `source`, where the
/// description of `source` is like `candidate`.
pub fn recover_under(name: &Vec<char>, candidate: &str, source: &Sticker, bound: SimilarityBound) -> (r:
    Vec<Sticker>)
    ensures
        records(r@) == recovered_under(name@, candidate@, source@, bound),
{
    if are_similar(candidate, source.description.as_str(), bound) {
        let mut line: Vec<char> = Vec::new();
        line.push('_');
        assert(line@ =~= seq!['_']);
        let coded = join_chars(&join_chars(&decimal_chars(source.code), &line), name);
        let text = string_from_chars(&coded);
        match Sticker::parse_stickers(text.as_str()) {
            Ok(found) => found,
            Err(_) => {
                let none: Vec<Sticker> = Vec::new();
                assert(records(none@) =~= Seq::<Record>::empty());
                none
            },
        }
    } else {
        let none: Vec<Sticker> = Vec::new();
        assert(records(none@) =~= Seq::<Record>::empty());
        none
    }
}

/// Recovers the code of a name that has none from the records whose
/// description is like the name's. Every such record lends its code; the
/// name is read again under each, and what then yields records is kept, in
/// the order of the pool. Where nothing is recovered, and for every
/// failure other than a missing code, the failure comes back as it is.
pub fn try_infering_code_by_description_similiarity_measure(
    error: &ParseStickerError,
    parsed_stickers: &[Sticker],
    bound: SimilarityBound,
) -> (r: Result<Vec<Sticker>, ParseStickerError>)
    ensures
        match r {
            Ok(v) => inferred(error@, records(parsed_stickers@), bound) == Ok::<
                Seq<Record>,
                Failure,
            >(records(v@)),
            Err(e) => inferred(error@, records(parsed_stickers@), bound) == Err::<
                Seq<Record>,
                Failure,
            >(e@),
        },
{
    match error {
        ParseStickerError::MissingCode(name) => {
            let chars = to_chars(name.as_str());
            let cut: usize = match find_first_size(&chars) {
                Some(cut) => cut,
                None => {
                    return Err(error.duplicate());
                },
            };
            let candidate = string_from_chars(&trim(&slice_chars(&chars, 0, cut), false));
            let ghost pool = records(parsed_stickers@);
            let mut found: Vec<Sticker> = Vec::new();
            let mut i: usize = 0;
            assert(pool.subrange(0, 0) =~= Seq::<Record>::empty());
            assert(records(found@) =~= Seq::<Record>::empty());
            while i < parsed_stickers.len()
                invariant
                    i <= parsed_stickers@.len(),
                    pool == records(parsed_stickers@),
                    chars@ == name@,
                    records(found@) == recovered(
                        name@,
                        candidate@,
                        pool.subrange(0, i as int),
                        bound,
                    ),
                decreases parsed_stickers@.len() - i,
            {
                let ghost before = found@;
                let mut more = recover_under(&chars, candidate.as_str(), &parsed_stickers[i], bound);
                let ghost added = more@;
                found.append(&mut more);
                proof {
                    assert(pool.subrange(0, i + 1).drop_last() =~= pool.subrange(0, i as int));
                    assert(pool.subrange(0, i + 1).last() == parsed_stickers@[i as int]@);
                    assert(records(found@) =~= records(before) + records(added));
                }
                i += 1;
            }
            assert(pool.subrange(0, i as int) =~= pool);
            if found.len() == 0 {
                Err(error.duplicate())
            } else {
                Ok(found)
            }
        },
        _ => Err(error.duplicate()),
    }
}

} // verus!
