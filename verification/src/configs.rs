//! The settings of a run, as the lines of the settings file state them.

use crate::similarity::{
    SimilarityBound, DEFAULT_ERROR_OUTPUT_MILLIONTHS, DEFAULT_INFERRING_MILLIONTHS,
};
use crate::structs::dimensions::{digits_end, digits_run_end};
use crate::text::{
    all_digits, decimal_value, digit_value, find_from, first_occurrence, is_digit, join_chars,
    keyword_matches_at, parse_decimal, slice_chars, spells, string_from_chars, strip, stripped,
    to_chars,
};
use vstd::prelude::*;
use vstd::string::*;

verus! {

/// The settings of a run.
#[derive(Debug, Clone)]
pub struct Settings {
    /// Where the archive of design files lies.
    pub archive: String,
    /// Where the order list lies.
    pub order: String,
    /// The sheet of the order list, where it is not the first.
    pub sheet_name: Option<String>,
    /// One more name for the column of the amounts.
    pub order_amount_column_name: Option<String>,
    /// The bound for recovering a code.
    pub inferring: SimilarityBound,
    /// The bound for showing a failure beside an order.
    pub error_output: SimilarityBound,
}

/// Why the lines give no settings.
#[derive(Debug, Clone, Copy, PartialEq, Eq, Structural)]
pub enum SettingsError {
    /// The bound for recovering a code is no number.
    InvalidInferringBound,
    /// The bound for showing failures is no number.
    InvalidErrorOutputBound,
    /// No line says where the archive lies.
    MissingArchive,
    /// No line says where the order list lies.
    MissingOrder,
}

/// Settings as contracts see them, complete or not yet.
pub struct Draft {
    pub archive: Option<Seq<char>>,
    pub order: Option<Seq<char>>,
    pub sheet_name: Option<Seq<char>>,
    pub order_amount_column_name: Option<Seq<char>>,
    pub inferring: u32,
    pub error_output: u32,
}

/// The text of an optional string.
pub open spec fn text_of(s: Option<String>) -> Option<Seq<char>> {
    match s {
        Some(t) => Some(t@),
        None => None,
    }
}

impl View for Settings {
    type V = Draft;

    open spec fn view(&self) -> Draft {
        Draft {
            archive: Some(self.archive@),
            order: Some(self.order@),
            sheet_name: text_of(self.sheet_name),
            order_amount_column_name: text_of(self.order_amount_column_name),
            inferring: self.inferring.millionths,
            error_output: self.error_output.millionths,
        }
    }
}

/// The settings before any line is read: nothing is set, and the bounds
/// are the default ones.
pub open spec fn blank_draft() -> Draft {
    Draft {
        archive: None,
        order: None,
        sheet_name: None,
        order_amount_column_name: None,
        inferring: DEFAULT_INFERRING_MILLIONTHS,
        error_output: DEFAULT_ERROR_OUTPUT_MILLIONTHS,
    }
}

/// The digit at index `i`, zero behind the end of the digits.
pub open spec fn digit_or_zero(d: Seq<char>, i: int) -> nat {
    if 0 <= i < d.len() {
        digit_value(d[i])
    } else {
        0
    }
}

/// The number that the first `n` of the digits write, with a zero for each
/// digit that is wanting.
pub open spec fn leading_value(d: Seq<char>, n: int) -> nat
    decreases n,
{
    if n <= 0 {
        0
    } else {
        leading_value(d, n - 1) * 10 + digit_or_zero(d, n - 1)
    }
}

/// A count as 32 bits hold it: itself, or the greatest value where it is
/// greater.
pub open spec fn capped32(n: nat) -> u32 {
    if n > u32::MAX {
        u32::MAX
    } else {
        n as u32
    }
}

/// The index behind the sign at `i`, where a plus or a minus stands there.
pub open spec fn sign_end(v: Seq<char>, i: int) -> int {
    if 0 <= i < v.len() && (v[i] == '+' || v[i] == '-') {
        i + 1
    } else {
        i
    }
}

/// A minus stands at `i`.
pub open spec fn is_minus_at(v: Seq<char>, i: int) -> bool {
    0 <= i < v.len() && v[i] == '-'
}

/// The exponent that a number has from `f` on: none where the text ends
/// there, else an `e` in either case, at will a sign, and digits up to the
/// end.
pub open spec fn exponent_of(v: Seq<char>, f: int) -> Option<int> {
    if f == v.len() {
        Some(0)
    } else if 0 <= f < v.len() && (v[f] == 'e' || v[f] == 'E') {
        let g = sign_end(v, f + 1);
        if g < v.len() && digits_end(v, g) == v.len() {
            Some(
                if is_minus_at(v, f + 1) {
                    -(decimal_value(v.subrange(g, v.len() as int)) as int)
                } else {
                    decimal_value(v.subrange(g, v.len() as int)) as int
                },
            )
        } else {
            None
        }
    } else {
        None
    }
}

/// The bound that a text writes, in millionths. The text is a decimal
/// number: at will a sign, then digits with at will a point among, before
/// or behind them, then at will an exponent; or it is `inf`, `infinity` or
/// `nan` in any case, at will with a sign. What is finer than a millionth
/// is cut off. A bound above the greatest value of 32 bits, which no two
/// texts can meet, is that value, as are `inf` and `nan`; a bound below
/// zero, which any two texts meet, is zero.
pub open spec fn millionths_of(v: Seq<char>) -> Option<u32> {
    let b = sign_end(v, 0);
    let word = v.subrange(b, v.len() as int);
    if spells(word, "INF"@) || spells(word, "INFINITY"@) {
        Some(
            if is_minus_at(v, 0) {
                0u32
            } else {
                u32::MAX
            },
        )
    } else if spells(word, "NAN"@) {
        Some(u32::MAX)
    } else {
        let a = digits_end(v, b);
        let c = if a < v.len() && v[a] == '.' {
            a + 1
        } else {
            a
        };
        let f = digits_end(v, c);
        if (a - b) + (f - c) <= 0 {
            None
        } else {
            match exponent_of(v, f) {
                None => None,
                Some(exp) => Some(
                    if is_minus_at(v, 0) {
                        0u32
                    } else {
                        capped32(
                            leading_value(v.subrange(b, a) + v.subrange(c, f), (a - b) + exp + 6),
                        )
                    },
                ),
            }
        }
    }
}

/// The key and the value of a line: what stands before and behind its
/// first `=`, each without the blanks at its ends.
pub open spec fn setting_of(line: Seq<char>) -> Option<(Seq<char>, Seq<char>)> {
    match first_occurrence(line, seq!['='], 0) {
        Some(i) => Some(
            (stripped(line.subrange(0, i)), stripped(line.subrange(i + 1, line.len() as int))),
        ),
        None => None,
    }
}

/// The settings with one more line read. A line without `=` and a line
/// with a key that is not known change nothing; a bound that is no number
/// is a failure.
pub open spec fn with_line(d: Draft, line: Seq<char>) -> Result<Draft, SettingsError> {
    match setting_of(line) {
        None => Ok(d),
        Some(kv) => if kv.0 == "archive"@ {
            Ok(Draft { archive: Some(kv.1), ..d })
        } else if kv.0 == "order"@ {
            Ok(Draft { order: Some(kv.1), ..d })
        } else if kv.0 == "sheet_name"@ {
            Ok(Draft { sheet_name: Some(kv.1), ..d })
        } else if kv.0 == "order_amount_column_name"@ {
            Ok(Draft { order_amount_column_name: Some(kv.1), ..d })
        } else if kv.0 == "inferring_levenshtein_distance"@ {
            match millionths_of(kv.1) {
                Some(m) => Ok(Draft { inferring: m, ..d }),
                None => Err(SettingsError::InvalidInferringBound),
            }
        } else if kv.0 == "error_output_levenshtein_distance"@ {
            match millionths_of(kv.1) {
                Some(m) => Ok(Draft { error_output: m, ..d }),
                None => Err(SettingsError::InvalidErrorOutputBound),
            }
        } else {
            Ok(d)
        },
    }
}

/// The settings with the lines read in their order; the first failure
/// ends the reading.
pub open spec fn drafted(lines: Seq<Seq<char>>) -> Result<Draft, SettingsError>
    decreases lines.len(),
{
    if lines.len() == 0 {
        Ok(blank_draft())
    } else {
        match drafted(lines.drop_last()) {
            Ok(d) => with_line(d, lines.last()),
            Err(e) => Err(e),
        }
    }
}

/// The settings that the lines state: a later line overrides an earlier
/// one, and the archive and the order list must be set.
pub open spec fn settings_of(lines: Seq<Seq<char>>) -> Result<Draft, SettingsError> {
    match drafted(lines) {
        Err(e) => Err(e),
        Ok(d) => if d.archive is None {
            Err(SettingsError::MissingArchive)
        } else if d.order is None {
            Err(SettingsError::MissingOrder)
        } else {
            Ok(d)
        },
    }
}

/// The texts of a sequence of lines.
pub open spec fn line_texts(v: Seq<String>) -> Seq<Seq<char>> {
    v.map_values(|s: String| s@)
}

/// More digits write no smaller number.
pub proof fn lemma_leading_grows(d: Seq<char>, i: int, n: int)
    requires
        i <= n,
    ensures
        leading_value(d, i) <= leading_value(d, n),
    decreases n - i,
{
    if i < n {
        lemma_leading_grows(d, i, n - 1);
    }
}

/// Zeros behind digits that write zero write zero.
pub proof fn lemma_zero_stays(d: Seq<char>, n: int)
    requires
        n >= d.len(),
        leading_value(d, d.len() as int) == 0,
    ensures
        leading_value(d, n) == 0,
    decreases n - d.len(),
{
    if n > d.len() {
        lemma_zero_stays(d, n - 1);
    }
}

/// Ten zeros behind the digits settle what 32 bits hold of the number:
/// more zeros change nothing.
pub proof fn lemma_leading_settles(d: Seq<char>, n: int)
    requires
        n >= d.len() + 10,
    ensures
        capped32(leading_value(d, n)) == capped32(leading_value(d, (d.len() + 10) as int)),
{
    let l = d.len() as int;
    if leading_value(d, l) == 0 {
        lemma_zero_stays(d, n);
        lemma_zero_stays(d, l + 10);
    } else {
        assert(leading_value(d, l + 1) >= 10);
        assert(leading_value(d, l + 2) >= 100);
        assert(leading_value(d, l + 3) >= 1000);
        assert(leading_value(d, l + 4) >= 10000);
        assert(leading_value(d, l + 5) >= 100000);
        assert(leading_value(d, l + 6) >= 1000000);
        assert(leading_value(d, l + 7) >= 10000000);
        assert(leading_value(d, l + 8) >= 100000000);
        assert(leading_value(d, l + 9) >= 1000000000);
        assert(leading_value(d, l + 10) >= 10000000000);
        lemma_leading_grows(d, l + 10, n);
    }
}

/// Up to three digits write a number below a thousand.
pub proof fn lemma_short_value(s: Seq<char>)
    requires
        all_digits(s),
    ensures
        s.len() == 0 ==> decimal_value(s) == 0,
        s.len() <= 1 ==> decimal_value(s) < 10,
        s.len() <= 2 ==> decimal_value(s) < 100,
        s.len() <= 3 ==> decimal_value(s) < 1000,
    decreases s.len(),
{
    if s.len() > 0 {
        assert forall|k: int| 0 <= k < s.drop_last().len() implies is_digit(
            #[trigger] s.drop_last()[k],
        ) by {
            assert(s.drop_last()[k] == s[k]);
        }
        lemma_short_value(s.drop_last());
        assert(is_digit(s[s.len() - 1]));
    }
}

/// What 32 bits hold of the number that the first `n` of the digits
/// write.
pub fn leading_capped(d: &Vec<char>, n: u128) -> (r: u32)
    requires
        all_digits(d@),
    ensures
        r == capped32(leading_value(d@, n as int)),
{
    let mut acc: u64 = 0;
    let mut i: u128 = 0;
    while i < n
        invariant
            i <= n,
            all_digits(d@),
            acc == leading_value(d@, i as int),
            acc <= u32::MAX,
        decreases n - i,
    {
        let digit: u64 = if i < d.len() as u128 {
            let c: char = d[i as usize];
            assert(is_digit(d@[i as int]));
            (c as u32 - '0' as u32) as u64
        } else {
            0
        };
        assert(digit == digit_or_zero(d@, i as int));
        acc = acc * 10 + digit;
        i += 1;
        if acc > 0xffff_ffff {
            proof {
                lemma_leading_grows(d@, i as int, n as int);
            }
            return 0xffff_ffff;
        }
    }
    acc as u32
}

/// Whether `v` from `b` on spells the word, ASCII case ignored.
pub fn spells_from(v: &Vec<char>, b: usize, word: &str) -> (r: bool)
    requires
        b <= v@.len(),
    ensures
        r == spells(v@.subrange(b as int, v@.len() as int), word@),
{
    let w = to_chars(word);
    v.len() - b == w.len() && keyword_matches_at(v, &w, b)
}

/// The exponent that a number has from `f` on: whether a minus stands
/// before it, and its size, where that fits in 64 bits.
pub fn read_exponent(v: &Vec<char>, f: usize) -> (r: Option<(bool, Option<u64>)>)
    requires
        f <= v@.len(),
    ensures
        match r {
            None => exponent_of(v@, f as int) is None,
            Some(p) => exponent_of(v@, f as int) matches Some(exp) && (p.0 ==> exp <= 0) && (!p.0
                ==> exp >= 0) && (match p.1 {
                Some(m) => m == exp || m == -exp,
                None => (exp > u64::MAX || -exp > u64::MAX) && f + 5 <= v@.len(),
            }),
        },
{
    let len: usize = v.len();
    if f == len {
        return Some((false, Some(0)));
    }
    if !(v[f] == 'e' || v[f] == 'E') {
        return None;
    }
    let minus: bool = f + 1 < len && v[f + 1] == '-';
    let g: usize = if f + 1 < len && (v[f + 1] == '+' || v[f + 1] == '-') {
        f + 2
    } else {
        f + 1
    };
    if g >= len || digits_run_end(v, g) != len {
        return None;
    }
    let e = slice_chars(v, g, len);
    proof {
        lemma_short_value(e@);
    }
    Some((minus, parse_decimal(&e, u64::MAX)))
}

/// What 32 bits hold of the millionths of a number: of the number that the
/// digits write with the point behind the first `wl` of them, times ten to
/// the exponent.
fn scaled(d: &Vec<char>, wl: usize, exp_minus: bool, magnitude: Option<u64>, exp: Ghost<int>) -> (r:
    u32)
    requires
        all_digits(d@),
        wl <= d@.len(),
        exp_minus ==> exp@ <= 0,
        !exp_minus ==> exp@ >= 0,
        match magnitude {
            Some(m) => m == exp@ || m == -exp@,
            None => exp@ >= d@.len() + 6 || -exp@ >= d@.len() + 6,
        },
    ensures
        r == capped32(leading_value(d@, wl + exp@ + 6)),
{
    let wl: u128 = wl as u128;
    let dl: u128 = d.len() as u128;
    let n: u128 = match magnitude {
        Some(m) => {
            if exp_minus {
                if m as u128 >= wl + 6 {
                    0
                } else {
                    wl + 6 - m as u128
                }
            } else {
                let full: u128 = wl + 6 + m as u128;
                if full > dl + 10 {
                    dl + 10
                } else {
                    full
                }
            }
        },
        None => {
            if exp_minus {
                0
            } else {
                dl + 10
            }
        },
    };
    proof {
        let wanted = wl + exp@ + 6;
        if wanted > dl + 10 {
            lemma_leading_settles(d@, wanted);
        }
        if wanted <= 0 {
            assert(leading_value(d@, wanted) == 0);
            assert(leading_value(d@, 0) == 0);
        }
    }
    leading_capped(d, n)
}

/// The bound that a text writes, in millionths.
pub fn parse_millionths(v: &Vec<char>) -> (r: Option<u32>)
    ensures
        r == millionths_of(v@),
{
    let len: usize = v.len();
    let minus: bool = len > 0 && v[0] == '-';
    let b: usize = if len > 0 && (v[0] == '+' || v[0] == '-') {
        1
    } else {
        0
    };
    if spells_from(v, b, "INF") || spells_from(v, b, "INFINITY") {
        return Some(
            if minus {
                0
            } else {
                0xffff_ffff
            },
        );
    }
    if spells_from(v, b, "NAN") {
        return Some(0xffff_ffff);
    }
    let a: usize = digits_run_end(v, b);
    let c: usize = if a < len && v[a] == '.' {
        a + 1
    } else {
        a
    };
    let f: usize = digits_run_end(v, c);
    if a - b == 0 && f - c == 0 {
        return None;
    }
    let (exp_minus, magnitude) = match read_exponent(v, f) {
        Some(p) => p,
        None => {
            return None;
        },
    };
    if minus {
        return Some(0);
    }
    let whole = slice_chars(v, b, a);
    let fraction = slice_chars(v, c, f);
    let d = join_chars(&whole, &fraction);
    proof {
        assert forall|k: int| 0 <= k < d@.len() implies is_digit(#[trigger] d@[k]) by {
            if k < whole@.len() {
                assert(d@[k] == whole@[k]);
            } else {
                assert(d@[k] == fraction@[k - whole@.len()]);
            }
        }
    }
    Some(scaled(&d, a - b, exp_minus, magnitude, Ghost(exponent_of(v@, f as int)->0)))
}

/// Whether the characters are those of the text.
pub fn same_text(a: &Vec<char>, b: &str) -> (r: bool)
    ensures
        r == (a@ == b@),
{
    let other = to_chars(b);
    if a.len() != other.len() {
        return false;
    }
    let mut i: usize = 0;
    while i < a.len()
        invariant
            i <= a@.len(),
            a@.len() == other@.len(),
            other@ == b@,
            forall|k: int| 0 <= k < i ==> a@[k] == other@[k],
        decreases a@.len() - i,
    {
        if a[i] != other[i] {
            return false;
        }
        i += 1;
    }
    assert(a@ =~= other@);
    true
}

/// The key and the value of a line.
pub fn split_setting(line: &str) -> (r: Option<(Vec<char>, Vec<char>)>)
    ensures
        match r {
            Some(kv) => setting_of(line@) == Some((kv.0@, kv.1@)),
            None => setting_of(line@) is None,
        },
{
    let chars = to_chars(line);
    let mut sign: Vec<char> = Vec::new();
    sign.push('=');
    assert(sign@ =~= seq!['=']);
    match find_from(&chars, &sign, 0) {
        Some(i) => {
            let key = strip(&slice_chars(&chars, 0, i));
            let value = strip(&slice_chars(&chars, i + 1, chars.len()));
            Some((key, value))
        },
        None => None,
    }
}

/// Settings that are not complete yet.
#[derive(Debug, Clone)]
pub struct Pending {
    pub archive: Option<String>,
    pub order: Option<String>,
    pub sheet_name: Option<String>,
    pub order_amount_column_name: Option<String>,
    pub inferring: u32,
    pub error_output: u32,
}

impl View for Pending {
    type V = Draft;

    open spec fn view(&self) -> Draft {
        Draft {
            archive: text_of(self.archive),
            order: text_of(self.order),
            sheet_name: text_of(self.sheet_name),
            order_amount_column_name: text_of(self.order_amount_column_name),
            inferring: self.inferring,
            error_output: self.error_output,
        }
    }
}

/// The settings with one more line read.
pub fn read_line(d: Pending, line: &str) -> (r: Result<Pending, SettingsError>)
    ensures
        match r {
            Ok(p) => with_line(d@, line@) == Ok::<Draft, SettingsError>(p@),
            Err(e) => with_line(d@, line@) == Err::<Draft, SettingsError>(e),
        },
{
    let mut d = d;
    let (key, value) = match split_setting(line) {
        Some(kv) => kv,
        None => {
            return Ok(d);
        },
    };
    if same_text(&key, "archive") {
        d.archive = Some(string_from_chars(&value));
    } else if same_text(&key, "order") {
        d.order = Some(string_from_chars(&value));
    } else if same_text(&key, "sheet_name") {
        d.sheet_name = Some(string_from_chars(&value));
    } else if same_text(&key, "order_amount_column_name") {
        d.order_amount_column_name = Some(string_from_chars(&value));
    } else if same_text(&key, "inferring_levenshtein_distance") {
        match parse_millionths(&value) {
            Some(m) => {
                d.inferring = m;
            },
            None => {
                return Err(SettingsError::InvalidInferringBound);
            },
        }
    } else if same_text(&key, "error_output_levenshtein_distance") {
        match parse_millionths(&value) {
            Some(m) => {
                d.error_output = m;
            },
            None => {
                return Err(SettingsError::InvalidErrorOutputBound);
            },
        }
    }
    Ok(d)
}

/// The settings that the lines of a settings file state.
pub fn parse_settings(lines: &Vec<String>) -> (r: Result<Settings, SettingsError>)
    ensures
        match r {
            Ok(s) => settings_of(line_texts(lines@)) == Ok::<Draft, SettingsError>(s@),
            Err(e) => settings_of(line_texts(lines@)) == Err::<Draft, SettingsError>(e),
        },
{
    let ghost all = line_texts(lines@);
    let mut d = Pending {
        archive: None,
        order: None,
        sheet_name: None,
        order_amount_column_name: None,
        inferring: DEFAULT_INFERRING_MILLIONTHS,
        error_output: DEFAULT_ERROR_OUTPUT_MILLIONTHS,
    };
    let mut i: usize = 0;
    assert(all.subrange(0, 0) =~= Seq::<Seq<char>>::empty());
    while i < lines.len()
        invariant
            i <= lines@.len(),
            all == line_texts(lines@),
            drafted(all.subrange(0, i as int)) == Ok::<Draft, SettingsError>(d@),
        decreases lines@.len() - i,
    {
        proof {
            assert(all.subrange(0, i + 1).drop_last() =~= all.subrange(0, i as int));
            assert(all.subrange(0, i + 1).last() == lines@[i as int]@);
        }
        match read_line(d, lines[i].as_str()) {
            Ok(next) => {
                d = next;
            },
            Err(e) => {
                proof {
                    lemma_failure_stays(all, i + 1);
                    assert(all.subrange(0, all.len() as int) =~= all);
                }
                return Err(e);
            },
        }
        i += 1;
    }
    assert(all.subrange(0, i as int) =~= all);
    let archive = match d.archive {
        Some(a) => a,
        None => {
            return Err(SettingsError::MissingArchive);
        },
    };
    let order = match d.order {
        Some(o) => o,
        None => {
            return Err(SettingsError::MissingOrder);
        },
    };
    Ok(
        Settings {
            archive,
            order,
            sheet_name: d.sheet_name,
            order_amount_column_name: d.order_amount_column_name,
            inferring: SimilarityBound { millionths: d.inferring },
            error_output: SimilarityBound { millionths: d.error_output },
        },
    )
}

/// A failure in the first `k` lines is the failure of all lines.
pub proof fn lemma_failure_stays(lines: Seq<Seq<char>>, k: int)
    requires
        0 <= k <= lines.len(),
        drafted(lines.subrange(0, k)) is Err,
    ensures
        drafted(lines) == drafted(lines.subrange(0, k)),
    decreases lines.len() - k,
{
    if k == lines.len() {
        assert(lines.subrange(0, k) =~= lines);
    } else {
        assert(lines.subrange(0, k + 1).drop_last() =~= lines.subrange(0, k));
        lemma_failure_stays(lines, k + 1);
    }
}

} // verus!
