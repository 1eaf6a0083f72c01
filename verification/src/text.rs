//! Character sequences: the primitives that the name grammar is built from.

use vstd::prelude::*;

verus! {

/// A decimal digit. Only the ten ASCII digits count: the digits of other
/// scripts are no digits here.
pub open spec fn is_digit(c: char) -> bool {
    '0' <= c && c <= '9'
}

/// The value of a decimal digit.
pub open spec fn digit_value(c: char) -> nat {
    (c as int - '0' as int) as nat
}

/// The digit that stands for a value below ten.
pub open spec fn digit_char(d: nat) -> char {
    if d == 0 {
        '0'
    } else if d == 1 {
        '1'
    } else if d == 2 {
        '2'
    } else if d == 3 {
        '3'
    } else if d == 4 {
        '4'
    } else if d == 5 {
        '5'
    } else if d == 6 {
        '6'
    } else if d == 7 {
        '7'
    } else if d == 8 {
        '8'
    } else {
        '9'
    }
}

/// Every character is a decimal digit.
pub open spec fn all_digits(s: Seq<char>) -> bool {
    forall|i: int| 0 <= i < s.len() ==> is_digit(#[trigger] s[i])
}

/// The number that a run of decimal digits writes.
pub open spec fn decimal_value(s: Seq<char>) -> nat
    decreases s.len(),
{
    if s.len() == 0 {
        0
    } else {
        decimal_value(s.drop_last()) * 10 + digit_value(s.last())
    }
}

/// The decimal digits of a number, without leading zeros.
pub open spec fn decimal_text(n: nat) -> Seq<char>
    decreases n,
{
    if n < 10 {
        seq![digit_char(n)]
    } else {
        decimal_text(n / 10).push(digit_char(n % 10))
    }
}

/// `pat` stands in `s` at index `i`.
pub open spec fn occurs_at(s: Seq<char>, pat: Seq<char>, i: int) -> bool {
    0 <= i && i + pat.len() <= s.len() && s.subrange(i, i + pat.len()) == pat
}

/// The index of the first occurrence of `pat` in `s` at or after `from`.
pub open spec fn first_occurrence(s: Seq<char>, pat: Seq<char>, from: int) -> Option<int>
    decreases s.len() - from,
{
    if from < 0 || pat.len() == 0 || from + pat.len() > s.len() {
        None
    } else if occurs_at(s, pat, from) {
        Some(from)
    } else {
        first_occurrence(s, pat, from + 1)
    }
}

/// `pat` occurs somewhere in `s`.
pub open spec fn occurs(s: Seq<char>, pat: Seq<char>) -> bool {
    first_occurrence(s, pat, 0) is Some
}

/// `c` is the upper-case ASCII letter `k` in any of its cases: `k` itself,
/// its lower-case form, and the one other character that case folding
/// makes equal to it, which is the Kelvin sign for `K` and the long s for
/// `S`. For any other `k`, `c` is `k` itself.
pub open spec fn same_letter(c: char, k: char) -> bool {
    c == k || ('A' <= k && k <= 'Z' && c as int == k as int + 32) || (k == 'K' && c == '\u{212a}')
        || (k == 'S' && c == '\u{17f}')
}

/// `a` spells the keyword `kw`, case ignored.
pub open spec fn spells(a: Seq<char>, kw: Seq<char>) -> bool {
    a.len() == kw.len() && forall|k: int| 0 <= k < kw.len() ==> same_letter(#[trigger] a[k], kw[k])
}

/// The keyword `kw`, written in upper-case ASCII letters, stands in `s` at
/// index `i`, case ignored.
pub open spec fn keyword_at(s: Seq<char>, kw: Seq<char>, i: int) -> bool {
    0 <= i && i + kw.len() <= s.len() && spells(s.subrange(i, i + kw.len()), kw)
}

/// A character that trimming removes: underscore, space and, where `dot` is
/// set, the full stop.
pub open spec fn is_padding(c: char, dot: bool) -> bool {
    c == '_' || c == ' ' || (dot && c == '.')
}

/// The index behind the padding that starts at `i`.
pub open spec fn padding_end(s: Seq<char>, dot: bool, i: int) -> int
    decreases s.len() - i,
{
    if 0 <= i < s.len() && is_padding(s[i], dot) {
        padding_end(s, dot, i + 1)
    } else {
        i
    }
}

/// The index at which the padding that ends at `j` starts, not below `lo`.
pub open spec fn padding_start(s: Seq<char>, dot: bool, lo: int, j: int) -> int
    decreases j,
{
    if lo < j && 0 < j <= s.len() && is_padding(s[j - 1], dot) {
        padding_start(s, dot, lo, j - 1)
    } else {
        j
    }
}

/// `s` without the padding at its two ends.
pub open spec fn trimmed(s: Seq<char>, dot: bool) -> Seq<char> {
    let a = padding_end(s, dot, 0);
    let b = padding_start(s, dot, a, s.len() as int);
    s.subrange(a, b)
}

/// Whether a character is white space of any script, as
/// `char::is_whitespace` tells.
pub uninterp spec fn whitespace(c: char) -> bool;

/// A blank: a character that is left out at the ends of a text that a
/// person typed. Of an ASCII character this is told here (the space and
/// the characters from the tabulator to the carriage return), of any other
/// by `whitespace`.
pub open spec fn is_blank(c: char) -> bool {
    if c <= '\u{7f}' {
        c == ' ' || ('\t' <= c && c <= '\r')
    } else {
        whitespace(c)
    }
}

/// Where the digits of a number start whose text starts at `i`: behind
/// its plus sign, where it has one.
pub open spec fn digits_start(s: Seq<char>, i: int) -> int {
    if 0 <= i < s.len() && s[i] == '+' {
        i + 1
    } else {
        i
    }
}

/// The index behind the blanks that start at `i`.
pub open spec fn blank_end(s: Seq<char>, i: int) -> int
    decreases s.len() - i,
{
    if 0 <= i < s.len() && is_blank(s[i]) {
        blank_end(s, i + 1)
    } else {
        i
    }
}

/// The index at which the blanks that end at `j` start, not below `lo`.
pub open spec fn blank_start(s: Seq<char>, lo: int, j: int) -> int
    decreases j,
{
    if lo < j && 0 < j <= s.len() && is_blank(s[j - 1]) {
        blank_start(s, lo, j - 1)
    } else {
        j
    }
}

/// A text without the blanks at its two ends.
pub open spec fn stripped(s: Seq<char>) -> Seq<char> {
    let a = blank_end(s, 0);
    s.subrange(a, blank_start(s, a, s.len() as int))
}

/// `s` from index `i` on, with every occurrence of `pat` taken out, the
/// occurrences found from left to right without overlap.
pub open spec fn without_from(s: Seq<char>, pat: Seq<char>, i: int) -> Seq<char>
    decreases s.len() - i,
{
    if i < 0 || i >= s.len() {
        Seq::empty()
    } else if pat.len() > 0 && occurs_at(s, pat, i) {
        without_from(s, pat, i + pat.len())
    } else {
        seq![s[i]] + without_from(s, pat, i + 1)
    }
}

/// `s` with every occurrence of `pat` taken out.
pub open spec fn without(s: Seq<char>, pat: Seq<char>) -> Seq<char> {
    without_from(s, pat, 0)
}

/// `s` from index `i` on, with `with` in place of every occurrence of
/// `pat`, the occurrences found from left to right without overlap.
pub open spec fn replaced_from(s: Seq<char>, pat: Seq<char>, with: Seq<char>, i: int) -> Seq<char>
    decreases s.len() - i,
{
    if i < 0 || i >= s.len() {
        Seq::empty()
    } else if pat.len() > 0 && occurs_at(s, pat, i) {
        with + replaced_from(s, pat, with, i + pat.len())
    } else {
        seq![s[i]] + replaced_from(s, pat, with, i + 1)
    }
}

/// `s` with `with` in place of every occurrence of `pat`.
pub open spec fn replaced(s: Seq<char>, pat: Seq<char>, with: Seq<char>) -> Seq<char> {
    replaced_from(s, pat, with, 0)
}

/// Whether the character is a decimal digit.
pub fn is_digit_char(c: char) -> (b: bool)
    ensures
        b == is_digit(c),
{
    c >= '0' && c <= '9'
}

/// Whether trimming removes the character.
pub fn is_padding_char(c: char, dot: bool) -> (b: bool)
    ensures
        b == is_padding(c, dot),
{
    c == '_' || c == ' ' || (dot && c == '.')
}

/// Whether `c` is the letter `k` in either case.
pub fn same_letter_char(c: char, k: char) -> (b: bool)
    ensures
        b == same_letter(c, k),
{
    c == k || (k >= 'A' && k <= 'Z' && c as u32 == k as u32 + 32) || (k == 'K' && c == '\u{212a}')
        || (k == 'S' && c == '\u{17f}')
}

/// The characters of a string.
pub fn to_chars(s: &str) -> (v: Vec<char>)
    ensures
        v@ == s@,
{
    let n: usize = s.unicode_len();
    let mut v: Vec<char> = Vec::new();
    let mut i: usize = 0;
    while i < n
        invariant
            i <= n,
            n == s@.len(),
            v@ == s@.subrange(0, i as int),
        decreases n - i,
    {
        v.push(s.get_char(i));
        i += 1;
        assert(v@ =~= s@.subrange(0, i as int));
    }
    assert(s@.subrange(0, n as int) =~= s@);
    v
}

/// `String::from_iter` on the characters of `chars`: the string that holds
/// exactly these characters, in this order.
#[verifier::external_body]
pub(crate) fn string_from_chars(chars: &Vec<char>) -> (s: String)
    ensures
        s@ == chars@,
{
    String::from_iter(chars.iter())
}

/// A copy of the characters from `from` up to `to`.
pub fn slice_chars(v: &Vec<char>, from: usize, to: usize) -> (r: Vec<char>)
    requires
        from <= to <= v@.len(),
    ensures
        r@ == v@.subrange(from as int, to as int),
{
    let mut r: Vec<char> = Vec::new();
    let mut i: usize = from;
    while i < to
        invariant
            from <= i <= to <= v@.len(),
            r@ == v@.subrange(from as int, i as int),
        decreases to - i,
    {
        r.push(v[i]);
        i += 1;
        assert(r@ =~= v@.subrange(from as int, i as int));
    }
    r
}

/// The two sequences joined.
pub fn join_chars(a: &Vec<char>, b: &Vec<char>) -> (r: Vec<char>)
    ensures
        r@ == a@ + b@,
{
    let mut r: Vec<char> = slice_chars(a, 0, a.len());
    assert(r@ =~= a@);
    let mut i: usize = 0;
    while i < b.len()
        invariant
            i <= b@.len(),
            r@ == a@ + b@.subrange(0, i as int),
        decreases b@.len() - i,
    {
        r.push(b[i]);
        i += 1;
        assert(r@ =~= a@ + b@.subrange(0, i as int));
    }
    assert(b@.subrange(0, b@.len() as int) =~= b@);
    r
}

/// Whether `pat` stands in `s` at index `i`.
pub fn matches_at(s: &Vec<char>, pat: &Vec<char>, i: usize) -> (b: bool)
    ensures
        b == occurs_at(s@, pat@, i as int),
        b ==> i + pat@.len() <= s@.len() <= usize::MAX,
{
    if pat.len() > s.len() || i > s.len() - pat.len() {
        return false;
    }
    let mut k: usize = 0;
    while k < pat.len()
        invariant
            k <= pat@.len(),
            i + pat@.len() <= s@.len() <= usize::MAX,
            forall|j: int| 0 <= j < k ==> s@[i + j] == pat@[j],
        decreases pat@.len() - k,
    {
        if s[i + k] != pat[k] {
            assert(s@.subrange(i as int, i + pat@.len())[k as int] != pat@[k as int]);
            return false;
        }
        k += 1;
    }
    assert(s@.subrange(i as int, i + pat@.len()) =~= pat@);
    true
}

/// Whether the keyword `kw` stands in `s` at index `i`, case ignored.
pub fn keyword_matches_at(s: &Vec<char>, kw: &Vec<char>, i: usize) -> (b: bool)
    ensures
        b == keyword_at(s@, kw@, i as int),
        b ==> i + kw@.len() <= s@.len() <= usize::MAX,
{
    if kw.len() > s.len() || i > s.len() - kw.len() {
        return false;
    }
    let ghost part = s@.subrange(i as int, i + kw@.len());
    let mut k: usize = 0;
    while k < kw.len()
        invariant
            k <= kw@.len(),
            i + kw@.len() <= s@.len() <= usize::MAX,
            part == s@.subrange(i as int, i + kw@.len()),
            forall|j: int| 0 <= j < k ==> same_letter(#[trigger] part[j], kw@[j]),
        decreases kw@.len() - k,
    {
        assert(part[k as int] == s@[i + k]);
        if !same_letter_char(s[i + k], kw[k]) {
            return false;
        }
        k += 1;
    }
    true
}

/// The first occurrence of `pat` in `s` at or after `from`.
pub fn find_from(s: &Vec<char>, pat: &Vec<char>, from: usize) -> (r: Option<usize>)
    ensures
        r.is_some() == first_occurrence(s@, pat@, from as int).is_some(),
        r.is_some() ==> r.unwrap() as int == first_occurrence(s@, pat@, from as int).unwrap(),
        r.is_some() ==> from <= r.unwrap() && r.unwrap() + pat@.len() <= s@.len() <= usize::MAX,
{
    if pat.len() == 0 {
        return None;
    }
    let mut i: usize = from;
    while pat.len() <= s.len() && i <= s.len() - pat.len()
        invariant
            from <= i,
            pat@.len() > 0,
            first_occurrence(s@, pat@, from as int) == first_occurrence(s@, pat@, i as int),
        decreases s@.len() - i,
    {
        if matches_at(s, pat, i) {
            return Some(i);
        }
        i += 1;
    }
    None
}

/// Whether `pat` occurs in `s`.
pub fn contains(s: &Vec<char>, pat: &Vec<char>) -> (b: bool)
    ensures
        b == occurs(s@, pat@),
{
    find_from(s, pat, 0).is_some()
}

/// `s` without the padding at its two ends.
pub fn trim(s: &Vec<char>, dot: bool) -> (r: Vec<char>)
    ensures
        r@ == trimmed(s@, dot),
{
    let mut a: usize = 0;
    while a < s.len() && is_padding_char(s[a], dot)
        invariant
            a <= s@.len(),
            padding_end(s@, dot, 0) == padding_end(s@, dot, a as int),
        decreases s@.len() - a,
    {
        a += 1;
    }
    let mut b: usize = s.len();
    while a < b && is_padding_char(s[b - 1], dot)
        invariant
            a <= b <= s@.len(),
            padding_start(s@, dot, a as int, s@.len() as int) == padding_start(
                s@,
                dot,
                a as int,
                b as int,
            ),
        decreases b,
    {
        b -= 1;
    }
    slice_chars(s, a, b)
}

/// `char::is_whitespace`: whether the character is white space of any
/// script.
#[verifier::external_body]
fn is_whitespace_char(c: char) -> (b: bool)
    ensures
        b == whitespace(c),
{
    c.is_whitespace()
}

/// Whether the character is a blank.
pub fn is_blank_char(c: char) -> (b: bool)
    ensures
        b == is_blank(c),
{
    if c <= '\u{7f}' {
        c == ' ' || ('\t' <= c && c <= '\r')
    } else {
        is_whitespace_char(c)
    }
}

/// Where the digits of a number start whose text starts at `i`.
pub fn skip_plus(s: &Vec<char>, i: usize) -> (r: usize)
    requires
        i <= s@.len(),
    ensures
        r as int == digits_start(s@, i as int),
        i <= r <= s@.len(),
{
    if i < s.len() && s[i] == '+' {
        i + 1
    } else {
        i
    }
}

/// The text without the blanks at its two ends.
pub fn strip(s: &Vec<char>) -> (r: Vec<char>)
    ensures
        r@ == stripped(s@),
{
    let mut a: usize = 0;
    while a < s.len() && is_blank_char(s[a])
        invariant
            a <= s@.len(),
            blank_end(s@, 0) == blank_end(s@, a as int),
        decreases s@.len() - a,
    {
        a += 1;
    }
    let mut b: usize = s.len();
    while a < b && is_blank_char(s[b - 1])
        invariant
            a <= b <= s@.len(),
            blank_start(s@, a as int, s@.len() as int) == blank_start(s@, a as int, b as int),
        decreases b,
    {
        b -= 1;
    }
    slice_chars(s, a, b)
}

/// `s` with every occurrence of `pat` taken out.
pub fn remove_all(s: &Vec<char>, pat: &Vec<char>) -> (r: Vec<char>)
    ensures
        r@ == without(s@, pat@),
{
    let mut r: Vec<char> = Vec::new();
    let mut i: usize = 0;
    while i < s.len()
        invariant
            i <= s@.len(),
            r@ + without_from(s@, pat@, i as int) == without(s@, pat@),
        decreases s@.len() - i,
    {
        if pat.len() > 0 && matches_at(s, pat, i) {
            i += pat.len();
        } else {
            let ghost before = r@;
            r.push(s[i]);
            assert(r@ + without_from(s@, pat@, i + 1) =~= before + (seq![s@[i as int]]
                + without_from(s@, pat@, i + 1)));
            i += 1;
        }
    }
    assert(r@ + Seq::<char>::empty() =~= r@);
    r
}

/// `s` with `with` in place of every occurrence of `pat`.
pub fn replace_all(s: &Vec<char>, pat: &Vec<char>, with: &Vec<char>) -> (r: Vec<char>)
    ensures
        r@ == replaced(s@, pat@, with@),
{
    let mut r: Vec<char> = Vec::new();
    let mut i: usize = 0;
    while i < s.len()
        invariant
            i <= s@.len(),
            r@ + replaced_from(s@, pat@, with@, i as int) == replaced(s@, pat@, with@),
        decreases s@.len() - i,
    {
        let ghost before = r@;
        if pat.len() > 0 && matches_at(s, pat, i) {
            r = join_chars(&r, with);
            assert(r@ + replaced_from(s@, pat@, with@, i + pat@.len()) =~= before + (with@
                + replaced_from(s@, pat@, with@, i + pat@.len())));
            i += pat.len();
        } else {
            r.push(s[i]);
            assert(r@ + replaced_from(s@, pat@, with@, i + 1) =~= before + (seq![s@[i as int]]
                + replaced_from(s@, pat@, with@, i + 1)));
            i += 1;
        }
    }
    assert(r@ + Seq::<char>::empty() =~= r@);
    r
}

/// The decimal digits of a number are digits, and they write the number.
pub proof fn lemma_decimal_text(n: nat)
    ensures
        all_digits(decimal_text(n)),
        decimal_text(n).len() >= 1,
        n >= 100 ==> decimal_text(n).len() >= 3,
        decimal_value(decimal_text(n)) == n,
    decreases n,
{
    if n < 10 {
        let s = seq![digit_char(n)];
        assert(s.drop_last() =~= Seq::<char>::empty());
        assert(decimal_value(s.drop_last()) == 0);
        assert(s.last() == digit_char(n));
    } else {
        lemma_decimal_text(n / 10);
        let s = decimal_text(n);
        assert(s.drop_last() =~= decimal_text(n / 10));
        assert(s.last() == digit_char(n % 10));
        if n >= 100 {
            lemma_decimal_text(n / 100);
            assert(decimal_text(n / 10) == decimal_text(n / 10 / 10).push(digit_char(n / 10 % 10)));
        }
    }
}

/// The value of a prefix of a digit run is at most the value of the run.
pub proof fn lemma_decimal_prefix(s: Seq<char>, k: int)
    requires
        0 <= k <= s.len(),
    ensures
        decimal_value(s.subrange(0, k)) <= decimal_value(s),
    decreases s.len() - k,
{
    if k == s.len() {
        assert(s.subrange(0, k) =~= s);
    } else {
        lemma_decimal_prefix(s.drop_last(), k);
        assert(s.drop_last().subrange(0, k) =~= s.subrange(0, k));
    }
}

/// The number that the digits of `v` write, where it is at most `limit`.
pub fn parse_decimal(v: &Vec<char>, limit: u64) -> (r: Option<u64>)
    requires
        all_digits(v@),
        limit >= 9,
    ensures
        r == (if decimal_value(v@) <= limit {
            Some(decimal_value(v@) as u64)
        } else {
            None
        }),
{
    let mut acc: u64 = 0;
    let mut i: usize = 0;
    assert(v@.subrange(0, 0) =~= Seq::<char>::empty());
    while i < v.len()
        invariant
            i <= v@.len(),
            all_digits(v@),
            limit >= 9,
            acc == decimal_value(v@.subrange(0, i as int)),
            acc <= limit,
        decreases v@.len() - i,
    {
        let c: char = v[i];
        assert(is_digit(v@[i as int]));
        let d: u64 = (c as u32 - '0' as u32) as u64;
        assert(d == digit_value(c));
        proof {
            assert(v@.subrange(0, i + 1).drop_last() =~= v@.subrange(0, i as int));
            assert(v@.subrange(0, i + 1).last() == c);
            lemma_decimal_prefix(v@, i + 1);
        }
        if acc > (limit - d) / 10 {
            return None;
        }
        acc = acc * 10 + d;
        i += 1;
    }
    assert(v@.subrange(0, v@.len() as int) =~= v@);
    Some(acc)
}

/// The decimal digits of `n`.
pub fn decimal_chars(n: u64) -> (r: Vec<char>)
    ensures
        r@ == decimal_text(n as nat),
    decreases n,
{
    let d: u64 = n % 10;
    let c: char = if d == 0 {
        '0'
    } else if d == 1 {
        '1'
    } else if d == 2 {
        '2'
    } else if d == 3 {
        '3'
    } else if d == 4 {
        '4'
    } else if d == 5 {
        '5'
    } else if d == 6 {
        '6'
    } else if d == 7 {
        '7'
    } else if d == 8 {
        '8'
    } else {
        '9'
    };
    if n < 10 {
        let mut r: Vec<char> = Vec::new();
        r.push(c);
        assert(r@ =~= seq![digit_char(n as nat)]);
        r
    } else {
        let mut r: Vec<char> = decimal_chars(n / 10);
        r.push(c);
        r
    }
}


/// A pattern that stands somewhere in a text occurs in it.
pub proof fn lemma_occurrence_found(s: Seq<char>, pat: Seq<char>, i: int)
    requires
        pat.len() > 0,
        occurs_at(s, pat, i),
    ensures
        occurs(s, pat),
{
    lemma_occurrence_from(s, pat, 0, i);
}

/// A pattern that stands in a text at or after `from` is found from there.
pub proof fn lemma_occurrence_from(s: Seq<char>, pat: Seq<char>, from: int, i: int)
    requires
        pat.len() > 0,
        0 <= from <= i,
        occurs_at(s, pat, i),
    ensures
        first_occurrence(s, pat, from) is Some,
    decreases i - from,
{
    if from < i && !occurs_at(s, pat, from) {
        lemma_occurrence_from(s, pat, from + 1, i);
    }
}

/// A pattern whose first two characters nowhere follow each other in a
/// text does not occur in it.
pub proof fn lemma_no_occurrence(s: Seq<char>, pat: Seq<char>, from: int)
    requires
        pat.len() >= 2,
        0 <= from,
        forall|i: int| 0 <= i < s.len() - 1 ==> !(#[trigger] s[i] == pat[0] && s[i + 1] == pat[1]),
    ensures
        first_occurrence(s, pat, from) is None,
    decreases s.len() - from,
{
    if from + pat.len() <= s.len() {
        assert(s.subrange(from, from + pat.len())[0] == s[from]);
        assert(s.subrange(from, from + pat.len())[1] == s[from + 1]);
        lemma_no_occurrence(s, pat, from + 1);
    }
}


/// Nowhere in `s` does `b` follow `a`.
pub open spec fn lacks_pair(s: Seq<char>, a: char, b: char) -> bool {
    forall|i: int| 0 <= i < s.len() - 1 ==> !(#[trigger] s[i] == a && s[i + 1] == b)
}

/// No character of `s` is a digit.
pub open spec fn lacks_digits(s: Seq<char>) -> bool {
    forall|i: int| 0 <= i < s.len() ==> !is_digit(#[trigger] s[i])
}

/// Two texts that lack a pair lack it when joined, unless it forms where
/// they meet.
pub proof fn lemma_lacks_pair_joined(x: Seq<char>, y: Seq<char>, a: char, b: char)
    requires
        lacks_pair(x, a, b),
        lacks_pair(y, a, b),
        x.len() == 0 || y.len() == 0 || !(x.last() == a && y[0] == b),
    ensures
        lacks_pair(x + y, a, b),
{
    let s = x + y;
    assert forall|i: int| 0 <= i < s.len() - 1 implies !(#[trigger] s[i] == a && s[i + 1] == b) by {
        if i + 1 < x.len() {
            assert(!(x[i] == a && x[i + 1] == b));
        } else if i >= x.len() {
            assert(!(y[i - x.len()] == a && y[i - x.len() + 1] == b));
        }
    }
}

/// Taking out a pattern changes nothing in a text in which the pattern's
/// first two characters nowhere follow each other.
pub proof fn lemma_without_absent(s: Seq<char>, pat: Seq<char>, i: int)
    requires
        pat.len() >= 2,
        lacks_pair(s, pat[0], pat[1]),
        0 <= i <= s.len(),
    ensures
        without_from(s, pat, i) == s.subrange(i, s.len() as int),
    decreases s.len() - i,
{
    if i < s.len() {
        if i + pat.len() <= s.len() {
            assert(s.subrange(i, i + pat.len())[0] == s[i]);
            assert(s.subrange(i, i + pat.len())[1] == s[i + 1]);
        }
        lemma_without_absent(s, pat, i + 1);
        assert(seq![s[i]] + s.subrange(i + 1, s.len() as int) =~= s.subrange(i, s.len() as int));
    } else {
        assert(s.subrange(i, s.len() as int) =~= Seq::<char>::empty());
    }
}

/// A keyword does not stand where one of its letters is not matched.
pub proof fn lemma_keyword_mismatch(s: Seq<char>, kw: Seq<char>, i: int, k: int)
    requires
        0 <= i,
        0 <= k < kw.len(),
        i + k < s.len() ==> !same_letter(s[i + k], kw[k]),
    ensures
        !keyword_at(s, kw, i),
{
    if i + kw.len() <= s.len() {
        assert(s.subrange(i, i + kw.len())[k] == s[i + k]);
    }
}

/// A keyword stands where each of its letters is matched.
pub proof fn lemma_keyword_match(s: Seq<char>, kw: Seq<char>, i: int)
    requires
        0 <= i,
        i + kw.len() <= s.len(),
        forall|k: int| 0 <= k < kw.len() ==> same_letter(#[trigger] s[i + k], kw[k]),
    ensures
        keyword_at(s, kw, i),
{
    let part = s.subrange(i, i + kw.len());
    assert forall|k: int| 0 <= k < kw.len() implies same_letter(#[trigger] part[k], kw[k]) by {
        assert(part[k] == s[i + k]);
    }
}

} // verus!
