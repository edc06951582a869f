//! Work on text, character by character: white space, trimming, splitting,
//! case, decimal numbers and the order of strings.
//!
//! Strings are modelled as `Seq<char>`. The executable functions work on
//! character vectors, so that every scan is a plain indexed loop.

use vstd::prelude::*;
use vstd::string::StringExecFns;
use vstd::utf8::{decode_utf8, valid_utf8};

verus! {

/// The character sequences that a sequence of strings holds.
pub open spec fn strings_view(v: Seq<String>) -> Seq<Seq<char>> {
    Seq::new(v.len(), |i: int| v[i]@)
}

/// The character sequences that a sequence of string slices holds.
pub open spec fn strs_view(v: Seq<&str>) -> Seq<Seq<char>> {
    Seq::new(v.len(), |i: int| v[i]@)
}

/// `parts` with `separator` between each two neighbours.
pub open spec fn joined(parts: Seq<Seq<char>>, separator: Seq<char>) -> Seq<char>
    decreases parts.len(),
{
    if parts.len() == 0 {
        Seq::empty()
    } else if parts.len() == 1 {
        parts[0]
    } else {
        joined(parts.drop_last(), separator) + separator + parts.last()
    }
}

/// A list as it is printed: the parts between square brackets, separated by
/// a comma and a space.
pub open spec fn bracketed(parts: Seq<Seq<char>>) -> Seq<char> {
    seq!['['] + joined(parts, seq![',', ' ']) + seq![']']
}

/// Whether `parts` holds, for each of `values` in order, a text that its
/// `Display` implementation gives.
pub open spec fn displayed<T: core::fmt::Display>(values: Seq<T>, parts: Seq<String>) -> bool {
    &&& parts.len() == values.len()
    &&& forall|i: int|
        0 <= i < values.len() ==> vstd::string::to_string_from_display_ensures::<T>(
            &#[trigger] values[i],
            parts[i],
        )
}

/// The order of strings: by the first character in which they differ, and a
/// string before each of its extensions.
pub open spec fn lex_le(a: Seq<char>, b: Seq<char>) -> bool
    decreases a.len(),
{
    if a.len() == 0 {
        true
    } else if b.len() == 0 {
        false
    } else if a[0] != b[0] {
        a[0] < b[0]
    } else {
        lex_le(a.drop_first(), b.drop_first())
    }
}

/// Whether each of `s` is at most the one behind it.
pub open spec fn sorted_strings(s: Seq<Seq<char>>) -> bool {
    forall|i: int, j: int| 0 <= i <= j < s.len() ==> lex_le(#[trigger] s[i], #[trigger] s[j])
}

/// Of two strings one is at most the other.
pub proof fn lemma_lex_le_total(a: Seq<char>, b: Seq<char>)
    ensures
        lex_le(a, b) || lex_le(b, a),
    decreases a.len(),
{
    if a.len() > 0 && b.len() > 0 && a[0] == b[0] {
        lemma_lex_le_total(a.drop_first(), b.drop_first());
    }
}

/// The order of strings is transitive.
pub proof fn lemma_lex_le_transitive(a: Seq<char>, b: Seq<char>, c: Seq<char>)
    requires
        lex_le(a, b),
        lex_le(b, c),
    ensures
        lex_le(a, c),
    decreases a.len(),
{
    if a.len() > 0 && b.len() > 0 && c.len() > 0 && a[0] == b[0] && b[0] == c[0] {
        lemma_lex_le_transitive(a.drop_first(), b.drop_first(), c.drop_first());
    }
}

/// Every string is at most itself.
pub proof fn lemma_lex_le_reflexive(a: Seq<char>)
    ensures
        lex_le(a, a),
    decreases a.len(),
{
    if a.len() > 0 {
        lemma_lex_le_reflexive(a.drop_first());
    }
}

/// White space as `char::is_whitespace` defines it: the code points with the
/// Unicode property `White_Space`.
pub open spec fn is_whitespace(c: char) -> bool {
    let n = c as u32;
    (0x09 <= n <= 0x0D) || n == 0x20 || n == 0x85 || n == 0xA0 || n == 0x1680 || (0x2000 <= n
        <= 0x200A) || n == 0x2028 || n == 0x2029 || n == 0x202F || n == 0x205F || n == 0x3000
}

/// White space as `u8::is_ascii_whitespace` defines it: space, tab, line
/// feed, form feed and carriage return.
pub open spec fn is_ascii_whitespace(c: char) -> bool {
    c == ' ' || c == '\t' || c == '\n' || c == '\x0C' || c == '\r'
}

/// The lower-case form of an ASCII capital; every other character is left alone.
pub open spec fn ascii_lower_char(c: char) -> char {
    if 'A' <= c <= 'Z' {
        ((c as u8) + 32) as char
    } else {
        c
    }
}

/// `s` with each ASCII capital replaced by its lower-case form.
pub open spec fn ascii_lower(s: Seq<char>) -> Seq<char> {
    Seq::new(s.len(), |i: int| ascii_lower_char(s[i]))
}

/// Whether two strings differ at most in the case of ASCII letters.
pub open spec fn eq_ignore_ascii_case(a: Seq<char>, b: Seq<char>) -> bool {
    ascii_lower(a) == ascii_lower(b)
}

/// The first index at or after `from` whose character is not white space,
/// or the length of `s` when there is none.
pub open spec fn skip_whitespace(s: Seq<char>, from: int) -> int
    decreases s.len() - from,
{
    if 0 <= from < s.len() && is_whitespace(s[from]) {
        skip_whitespace(s, from + 1)
    } else {
        from
    }
}

/// The index behind the last character of `s[start..upto]` that is not
/// white space, or `start` when there is none.
pub open spec fn skip_whitespace_back(s: Seq<char>, start: int, upto: int) -> int
    decreases upto - start,
{
    if start < upto <= s.len() && is_whitespace(s[upto - 1]) {
        skip_whitespace_back(s, start, upto - 1)
    } else {
        upto
    }
}

/// The first index at or after `from` at which `s` holds `c`, or the length
/// of `s` when there is none.
pub open spec fn index_of_char(s: Seq<char>, c: char, from: int) -> int
    decreases s.len() - from,
{
    if 0 <= from < s.len() && s[from] != c {
        index_of_char(s, c, from + 1)
    } else {
        from
    }
}

/// The pieces of `s` between the occurrences of `sep`, as `str::split`
/// yields them: one more piece than there are separators.
pub open spec fn split_on(s: Seq<char>, sep: char) -> Seq<Seq<char>>
    decreases s.len(),
{
    let i = index_of_char(s, sep, 0);
    if 0 <= i < s.len() {
        seq![s.take(i)] + split_on(s.skip(i + 1), sep)
    } else {
        seq![s]
    }
}

/// The two parts of `s` around its first `sep`, as `str::split_once` yields them.
pub open spec fn split_once(s: Seq<char>, sep: char) -> Option<(Seq<char>, Seq<char>)> {
    let i = index_of_char(s, sep, 0);
    if 0 <= i < s.len() {
        Some((s.take(i), s.skip(i + 1)))
    } else {
        None
    }
}

/// The first index at or after `from` whose character is not ASCII white
/// space, or the length of `s` when there is none.
pub open spec fn skip_ascii_whitespace(s: Seq<char>, from: int) -> int
    decreases s.len() - from,
{
    if 0 <= from < s.len() && is_ascii_whitespace(s[from]) {
        skip_ascii_whitespace(s, from + 1)
    } else {
        from
    }
}

/// The first index at or after `from` whose character is ASCII white space,
/// or the length of `s` when there is none.
pub open spec fn token_end(s: Seq<char>, from: int) -> int
    decreases s.len() - from,
{
    if 0 <= from < s.len() && !is_ascii_whitespace(s[from]) {
        token_end(s, from + 1)
    } else {
        from
    }
}

/// The maximal runs of characters other than ASCII white space that begin
/// at or after `from`, in order.
pub open spec fn tokens_from(s: Seq<char>, from: int) -> Seq<Seq<char>>
    decreases s.len() - from,
{
    let start = skip_ascii_whitespace(s, from);
    if 0 <= from <= start < s.len() {
        let end = token_end(s, start);
        proof {
            lemma_skip_ascii_whitespace(s, from);
            lemma_token_end(s, start + 1);
        }
        seq![s.subrange(start, end)] + tokens_from(s, end)
    } else {
        Seq::empty()
    }
}

/// The first index at or after `from` whose character is white space, or
/// the length of `s` when there is none.
pub open spec fn word_end(s: Seq<char>, from: int) -> int
    decreases s.len() - from,
{
    if 0 <= from < s.len() && !is_whitespace(s[from]) {
        word_end(s, from + 1)
    } else {
        from
    }
}

/// The maximal runs of characters other than white space that begin at or
/// after `from`, in order.
pub open spec fn words_from(s: Seq<char>, from: int) -> Seq<Seq<char>>
    decreases s.len() - from,
{
    let start = skip_whitespace(s, from);
    if 0 <= from <= start < s.len() {
        let end = word_end(s, start);
        proof {
            lemma_skip_whitespace(s, from);
            lemma_word_end(s, start + 1);
        }
        seq![s.subrange(start, end)] + words_from(s, end)
    } else {
        Seq::empty()
    }
}

/// The words of `s` as `str::split_whitespace` yields them.
pub open spec fn split_whitespace(s: Seq<char>) -> Seq<Seq<char>> {
    words_from(s, 0)
}

/// The tokens of `s` as `str::split_ascii_whitespace` yields them.
pub open spec fn split_ascii_whitespace(s: Seq<char>) -> Seq<Seq<char>> {
    tokens_from(s, 0)
}

/// Whether `c` is one of the ten decimal digits.
pub open spec fn is_digit(c: char) -> bool {
    '0' <= c <= '9'
}

/// The number that a decimal digit stands for.
pub open spec fn digit_value(c: char) -> nat {
    (c as u32 - 48) as nat
}

/// The decimal digit for a number below ten.
pub open spec fn digit_char(d: nat) -> char {
    ((48 + d) as u8) as char
}

/// Whether `s` consists of decimal digits only.
pub open spec fn all_digits(s: Seq<char>) -> bool {
    forall|i: int| 0 <= i < s.len() ==> is_digit(#[trigger] s[i])
}

/// The number that a sequence of decimal digits denotes.
pub open spec fn digits_value(s: Seq<char>) -> nat
    decreases s.len(),
{
    if s.len() == 0 {
        0
    } else {
        digits_value(s.drop_last()) * 10 + digit_value(s.last())
    }
}

/// The number that `s` denotes as `usize::from_str` reads it: an optional
/// plus sign, then one decimal digit or more, and nothing else.
pub open spec fn parse_decimal(s: Seq<char>) -> Option<nat> {
    let digits = if s.len() > 0 && s[0] == '+' {
        s.drop_first()
    } else {
        s
    };
    if digits.len() > 0 && all_digits(digits) {
        Some(digits_value(digits))
    } else {
        None
    }
}

/// The decimal notation of `n`, without leading zeros.
pub open spec fn decimal_string(n: nat) -> Seq<char>
    decreases n,
{
    if n < 10 {
        seq![digit_char(n)]
    } else {
        decimal_string(n / 10).push(digit_char(n % 10))
    }
}

/// `s` without its leading and trailing white space.
pub open spec fn trim(s: Seq<char>) -> Seq<char> {
    let start = skip_whitespace(s, 0);
    let end = skip_whitespace_back(s, start, s.len() as int);
    s.subrange(start, end)
}

/// Trimming a trimmed string changes nothing.
pub proof fn lemma_trim_idempotent(s: Seq<char>)
    ensures
        trim(trim(s)) == trim(s),
{
    let start = skip_whitespace(s, 0);
    let end = skip_whitespace_back(s, start, s.len() as int);
    lemma_skip_whitespace(s, 0);
    lemma_skip_whitespace_back(s, start, s.len() as int);
    let t = s.subrange(start, end);
    if t.len() == 0 {
        assert(trim(t) =~= t);
    } else {
        assert(t[0] == s[start]);
        assert(t[t.len() - 1] == s[end - 1]);
        assert(skip_whitespace(t, 0) == 0);
        assert(skip_whitespace_back(t, 0, t.len() as int) == t.len());
        assert(trim(t) =~= t);
    }
}

/// Where the forward scan stops: behind white space only, and not on white space.
pub proof fn lemma_skip_whitespace(s: Seq<char>, from: int)
    requires
        0 <= from <= s.len(),
    ensures
        from <= skip_whitespace(s, from) <= s.len(),
        forall|k: int| from <= k < skip_whitespace(s, from) ==> is_whitespace(#[trigger] s[k]),
        skip_whitespace(s, from) < s.len() ==> !is_whitespace(s[skip_whitespace(s, from)]),
    decreases s.len() - from,
{
    if from < s.len() && is_whitespace(s[from]) {
        lemma_skip_whitespace(s, from + 1);
    }
}

/// Where the backward scan stops: before white space only, and not behind white space.
pub proof fn lemma_skip_whitespace_back(s: Seq<char>, start: int, upto: int)
    requires
        0 <= start <= upto <= s.len(),
    ensures
        start <= skip_whitespace_back(s, start, upto) <= upto,
        forall|k: int|
            skip_whitespace_back(s, start, upto) <= k < upto ==> is_whitespace(#[trigger] s[k]),
        start < skip_whitespace_back(s, start, upto) ==> !is_whitespace(
            s[skip_whitespace_back(s, start, upto) - 1],
        ),
    decreases upto - start,
{
    if start < upto && is_whitespace(s[upto - 1]) {
        lemma_skip_whitespace_back(s, start, upto - 1);
    }
}

pub fn char_is_whitespace(c: char) -> (b: bool)
    ensures
        b == is_whitespace(c),
{
    let n: u32 = c as u32;
    (0x09 <= n && n <= 0x0D) || n == 0x20 || n == 0x85 || n == 0xA0 || n == 0x1680 || (0x2000
        <= n && n <= 0x200A) || n == 0x2028 || n == 0x2029 || n == 0x202F || n == 0x205F || n
        == 0x3000
}

pub fn char_is_ascii_whitespace(c: char) -> (b: bool)
    ensures
        b == is_ascii_whitespace(c),
{
    c == ' ' || c == '\t' || c == '\n' || c == '\x0C' || c == '\r'
}

pub fn char_to_ascii_lower(c: char) -> (r: char)
    ensures
        r == ascii_lower_char(c),
{
    if 'A' <= c && c <= 'Z' {
        ((c as u8) + 32) as char
    } else {
        c
    }
}

/// Collects the characters of `s` into a vector.
pub fn str_to_chars(s: &str) -> (v: Vec<char>)
    ensures
        v@ == s@,
{
    let mut v: Vec<char> = Vec::new();
    for c in it: s.chars()
        invariant
            v@ == it.seq().take(it.index() as int),
            it.seq() == s@,
    {
        v.push(c);
    }
    v
}

/// Whether `a` is at most `b` in the order of strings.
pub fn str_le(a: &str, b: &str) -> (r: bool)
    ensures
        r == lex_le(a@, b@),
{
    let x = str_to_chars(a);
    let y = str_to_chars(b);
    let mut i: usize = 0;
    proof {
        assert(x@.skip(0) =~= x@);
        assert(y@.skip(0) =~= y@);
    }
    while i < x.len() && i < y.len()
        invariant
            i <= x@.len(),
            i <= y@.len(),
            x@ == a@,
            y@ == b@,
            lex_le(a@, b@) == lex_le(x@.skip(i as int), y@.skip(i as int)),
        decreases x@.len() - i,
    {
        if x[i] != y[i] {
            return x[i] < y[i];
        }
        proof {
            assert(x@.skip(i as int).drop_first() =~= x@.skip(i + 1));
            assert(y@.skip(i as int).drop_first() =~= y@.skip(i + 1));
        }
        i += 1;
    }
    i >= x.len()
}

/// The strings of `v` in rising order.
pub fn sorted_copy(v: &Vec<String>) -> (sorted: Vec<String>)
    ensures
        sorted_strings(strings_view(sorted@)),
        strings_view(sorted@).to_multiset() == strings_view(v@).to_multiset(),
{
    let mut sorted: Vec<String> = Vec::new();
    let ghost all = strings_view(v@);
    let mut i: usize = 0;
    proof {
        assert(all.take(0) =~= Seq::<Seq<char>>::empty());
        assert(strings_view(sorted@) =~= Seq::<Seq<char>>::empty());
    }
    while i < v.len()
        invariant
            i <= v@.len(),
            all == strings_view(v@),
            sorted_strings(strings_view(sorted@)),
            strings_view(sorted@).to_multiset() == all.take(i as int).to_multiset(),
        decreases v@.len() - i,
    {
        let item = v[i].clone();
        let mut at: usize = 0;
        while at < sorted.len() && str_le(sorted[at].as_str(), item.as_str())
            invariant
                at <= sorted@.len(),
                forall|k: int| 0 <= k < at ==> lex_le(#[trigger] sorted@[k]@, item@),
            decreases sorted@.len() - at,
        {
            at += 1;
        }
        let ghost before = strings_view(sorted@);
        assert forall|k: int| 0 <= k < at implies lex_le(#[trigger] before[k], item@) by {
            assert(before[k] == sorted@[k]@);
        }
        sorted.insert(at, item);
        proof {
            let after = strings_view(sorted@);
            assert(after =~= before.insert(at as int, item@));
            assert forall|a: int, b: int| 0 <= a <= b < after.len() implies lex_le(
                #[trigger] after[a],
                #[trigger] after[b],
            ) by {
                if a == b {
                    lemma_lex_le_reflexive(after[a]);
                } else if b == at {
                    assert(after[a] == before[a]);
                } else if a == at {
                    assert(after[b] == before[b - 1]);
                    assert(at < before.len());
                    lemma_lex_le_total(before[at as int], item@);
                    assert(lex_le(before[at as int], before[b - 1]));
                    lemma_lex_le_transitive(item@, before[at as int], before[b - 1]);
                } else if b < at {
                    assert(after[a] == before[a] && after[b] == before[b]);
                } else if a > at {
                    assert(after[a] == before[a - 1] && after[b] == before[b - 1]);
                } else {
                    assert(after[a] == before[a] && after[b] == before[b - 1]);
                }
            }
            vstd::seq_lib::to_multiset_insert(before, at as int, item@);
            assert(all.take(i + 1) =~= all.take(i as int).push(item@));
            vstd::seq_lib::to_multiset_build(all.take(i as int), item@);
        }
        i += 1;
    }
    proof {
        assert(all.take(i as int) =~= all);
    }
    sorted
}

/// Whether two strings hold the same characters.
pub fn str_eq(a: &str, b: &str) -> (r: bool)
    ensures
        r == (a@ == b@),
{
    let x = str_to_chars(a);
    let y = str_to_chars(b);
    if x.len() != y.len() {
        return false;
    }
    let mut i: usize = 0;
    while i < x.len()
        invariant
            i <= x@.len(),
            x@ == a@,
            y@ == b@,
            x@.len() == y@.len(),
            forall|k: int| 0 <= k < i ==> x@[k] == y@[k],
        decreases x@.len() - i,
    {
        if x[i] != y[i] {
            return false;
        }
        i += 1;
    }
    proof {
        assert(x@ =~= y@);
    }
    true
}

/// `String::push`: appends one character to the end of the string.
#[verifier::external_body]
pub(crate) fn string_push(s: &mut String, c: char)
    ensures
        final(s)@ == old(s)@.push(c),
{
    s.push(c)
}

/// Builds the string that holds the characters `v[start..end]`.
pub fn chars_to_string(v: &[char], start: usize, end: usize) -> (s: String)
    requires
        start <= end <= v@.len(),
    ensures
        s@ == v@.subrange(start as int, end as int),
{
    let mut s = String::new();
    let mut i: usize = start;
    while i < end
        invariant
            start <= i <= end <= v@.len(),
            s@ == v@.subrange(start as int, i as int),
        decreases end - i,
    {
        string_push(&mut s, v[i]);
        i += 1;
    }
    s
}

/// What `str::to_lowercase` returns for a string.
pub uninterp spec fn unicode_lowercase(s: Seq<char>) -> Seq<char>;

/// `str::to_lowercase`: the lower-case equivalent of the string, by the
/// Unicode property `Lowercase`. The result depends on the characters alone.
#[verifier::external_body]
pub(crate) fn to_lowercase(s: &str) -> (r: String)
    ensures
        r@ == unicode_lowercase(s@),
{
    s.to_lowercase()
}

/// `s` with each ASCII capital replaced by its lower-case form, as a new string.
pub fn ascii_lowered(s: &str) -> (r: String)
    ensures
        r@ == ascii_lower(s@),
{
    let v = str_to_chars(s);
    let mut r = String::new();
    let mut i: usize = 0;
    while i < v.len()
        invariant
            i <= v@.len(),
            v@ == s@,
            r@ == ascii_lower(s@).take(i as int),
        decreases v@.len() - i,
    {
        string_push(&mut r, char_to_ascii_lower(v[i]));
        i += 1;
        proof {
            assert(r@ =~= ascii_lower(s@).take(i as int));
        }
    }
    proof {
        assert(ascii_lower(s@).take(i as int) =~= ascii_lower(s@));
    }
    r
}

/// Where the scan over ASCII white space stops.
pub proof fn lemma_skip_ascii_whitespace(s: Seq<char>, from: int)
    requires
        0 <= from <= s.len(),
    ensures
        from <= skip_ascii_whitespace(s, from) <= s.len(),
        forall|k: int|
            from <= k < skip_ascii_whitespace(s, from) ==> is_ascii_whitespace(#[trigger] s[k]),
        skip_ascii_whitespace(s, from) < s.len() ==> !is_ascii_whitespace(
            s[skip_ascii_whitespace(s, from)],
        ),
    decreases s.len() - from,
{
    if from < s.len() && is_ascii_whitespace(s[from]) {
        lemma_skip_ascii_whitespace(s, from + 1);
    }
}

/// Where the scan over a word stops.
pub proof fn lemma_word_end(s: Seq<char>, from: int)
    requires
        0 <= from <= s.len(),
    ensures
        from <= word_end(s, from) <= s.len(),
        forall|k: int| from <= k < word_end(s, from) ==> !is_whitespace(#[trigger] s[k]),
        word_end(s, from) < s.len() ==> is_whitespace(s[word_end(s, from)]),
    decreases s.len() - from,
{
    if from < s.len() && !is_whitespace(s[from]) {
        lemma_word_end(s, from + 1);
    }
}

/// Where the scan over a token stops.
pub proof fn lemma_token_end(s: Seq<char>, from: int)
    requires
        0 <= from <= s.len(),
    ensures
        from <= token_end(s, from) <= s.len(),
        forall|k: int| from <= k < token_end(s, from) ==> !is_ascii_whitespace(#[trigger] s[k]),
        token_end(s, from) < s.len() ==> is_ascii_whitespace(s[token_end(s, from)]),
    decreases s.len() - from,
{
    if from < s.len() && !is_ascii_whitespace(s[from]) {
        lemma_token_end(s, from + 1);
    }
}

/// A sequence of digits denotes at least what any of its prefixes denotes.
pub proof fn lemma_digits_value_prefix(s: Seq<char>, k: int)
    requires
        0 <= k <= s.len(),
    ensures
        digits_value(s.take(k)) <= digits_value(s),
    decreases s.len(),
{
    if k == s.len() {
        assert(s.take(k) =~= s);
    } else {
        lemma_digits_value_prefix(s.drop_last(), k);
        assert(s.drop_last().take(k) =~= s.take(k));
    }
}

/// The decimal notation of a number consists of digits, and reading it
/// gives the number back.
pub proof fn lemma_decimal_string(n: nat)
    ensures
        decimal_string(n).len() > 0,
        all_digits(decimal_string(n)),
        digits_value(decimal_string(n)) == n,
        parse_decimal(decimal_string(n)) == Some(n),
    decreases n,
{
    let s = decimal_string(n);
    if n < 10 {
        assert(s.drop_last() =~= Seq::<char>::empty());
        assert(digits_value(s.drop_last()) == 0);
        assert(digit_value(digit_char(n)) == n);
    } else {
        lemma_decimal_string(n / 10);
        assert(s.drop_last() =~= decimal_string(n / 10));
        assert(digit_value(digit_char(n % 10)) == n % 10);
        assert forall|i: int| 0 <= i < s.len() implies is_digit(#[trigger] s[i]) by {
            if i < s.len() - 1 {
                assert(s[i] == decimal_string(n / 10)[i]);
            }
        }
    }
    assert(s[0] != '+');
}

/// The forward scan stops at `i` where all from `from` to `i` is white
/// space and `i` is the end or holds none.
pub proof fn lemma_skip_whitespace_is(s: Seq<char>, from: int, i: int)
    requires
        0 <= from <= i <= s.len(),
        forall|k: int| from <= k < i ==> is_whitespace(#[trigger] s[k]),
        i == s.len() || !is_whitespace(s[i]),
    ensures
        skip_whitespace(s, from) == i,
    decreases i - from,
{
    if from < i {
        assert(is_whitespace(s[from]));
        lemma_skip_whitespace_is(s, from + 1, i);
    }
}

/// The backward scan stops at `j` where all from `j` to `upto` is white
/// space and `j` is the start or follows none.
pub proof fn lemma_skip_whitespace_back_is(s: Seq<char>, start: int, upto: int, j: int)
    requires
        0 <= start <= j <= upto <= s.len(),
        forall|k: int| j <= k < upto ==> is_whitespace(#[trigger] s[k]),
        j == start || !is_whitespace(s[j - 1]),
    ensures
        skip_whitespace_back(s, start, upto) == j,
    decreases upto - j,
{
    if j < upto {
        assert(is_whitespace(s[upto - 1]));
        lemma_skip_whitespace_back_is(s, start, upto - 1, j);
    }
}

/// A string is `core` when trimmed where it is `core` between white space
/// and `core` neither begins nor ends with white space.
pub proof fn lemma_trim_is(s: Seq<char>, i: int, j: int)
    requires
        0 <= i <= j <= s.len(),
        forall|k: int| 0 <= k < i ==> is_whitespace(#[trigger] s[k]),
        forall|k: int| j <= k < s.len() ==> is_whitespace(#[trigger] s[k]),
        i < j ==> !is_whitespace(s[i]) && !is_whitespace(s[j - 1]),
        i == j ==> i == s.len(),
    ensures
        trim(s) == s.subrange(i, j),
{
    lemma_skip_whitespace_is(s, 0, i);
    lemma_skip_whitespace_back_is(s, i, s.len() as int, j);
}

/// A trimmed string that is not empty neither begins nor ends with white space.
pub proof fn lemma_trimmed_ends(s: Seq<char>)
    requires
        trim(s) == s,
        s.len() > 0,
    ensures
        !is_whitespace(s[0]),
        !is_whitespace(s[s.len() - 1]),
{
    let start = skip_whitespace(s, 0);
    let end = skip_whitespace_back(s, start, s.len() as int);
    assert(0 <= start <= end <= s.len() && (start < s.len() ==> !is_whitespace(s[start])) && (
    start < end ==> !is_whitespace(s[end - 1]))) by {
        lemma_skip_whitespace(s, 0);
        lemma_skip_whitespace_back(s, start, s.len() as int);
    }
    assert(s.subrange(start, end).len() == end - start);
    assert(start == 0 && end == s.len());
}

/// The scan for `c` stops at `i` where `i` is the first place that holds `c`.
pub proof fn lemma_index_of_char_is(s: Seq<char>, c: char, from: int, i: int)
    requires
        0 <= from <= i <= s.len(),
        forall|k: int| from <= k < i ==> #[trigger] s[k] != c,
        i == s.len() || s[i] == c,
    ensures
        index_of_char(s, c, from) == i,
    decreases i - from,
{
    if from < i {
        assert(s[from] != c);
        lemma_index_of_char_is(s, c, from + 1, i);
    }
}

/// Scanning a part of a string is scanning the string from where the part begins.
pub proof fn lemma_index_of_char_skip(s: Seq<char>, c: char, start: int, from: int)
    requires
        0 <= start <= from <= s.len(),
    ensures
        index_of_char(s.skip(start), c, from - start) == index_of_char(s, c, from) - start,
    decreases s.len() - from,
{
    if from < s.len() && s[from] != c {
        lemma_index_of_char_skip(s, c, start, from + 1);
    }
}

/// The first index at or after `from` at which `v` holds `c`, or its length.
pub fn find_char(v: &[char], c: char, from: usize) -> (i: usize)
    requires
        from <= v@.len(),
    ensures
        i == index_of_char(v@, c, from as int),
        from <= i <= v@.len(),
{
    let mut i: usize = from;
    while i < v.len() && v[i] != c
        invariant
            from <= i <= v@.len(),
            index_of_char(v@, c, from as int) == index_of_char(v@, c, i as int),
        decreases v@.len() - i,
    {
        i += 1;
    }
    i
}

/// `parts` with `separator` between each two neighbours.
pub fn join(parts: &Vec<String>, separator: &str) -> (s: String)
    ensures
        s@ == joined(strings_view(parts@), separator@),
{
    let mut s = String::new();
    let ghost all = strings_view(parts@);
    let mut i: usize = 0;
    while i < parts.len()
        invariant
            i <= parts@.len(),
            all == strings_view(parts@),
            s@ == joined(all.take(i as int), separator@),
        decreases parts@.len() - i,
    {
        if i > 0 {
            s.append(separator);
        }
        s.append(parts[i].as_str());
        i += 1;
        proof {
            assert(all.take(i as int).drop_last() =~= all.take(i - 1));
            assert(all.take(i as int).last() == parts@[i - 1]@);
        }
    }
    proof {
        assert(all.take(i as int) =~= all);
    }
    s
}

/// Prints a list between square brackets.
pub fn bracket_join(parts: &Vec<String>) -> (s: String)
    ensures
        s@ == bracketed(strings_view(parts@)),
{
    proof {
        reveal_strlit("[");
        reveal_strlit("]");
        reveal_strlit(", ");
        assert("["@ =~= seq!['[']);
        assert("]"@ =~= seq![']']);
        assert(", "@ =~= seq![',', ' ']);
    }
    let mut s = "[".to_owned();
    s.append(join(parts, ", ").as_str());
    s.append("]");
    s
}

/// The words of `s` between runs of white space.
pub fn words(s: &str) -> (words: Vec<String>)
    ensures
        strings_view(words@) == split_whitespace(s@),
{
    let chars = str_to_chars(s);
    let v = chars.as_slice();
    let mut words: Vec<String> = Vec::new();
    let ghost done: Seq<Seq<char>> = Seq::empty();
    let mut pos: usize = 0;
    proof {
        assert(done + words_from(v@, 0) =~= words_from(v@, 0));
        assert(strings_view(words@) =~= done);
    }
    loop
        invariant_except_break
            pos <= v@.len(),
            words_from(v@, 0) == done + words_from(v@, pos as int),
        invariant
            v@ == s@,
            strings_view(words@) == done,
        ensures
            words_from(v@, 0) == done,
        decreases v@.len() - pos,
    {
        let mut start: usize = pos;
        while start < v.len() && char_is_whitespace(v[start])
            invariant
                pos <= start <= v@.len(),
                skip_whitespace(v@, pos as int) == skip_whitespace(v@, start as int),
            decreases v@.len() - start,
        {
            start += 1;
        }
        if start >= v.len() {
            proof {
                assert(done + words_from(v@, pos as int) =~= done);
            }
            break;
        }
        let mut end: usize = start;
        while end < v.len() && !char_is_whitespace(v[end])
            invariant
                start <= end <= v@.len(),
                word_end(v@, start as int) == word_end(v@, end as int),
            decreases v@.len() - end,
        {
            end += 1;
        }
        let word = chars_to_string(v, start, end);
        proof {
            assert(done + words_from(v@, pos as int) =~= done.push(word@) + words_from(
                v@,
                end as int,
            ));
            done = done.push(word@);
        }
        let ghost before = strings_view(words@);
        words.push(word);
        proof {
            assert(strings_view(words@) =~= before.push(word@));
        }
        pos = end;
    }
    words
}

/// The tokens of `s` between runs of ASCII white space.
pub fn ascii_tokens(s: &str) -> (tokens: Vec<String>)
    ensures
        strings_view(tokens@) == split_ascii_whitespace(s@),
{
    let chars = str_to_chars(s);
    let v = chars.as_slice();
    let mut tokens: Vec<String> = Vec::new();
    let ghost done: Seq<Seq<char>> = Seq::empty();
    let mut pos: usize = 0;
    proof {
        assert(done + tokens_from(v@, 0) =~= tokens_from(v@, 0));
        assert(strings_view(tokens@) =~= done);
    }
    loop
        invariant_except_break
            pos <= v@.len(),
            tokens_from(v@, 0) == done + tokens_from(v@, pos as int),
        invariant
            v@ == s@,
            strings_view(tokens@) == done,
        ensures
            tokens_from(v@, 0) == done,
        decreases v@.len() - pos,
    {
        let mut start: usize = pos;
        while start < v.len() && char_is_ascii_whitespace(v[start])
            invariant
                pos <= start <= v@.len(),
                skip_ascii_whitespace(v@, pos as int) == skip_ascii_whitespace(v@, start as int),
            decreases v@.len() - start,
        {
            start += 1;
        }
        if start >= v.len() {
            proof {
                assert(done + tokens_from(v@, pos as int) =~= done);
            }
            break;
        }
        let mut end: usize = start;
        while end < v.len() && !char_is_ascii_whitespace(v[end])
            invariant
                start <= end <= v@.len(),
                token_end(v@, start as int) == token_end(v@, end as int),
            decreases v@.len() - end,
        {
            end += 1;
        }
        let token = chars_to_string(v, start, end);
        proof {
            assert(done + tokens_from(v@, pos as int) =~= done.push(token@) + tokens_from(
                v@,
                end as int,
            ));
            done = done.push(token@);
        }
        let ghost before = strings_view(tokens@);
        tokens.push(token);
        proof {
            assert(strings_view(tokens@) =~= before.push(token@));
        }
        pos = end;
    }
    tokens
}

/// Reads a number as `usize::from_str` does: an optional plus sign, then
/// decimal digits. A number that does not fit is no number.
pub fn parse_usize(s: &str) -> (r: Option<usize>)
    ensures
        r == match parse_decimal(s@) {
            Some(n) if n <= usize::MAX => Some(n as usize),
            _ => None::<usize>,
        },
{
    let chars = str_to_chars(s);
    let v = chars.as_slice();
    let start: usize = if v.len() > 0 && v[0] == '+' {
        1
    } else {
        0
    };
    let ghost digits = v@.skip(start as int);
    proof {
        if start == 1 {
            assert(digits =~= v@.drop_first());
        } else {
            assert(digits =~= v@);
        }
    }
    if start == v.len() {
        return None;
    }
    let mut acc: usize = 0;
    let mut i: usize = start;
    proof {
        assert(digits.take(0) =~= Seq::<char>::empty());
    }
    while i < v.len()
        invariant
            start <= i <= v@.len(),
            v@ == s@,
            digits == v@.skip(start as int),
            digits == if s@.len() > 0 && s@[0] == '+' {
                s@.drop_first()
            } else {
                s@
            },
            all_digits(digits.take(i - start)),
            acc == digits_value(digits.take(i - start)),
        decreases v@.len() - i,
    {
        let c = v[i];
        if !('0' <= c && c <= '9') {
            proof {
                assert(digits[i - start] == c);
            }
            return None;
        }
        let d: usize = (c as u32 - 48) as usize;
        proof {
            let next = digits.take(i - start + 1);
            assert(next.drop_last() =~= digits.take(i - start));
            assert(next.last() == c);
            assert(digits_value(next) == acc * 10 + d);
            lemma_digits_value_prefix(digits, i - start + 1);
            assert forall|k: int| 0 <= k < next.len() implies is_digit(#[trigger] next[k]) by {
                if k < next.len() - 1 {
                    assert(next[k] == digits.take(i - start)[k]);
                }
            }
        }
        let shifted = match acc.checked_mul(10) {
            Some(x) => x,
            None => {
                return None;
            },
        };
        acc = match shifted.checked_add(d) {
            Some(x) => x,
            None => {
                return None;
            },
        };
        i += 1;
    }
    proof {
        assert(digits.take(i - start) =~= digits);
    }
    Some(acc)
}

/// The decimal notation of `n`.
pub fn usize_to_string(n: usize) -> (s: String)
    ensures
        s@ == decimal_string(n as nat),
{
    let mut digits: Vec<char> = Vec::new();
    digits.push(((48 + n % 10) as u8) as char);
    let mut m: usize = n / 10;
    proof {
        assert(digits@.reverse() =~= seq![digit_char((n % 10) as nat)]);
        if m > 0 {
            assert(decimal_string(n as nat) =~= decimal_string(m as nat) + digits@.reverse());
        }
    }
    while m > 0
        invariant
            digits@.len() > 0,
            decimal_string(n as nat) == if m > 0 {
                decimal_string(m as nat) + digits@.reverse()
            } else {
                digits@.reverse()
            },
        decreases m,
    {
        let ghost before = digits@;
        digits.push(((48 + m % 10) as u8) as char);
        proof {
            assert(digits@.reverse() =~= seq![digit_char((m % 10) as nat)] + before.reverse());
            if m / 10 > 0 {
                assert(decimal_string(m as nat) + before.reverse() =~= decimal_string(
                    (m / 10) as nat,
                ) + digits@.reverse());
            } else {
                assert(decimal_string(m as nat) + before.reverse() =~= digits@.reverse());
            }
        }
        m = m / 10;
    }
    let mut s = String::new();
    let mut k: usize = digits.len();
    while k > 0
        invariant
            k <= digits@.len(),
            s@ == digits@.reverse().take(digits@.len() - k),
        decreases k,
    {
        k -= 1;
        string_push(&mut s, digits[k]);
        proof {
            assert(s@ =~= digits@.reverse().take(digits@.len() - k));
        }
    }
    proof {
        assert(digits@.reverse().take(digits@.len() as int) =~= digits@.reverse());
    }
    s
}

/// `String::from_utf8`: the string that the bytes encode, where they are
/// valid UTF-8, and nothing where they are not.
#[verifier::external_body]
pub(crate) fn string_from_utf8(bytes: Vec<u8>) -> (r: Option<String>)
    ensures
        match r {
            Some(s) => valid_utf8(bytes@) && s@ == decode_utf8(bytes@),
            None => !valid_utf8(bytes@),
        },
{
    String::from_utf8(bytes).ok()
}

/// What `String::from_utf8_lossy` returns for a sequence of bytes.
pub uninterp spec fn utf8_lossy(bytes: Seq<u8>) -> Seq<char>;

/// `String::from_utf8_lossy`: the string that the bytes encode, with the
/// replacement character in place of each invalid sequence. Valid UTF-8 is
/// decoded as it is.
#[verifier::external_body]
pub(crate) fn string_from_utf8_lossy(bytes: &[u8]) -> (r: String)
    ensures
        r@ == utf8_lossy(bytes@),
        valid_utf8(bytes@) ==> r@ == decode_utf8(bytes@),
{
    String::from_utf8_lossy(bytes).into_owned()
}

/// The bounds of `v[start..end]` without its leading and trailing white space.
pub fn trim_bounds(v: &[char], start: usize, end: usize) -> (r: (usize, usize))
    requires
        start <= end <= v@.len(),
    ensures
        start <= r.0 <= r.1 <= end,
        v@.subrange(r.0 as int, r.1 as int) == trim(v@.subrange(start as int, end as int)),
{
    let mut i: usize = start;
    let ghost w = v@.subrange(start as int, end as int);
    while i < end && char_is_whitespace(v[i])
        invariant
            start <= i <= end <= v@.len(),
            w == v@.subrange(start as int, end as int),
            skip_whitespace(w, 0) == skip_whitespace(w, i - start),
        decreases end - i,
    {
        i += 1;
    }
    let mut j: usize = end;
    while i < j && char_is_whitespace(v[j - 1])
        invariant
            start <= i <= j <= end <= v@.len(),
            w == v@.subrange(start as int, end as int),
            skip_whitespace_back(w, i - start, w.len() as int) == skip_whitespace_back(
                w,
                i - start,
                j - start,
            ),
        decreases j - i,
    {
        j -= 1;
    }
    proof {
        assert(w.subrange(i - start, j - start) =~= v@.subrange(i as int, j as int));
    }
    (i, j)
}

/// `s` without its leading and trailing white space, as a new string.
pub fn trimmed(s: &str) -> (r: String)
    ensures
        r@ == trim(s@),
{
    let v = str_to_chars(s);
    let (i, j) = trim_bounds(v.as_slice(), 0, v.len());
    proof {
        assert(v@.subrange(0, v@.len() as int) =~= v@);
    }
    chars_to_string(v.as_slice(), i, j)
}

} // verus!
