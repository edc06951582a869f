//! Pig latin: the first consonant of a word moves behind it and "ay" is
//! added; a word that begins with a vowel gets "hay" instead.

use crate::text::{
    index_of_char, join, joined, split_whitespace, str_to_chars, string_push, strings_view, words,
};
use regex::Regex;
use vstd::prelude::*;
use vstd::string::StringExecFns;

verus! {

/// Whether `c` is one of the letters `a` to `z` or `A` to `Z`.
pub open spec fn is_ascii_letter(c: char) -> bool {
    ('a' <= c <= 'z') || ('A' <= c <= 'Z')
}

/// The first index at or after `from` that holds an ASCII letter, or the
/// length of `s` when there is none.
pub open spec fn first_letter(s: Seq<char>, from: int) -> int
    decreases s.len() - from,
{
    if 0 <= from < s.len() && !is_ascii_letter(s[from]) {
        first_letter(s, from + 1)
    } else {
        from
    }
}

/// The first index at or after `from` that holds no ASCII letter, or the
/// length of `s` when there is none.
pub open spec fn letters_end(s: Seq<char>, from: int) -> int
    decreases s.len() - from,
{
    if 0 <= from < s.len() && is_ascii_letter(s[from]) {
        letters_end(s, from + 1)
    } else {
        from
    }
}

/// The three parts of a word: what precedes its first ASCII letter, the
/// letters from there on, and what follows them up to the end of the line.
/// A word without an ASCII letter has no parts.
pub open spec fn word_parts(word: Seq<char>) -> Option<(Seq<char>, Seq<char>, Seq<char>)> {
    let i = first_letter(word, 0);
    if 0 <= i < word.len() {
        let j = letters_end(word, i);
        let k = index_of_char(word, '\n', j);
        Some((word.take(i), word.subrange(i, j), word.subrange(j, k)))
    } else {
        None
    }
}

/// Whether `c` is a small vowel.
pub open spec fn vowel(c: char) -> bool {
    c == 'a' || c == 'e' || c == 'i' || c == 'o' || c == 'u'
}

/// The letters of a word in pig latin.
pub open spec fn pig_letters(alpha: Seq<char>) -> Seq<char> {
    if alpha.len() == 0 {
        alpha
    } else if vowel(alpha[0]) {
        alpha + seq!['-', 'h', 'a', 'y']
    } else {
        alpha.skip(1) + seq!['-', alpha[0], 'a', 'y']
    }
}

/// A word in pig latin, where it has an ASCII letter.
pub open spec fn pig_word(word: Seq<char>) -> Seq<char> {
    let parts = word_parts(word)->0;
    parts.0 + pig_letters(parts.1) + parts.2
}

/// `Regex::new` and `Regex::captures` with the pattern of a word, which is
/// anchored at the start: a greedy run of characters other than ASCII
/// letters, a greedy run of one ASCII letter or more, and a greedy run of
/// any characters but the line feed. The three groups of the match are
/// returned as strings; there is no match where the word holds no ASCII
/// letter.
#[verifier::external_body]
fn capture_word(pattern: &str, word: &str) -> (r: Option<(String, String, String)>)
    requires
        pattern@ == "^([^a-zA-Z]*)([a-zA-Z]+)(.*)"@,
    ensures
        match r {
            Some(parts) => word_parts(word@) == Some((parts.0@, parts.1@, parts.2@)),
            None => word_parts(word@) is None,
        },
{
    let caps = Regex::new(pattern).ok()?.captures(word)?;
    let group = |i: usize| caps.get(i).map_or("", |m| m.as_str()).to_owned();
    Some((group(1), group(2), group(3)))
}

/// Whether `c` is a small vowel.
pub fn is_vowel(c: char) -> (b: bool)
    ensures
        b == vowel(c),
{
    match c {
        'a' | 'e' | 'i' | 'o' | 'u' => true,
        _ => false,
    }
}

/// The three parts of a word in pig latin, put together.
pub fn pigfy_parts(before: &str, alpha: &str, after: &str) -> (r: String)
    ensures
        r@ == before@ + pig_letters(alpha@) + after@,
{
    let letters = str_to_chars(alpha);
    let mut r = before.to_owned();
    proof {
        reveal_strlit("-hay");
        reveal_strlit("-");
        reveal_strlit("ay");
        assert("-hay"@ =~= seq!['-', 'h', 'a', 'y']);
        assert("-"@ =~= seq!['-']);
        assert("ay"@ =~= seq!['a', 'y']);
    }
    if letters.len() > 0 {
        let c = letters[0];
        if is_vowel(c) {
            r.append(alpha);
            r.append("-hay");
        } else {
            let mut i: usize = 1;
            let ghost start = r@;
            while i < letters.len()
                invariant
                    1 <= i <= letters@.len(),
                    r@ == start + letters@.subrange(1, i as int),
                decreases letters@.len() - i,
            {
                string_push(&mut r, letters[i]);
                i += 1;
                proof {
                    assert(r@ =~= start + letters@.subrange(1, i as int));
                }
            }
            r.append("-");
            string_push(&mut r, c);
            r.append("ay");
            proof {
                assert(letters@.subrange(1, letters@.len() as int) =~= alpha@.skip(1));
                assert(r@ =~= before@ + pig_letters(alpha@));
            }
        }
    }
    r.append(after);
    proof {
        assert(r@ =~= before@ + pig_letters(alpha@) + after@);
    }
    r
}

pub fn pigfy_word(word: &str) -> (r: String)
    requires
        word_parts(word@) is Some,
    ensures
        r@ == pig_word(word@),
{
    match capture_word("^([^a-zA-Z]*)([a-zA-Z]+)(.*)", word) {
        Some(parts) => pigfy_parts(parts.0.as_str(), parts.1.as_str(), parts.2.as_str()),
        None => String::new(),
    }
}

/// Each word of a phrase in pig latin, with one space between the words.
pub fn pigfy(frase: &str) -> (r: String)
    requires
        forall|i: int|
            0 <= i < split_whitespace(frase@).len() ==> word_parts(
                #[trigger] split_whitespace(frase@)[i],
            ) is Some,
    ensures
        r@ == joined(
            split_whitespace(frase@).map_values(|w: Seq<char>| pig_word(w)),
            seq![' '],
        ),
{
    let all = words(frase);
    let mut pigged: Vec<String> = Vec::new();
    let ghost wanted = split_whitespace(frase@).map_values(|w: Seq<char>| pig_word(w));
    let mut i: usize = 0;
    while i < all.len()
        invariant
            i <= all@.len(),
            strings_view(all@) == split_whitespace(frase@),
            wanted == split_whitespace(frase@).map_values(|w: Seq<char>| pig_word(w)),
            forall|k: int|
                0 <= k < split_whitespace(frase@).len() ==> word_parts(
                    #[trigger] split_whitespace(frase@)[k],
                ) is Some,
            strings_view(pigged@) == wanted.take(i as int),
        decreases all@.len() - i,
    {
        proof {
            assert(all@[i as int]@ == strings_view(all@)[i as int]);
        }
        let ghost before = strings_view(pigged@);
        let word = pigfy_word(all[i].as_str());
        pigged.push(word);
        i += 1;
        proof {
            assert(strings_view(pigged@) =~= before.push(word@));
            assert(wanted.take(i as int) =~= wanted.take(i - 1).push(wanted[i - 1]));
        }
    }
    proof {
        assert(wanted.take(i as int) =~= wanted);
        reveal_strlit(" ");
        assert(" "@ =~= seq![' ']);
    }
    join(&pigged, " ")
}

} // verus!
