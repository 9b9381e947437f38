//! Characters and strings of the crossword: the alphabet, the three marker
//! symbols, and small helpers on `&str` and `String`.

use vstd::prelude::*;
use vstd::string::*;

verus! {

/// Stands for "any letter" inside a pattern.
pub const WILDCARD: char = '_';

/// A cell of a liner that is permanently blocked.
pub const FILLER: char = '@';

/// A grid cell that holds no letter yet.
pub const EMPTY: char = '.';

/// What an empty cell is written as in a grid signature.
pub const SIGNATURE_EMPTY: char = '-';

/// The alphabet: the 26 basic Latin lower-case letters and the six Turkish
/// letters c-cedilla, g-breve, dotless i, o-diaeresis, s-cedilla and
/// u-diaeresis.
pub open spec fn is_letter(c: char) -> bool {
    ('a' <= c && c <= 'z') || c == '\u{e7}' || c == '\u{11f}' || c == '\u{131}' || c == '\u{f6}'
        || c == '\u{15f}' || c == '\u{fc}'
}

/// True when every character of `s` is a letter of the alphabet.
pub open spec fn is_literal_text(s: Seq<char>) -> bool {
    forall|i: int| 0 <= i < s.len() ==> is_letter(#[trigger] s[i])
}

/// `n` copies of `c`.
pub open spec fn repeated(c: char, n: nat) -> Seq<char> {
    Seq::new(n, |i: int| c)
}

/// `s` with every occurrence of `from` replaced by `to`.
pub open spec fn replaced(s: Seq<char>, from: char, to: char) -> Seq<char> {
    Seq::new(s.len(), |i: int| if s[i] == from { to } else { s[i] })
}

/// The views of a list of strings, in order.
pub open spec fn views(v: Seq<String>) -> Seq<Seq<char>> {
    v.map_values(|s: String| s@)
}

/// The views of a list with one more string.
pub proof fn lemma_views_push(v: Seq<String>, s: String)
    ensures
        views(v.push(s)) == views(v).push(s@),
{
    assert(views(v.push(s)) =~= views(v).push(s@));
}

/// Tells whether `c` is a letter of the alphabet.
pub fn is_alphabet_char(c: char) -> (b: bool)
    ensures
        b == is_letter(c),
{
    ('a' <= c && c <= 'z') || c == '\u{e7}' || c == '\u{11f}' || c == '\u{131}' || c == '\u{f6}'
        || c == '\u{15f}' || c == '\u{fc}'
}

/// Tells whether `word` is written in the alphabet alone.
pub fn is_valid_word(word: &str) -> (b: bool)
    ensures
        b == is_literal_text(word@),
{
    let n: usize = word.unicode_len();
    let mut i: usize = 0;
    while i < n
        invariant
            n == word@.len(),
            i <= n,
            forall|j: int| 0 <= j < i ==> is_letter(#[trigger] word@[j]),
        decreases n - i,
    {
        if !is_alphabet_char(word.get_char(i)) {
            return false;
        }
        i += 1;
    }
    true
}

/// What `str::trim` of std returns for `s`: `s` without the white space at
/// its two ends, white space being what Unicode calls so.
pub uninterp spec fn trimmed(s: Seq<char>) -> Seq<char>;

/// What `str::to_lowercase` of std returns for `s`: `s` in lower case, as
/// Unicode maps it.
pub uninterp spec fn lowercased(s: Seq<char>) -> Seq<char>;

/// `c` is no blank.
pub open spec fn no_blank() -> spec_fn(char) -> bool {
    |c: char| c != ' '
}

/// An entry of a word list in normal form: trimmed, in lower case, and
/// without blanks.
pub open spec fn normalized(line: Seq<char>) -> Seq<char> {
    lowercased(trimmed(line)).filter(no_blank())
}

/// `str::trim` of std: the slice of `s` without the white space at its
/// two ends. The result is named, not described.
#[verifier::external_body]
pub(crate) fn trim_text(s: &str) -> (r: &str)
    ensures
        r@ == trimmed(s@),
{
    s.trim()
}

/// `str::to_lowercase` of std: `s` in lower case. The result is named, not
/// described.
#[verifier::external_body]
pub(crate) fn lowercase_text(s: &str) -> (r: String)
    ensures
        r@ == lowercased(s@),
{
    s.to_lowercase()
}

/// `s` without its blanks.
pub fn without_blanks(s: &str) -> (r: String)
    ensures
        r@ == s@.filter(no_blank()),
{
    let n: usize = s.unicode_len();
    let mut r = String::new();
    let mut i: usize = 0;
    proof {
        assert(s@.subrange(0, 0) =~= Seq::<char>::empty());
        s@.subrange(0, 0).lemma_filter_len(no_blank());
        assert(s@.subrange(0, 0).filter(no_blank()) =~= Seq::<char>::empty());
    }
    while i < n
        invariant
            i <= n,
            n == s@.len(),
            r@ == s@.subrange(0, i as int).filter(no_blank()),
        decreases n - i,
    {
        let c: char = s.get_char(i);
        proof {
            let had = s@.subrange(0, i as int);
            assert(s@.subrange(0, i + 1) =~= had.push(c));
            had.lemma_filter_push(c, no_blank());
            assert(no_blank()(c) == (c != ' '));
        }
        if c != ' ' {
            push_char(&mut r, c);
        }
        i += 1;
    }
    assert(s@.subrange(0, n as int) =~= s@);
    r
}

/// The normal form of a line of a word list: trimmed, in lower case, and
/// without blanks.
pub fn normalize_entry(line: &str) -> (r: String)
    ensures
        r@ == normalized(line@),
{
    let lower: String = lowercase_text(trim_text(line));
    without_blanks(lower.as_str())
}

/// `String::push` of std: appends one character to the end of the string.
#[verifier::external_body]
pub(crate) fn push_char(s: &mut String, c: char)
    ensures
        final(s)@ == old(s)@.push(c),
{
    s.push(c)
}

/// An owned copy of `s`.
pub fn owned(s: &str) -> (r: String)
    ensures
        r@ == s@,
{
    String::from_str(s)
}

/// The characters of `s`.
pub fn chars_of(s: &str) -> (v: Vec<char>)
    ensures
        v@ == s@,
{
    let n: usize = s.unicode_len();
    let mut v: Vec<char> = Vec::new();
    let mut i: usize = 0;
    while i < n
        invariant
            n == s@.len(),
            i <= n,
            v@ == s@.subrange(0, i as int),
        decreases n - i,
    {
        v.push(s.get_char(i));
        i += 1;
    }
    v
}

/// The string of `n` copies of `c`.
pub fn repeat_char(c: char, n: usize) -> (s: String)
    ensures
        s@ == repeated(c, n as nat),
{
    let mut s = String::new();
    let mut i: usize = 0;
    while i < n
        invariant
            i <= n,
            s@ == repeated(c, i as nat),
        decreases n - i,
    {
        push_char(&mut s, c);
        i += 1;
    }
    s
}

/// `s` with every `from` replaced by `to`.
pub fn replace_char(s: &str, from: char, to: char) -> (r: String)
    ensures
        r@ == replaced(s@, from, to),
{
    let n: usize = s.unicode_len();
    let mut r = String::new();
    let mut i: usize = 0;
    while i < n
        invariant
            n == s@.len(),
            i <= n,
            r@ == replaced(s@, from, to).subrange(0, i as int),
        decreases n - i,
    {
        let c: char = s.get_char(i);
        push_char(&mut r, if c == from { to } else { c });
        i += 1;
    }
    r
}

/// Tells whether `c` occurs in `s`.
pub fn has_char(s: &str, c: char) -> (b: bool)
    ensures
        b == s@.contains(c),
{
    let n: usize = s.unicode_len();
    let mut i: usize = 0;
    while i < n
        invariant
            n == s@.len(),
            i <= n,
            forall|j: int| 0 <= j < i ==> s@[j] != c,
        decreases n - i,
    {
        if s.get_char(i) == c {
            return true;
        }
        i += 1;
    }
    false
}

/// Tells whether `s` holds a character other than `c`.
pub fn has_other_char(s: &str, c: char) -> (b: bool)
    ensures
        b == exists|i: int| 0 <= i < s@.len() && s@[i] != c,
{
    let n: usize = s.unicode_len();
    let mut i: usize = 0;
    while i < n
        invariant
            n == s@.len(),
            i <= n,
            forall|j: int| 0 <= j < i ==> s@[j] == c,
        decreases n - i,
    {
        if s.get_char(i) != c {
            return true;
        }
        i += 1;
    }
    false
}

} // verus!
