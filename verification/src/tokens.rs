//! The token grammar.
//!
//! A placeholder token is an opening brace, one or more word characters
//! (the name), and a closing brace. A token is *live* (substitutable) when
//! it either begins the text, or the character immediately before its
//! opening brace is not itself an opening brace; in the latter case the
//! token is escaped and is treated as literal text.

use vstd::prelude::*;

verus! {

/// A word character: an ASCII letter, an ASCII digit, or an underscore.
/// Placeholder names consist of exactly these characters.
pub open spec fn is_word_char(c: char) -> bool {
    ||| 97 <= c as u32 && c as u32 <= 122
    ||| 65 <= c as u32 && c as u32 <= 90
    ||| 48 <= c as u32 && c as u32 <= 57
    ||| c as u32 == 95
}

/// Length of the longest run of word characters beginning at position `i`.
pub open spec fn word_run_len(s: Seq<char>, i: int) -> nat
    decreases s.len() - i,
{
    if 0 <= i < s.len() && is_word_char(s[i]) {
        (word_run_len(s, i + 1) + 1) as nat
    } else {
        0
    }
}

/// A token `{name}` begins at position `i`: an opening brace, at least one
/// word character, and a closing brace right after the word-character run.
pub open spec fn token_at(s: Seq<char>, i: int) -> bool {
    &&& 0 <= i < s.len()
    &&& s[i] == '{'
    &&& word_run_len(s, i + 1) >= 1
    &&& i + 1 + word_run_len(s, i + 1) < s.len()
    &&& s[i + 1 + word_run_len(s, i + 1)] == '}'
}

/// The name of the token beginning at position `i`.
pub open spec fn token_name(s: Seq<char>, i: int) -> Seq<char> {
    s.subrange(i + 1, i + 1 + word_run_len(s, i + 1))
}

/// The position one past the closing brace of the token beginning at `i`.
pub open spec fn token_end(s: Seq<char>, i: int) -> int {
    i + 2 + word_run_len(s, i + 1)
}

/// A live interior token at position `i`: a token stands there, it does not
/// begin the text, and the character before it is not an opening brace
/// (an opening brace immediately before a token escapes it).
pub open spec fn live_at(s: Seq<char>, i: int) -> bool {
    &&& 1 <= i
    &&& s[i - 1] != '{'
    &&& token_at(s, i)
}

/// The position of the leftmost live interior token at or after `i`, if any.
pub open spec fn first_live_from(s: Seq<char>, i: int) -> Option<int>
    decreases s.len() - i,
{
    if i >= s.len() {
        None
    } else if live_at(s, i) {
        Some(i)
    } else {
        first_live_from(s, i + 1)
    }
}

/// Scanning for the first live token from `a` or from a later position `b`
/// finds the same token when no live token stands in between.
pub proof fn lemma_first_live_from_advance(s: Seq<char>, a: int, b: int)
    requires
        a <= b,
        forall|j: int| a <= j < b ==> !live_at(s, j),
    ensures
        first_live_from(s, a) == first_live_from(s, b),
    decreases b - a,
{
    if a < b {
        if a >= s.len() {
            assert(first_live_from(s, a) is None);
            assert(b >= s.len());
            assert(first_live_from(s, b) is None);
        } else {
            assert(!live_at(s, a));
            lemma_first_live_from_advance(s, a + 1, b);
        }
    }
}

/// The first live token found is indeed live, at or after the scan start.
pub proof fn lemma_first_live_from_live(s: Seq<char>, a: int, i: int)
    requires
        first_live_from(s, a) == Some(i),
    ensures
        live_at(s, i),
        a <= i,
    decreases s.len() - a,
{
    if a < s.len() && !live_at(s, a) {
        lemma_first_live_from_live(s, a + 1, i);
    }
}

/// A text without a live token at any position has no first live token.
pub proof fn lemma_no_live_none(s: Seq<char>)
    requires
        forall|j: int| 1 <= j ==> !live_at(s, j),
    ensures
        first_live_from(s, 1) is None,
{
    if s.len() <= 1 {
        assert(first_live_from(s, 1) is None);
    } else {
        lemma_first_live_from_advance(s, 1, s.len() as int);
        assert(first_live_from(s, s.len() as int) is None);
    }
}

/// Whether `c` is a word character.
pub fn word_char(c: char) -> (b: bool)
    ensures
        b == is_word_char(c),
{
    let u = c as u32;
    (97 <= u && u <= 122) || (65 <= u && u <= 90) || (48 <= u && u <= 57) || u == 95
}

/// The length of the word-character run beginning at `start`.
pub fn word_run(s: &Vec<char>, start: usize) -> (n: usize)
    requires
        start <= s.len(),
    ensures
        n == word_run_len(s@, start as int),
        start + n <= s.len(),
{
    let mut j: usize = start;
    while j < s.len() && word_char(s[j])
        invariant
            start <= j <= s.len(),
            word_run_len(s@, start as int) == (j - start) + word_run_len(s@, j as int),
        decreases s.len() - j,
    {
        j = j + 1;
    }
    j - start
}

/// If a token begins at position `i`, the length of its name.
pub fn token_shape_at(s: &Vec<char>, i: usize) -> (r: Option<usize>)
    requires
        i < s.len(),
    ensures
        match r {
            Some(n) => token_at(s@, i as int) && n == word_run_len(s@, i as int + 1),
            None => !token_at(s@, i as int),
        },
{
    if s[i] != '{' {
        return None;
    }
    let n = word_run(s, i + 1);
    if n >= 1 && i + 1 + n < s.len() && s[i + 1 + n] == '}' {
        Some(n)
    } else {
        None
    }
}

/// If a token begins the text, the length of its name.
pub fn find_start_token(s: &Vec<char>) -> (r: Option<usize>)
    ensures
        match r {
            Some(n) => token_at(s@, 0) && n == word_run_len(s@, 1),
            None => !token_at(s@, 0),
        },
{
    if s.len() == 0 {
        return None;
    }
    token_shape_at(s, 0)
}

/// The leftmost live interior token: its position and the length of its name.
pub fn find_first_live(s: &Vec<char>) -> (r: Option<(usize, usize)>)
    ensures
        match r {
            Some(p) => {
                &&& first_live_from(s@, 1) == Some(p.0 as int)
                &&& live_at(s@, p.0 as int)
                &&& p.1 == word_run_len(s@, p.0 as int + 1)
            },
            None => first_live_from(s@, 1) is None,
        },
{
    let mut i: usize = 1;
    while i < s.len()
        invariant
            1 <= i,
            forall|j: int| 1 <= j < i ==> !live_at(s@, j),
        decreases s.len() - i,
    {
        if s[i] == '{' && s[i - 1] != '{' {
            match token_shape_at(s, i) {
                Some(n) => {
                    proof {
                        assert(live_at(s@, i as int));
                        lemma_first_live_from_advance(s@, 1, i as int);
                    }
                    return Some((i, n));
                },
                None => {
                    assert(!live_at(s@, i as int));
                },
            }
        } else {
            assert(!live_at(s@, i as int));
        }
        i = i + 1;
    }
    proof {
        lemma_first_live_from_advance(s@, 1, i as int);
        assert(first_live_from(s@, i as int) is None);
    }
    None
}

} // verus!
