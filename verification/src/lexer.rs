//! Splitting a line of characters into words: the runs of characters between
//! whitespace.
use vstd::prelude::*;
use crate::fen::{is_ws, ws_skip};

verus! {

/// A character that belongs to a word: anything but whitespace.
pub open spec fn word_char(c: char) -> bool {
    !is_ws(c)
}

/// The first index from `i` on whose character is no word character (or the end).
pub open spec fn word_end(s: Seq<char>, i: int) -> int
    decreases s.len() - i,
{
    if i >= s.len() || i < 0 {
        i
    } else if word_char(s[i]) {
        word_end(s, i + 1)
    } else {
        i
    }
}

/// Bounds of the word end.
proof fn lemma_word_end_bounds(s: Seq<char>, i: int)
    requires
        0 <= i <= s.len(),
    ensures
        i <= word_end(s, i) <= s.len(),
    decreases s.len() - i,
{
    if i < s.len() && word_char(s[i]) {
        lemma_word_end_bounds(s, i + 1);
    }
}

/// Bounds of the whitespace skip.
proof fn lemma_ws_skip_bounds(s: Seq<char>, i: int)
    requires
        0 <= i <= s.len(),
    ensures
        i <= ws_skip(s, i) <= s.len(),
    decreases s.len() - i,
{
    if i < s.len() && is_ws(s[i]) {
        lemma_ws_skip_bounds(s, i + 1);
    }
}

/// Where the whitespace skip stops before the end, the character is no whitespace.
proof fn lemma_ws_skip_stops(s: Seq<char>, i: int)
    requires
        0 <= i <= s.len(),
    ensures
        ws_skip(s, i) < s.len() ==> !is_ws(s[ws_skip(s, i)]),
    decreases s.len() - i,
{
    if i < s.len() && is_ws(s[i]) {
        lemma_ws_skip_stops(s, i + 1);
    }
}

/// The characters not yet read.
pub struct Lexer<'a> {
    pub content: &'a [char],
}

impl<'a> Lexer<'a> {
    /// A lexer over the characters.
    pub fn from(content: &'a [char]) -> (l: Lexer<'a>)
        ensures
            l.content@ == content@,
    {
        Lexer { content: content }
    }

    /// Takes the first `n` characters off as a string.
    fn chop(&mut self, n: usize) -> (token: String)
        requires
            n <= old(self).content@.len(),
        ensures
            token@ == old(self).content@.take(n as int),
            final(self).content@ == old(self).content@.skip(n as int),
    {
        let (token, rest) = self.content.split_at(n);
        self.content = rest;
        let mut text = String::new();
        let mut i: usize = 0;
        while i < n
            invariant
                i <= n,
                token@.len() == n,
                text@ == token@.take(i as int),
            decreases n - i,
        {
            crate::text::push_char(&mut text, token[i]);
            proof {
                assert(token@.take(i + 1) =~= token@.take(i as int).push(token@[i as int]));
            }
            i = i + 1;
        }
        proof {
            assert(token@.take(n as int) =~= token@);
        }
        text
    }

    /// Takes off the leading characters up to the first whitespace as a string.
    fn chop_fn(&mut self) -> (token: String)
        ensures
            token@ == old(self).content@.take(word_end(old(self).content@, 0)),
            final(self).content@ == old(self).content@.skip(word_end(old(self).content@, 0)),
    {
        let mut n: usize = 0;
        while n < self.content.len() && !crate::fen::is_space(self.content[n])
            invariant
                n <= self.content@.len(),
                self.content@ == old(self).content@,
                word_end(self.content@, 0) == word_end(self.content@, n as int),
            decreases self.content@.len() - n,
        {
            n = n + 1;
        }
        self.chop(n)
    }

    /// Drops the leading whitespace.
    fn trim_left(&mut self)
        ensures
            final(self).content@ == old(self).content@.skip(ws_skip(old(self).content@, 0)),
    {
        let ghost s = self.content@;
        let ghost mut dropped: int = 0;
        proof {
            assert(s.skip(0) =~= s);
        }
        while self.content.len() > 0 && crate::fen::is_space(self.content[0])
            invariant
                0 <= dropped <= s.len(),
                self.content@ == s.skip(dropped),
                ws_skip(s, 0) == ws_skip(s, dropped),
            decreases self.content@.len(),
        {
            let (_, rest) = self.content.split_at(1);
            self.content = rest;
            proof {
                assert(s[dropped] == s.skip(dropped)[0]);
                dropped = dropped + 1;
                assert(self.content@ =~= s.skip(dropped));
            }
        }
    }

    /// The next word after the leading whitespace, or `None` at the end. A word is the
    /// longest run of characters that are not whitespace, so it is never empty.
    pub fn next(&mut self) -> (r: Option<String>)
        ensures
            ({
                let s = old(self).content@;
                let a = ws_skip(s, 0);
                let b = word_end(s, a);
                if a >= s.len() {
                    r is None && final(self).content@ == s.skip(a)
                } else {
                    r matches Some(w) && w@ == s.subrange(a, b) && final(self).content@ == s.skip(b)
                }
            }),
            r matches Some(w) ==> w@.len() > 0 && final(self).content@.len() < old(self).content@.len(),
    {
        let ghost s = self.content@;
        proof {
            lemma_ws_skip_bounds(s, 0);
        }
        self.trim_left();
        if !self.content.is_empty() {
            let ghost a = ws_skip(s, 0);
            let ghost t = self.content@;
            proof {
                lemma_word_end_bounds(s, a);
                lemma_word_end_shift(s, a, 0);
                lemma_ws_skip_stops(s, 0);
                lemma_word_end_bounds(s, a + 1);
            }
            let word = self.chop_fn();
            proof {
                assert(word@ =~= s.subrange(a, word_end(s, a)));
                assert(self.content@ =~= s.skip(word_end(s, a)));
            }
            return Some(word);
        }
        None
    }
}

/// The word end in a suffix is the word end in the whole, shifted.
proof fn lemma_word_end_shift(s: Seq<char>, a: int, i: int)
    requires
        0 <= a <= s.len(),
        0 <= i <= s.len() - a,
    ensures
        word_end(s.skip(a), i) == word_end(s, a + i) - a,
    decreases s.len() - a - i,
{
    if i < s.len() - a {
        assert(s.skip(a)[i] == s[a + i]);
        if word_char(s[a + i]) {
            lemma_word_end_shift(s, a, i + 1);
        }
    }
}

} // verus!
