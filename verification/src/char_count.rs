//! Character counting: how many characters, space-separated words,
//! lines and UTF-8 bytes a text has. Counting never fails.

use vstd::prelude::*;
use vstd::string::StrSliceExecFns;
use vstd::string::StringSliceAdditionalSpecFns;
use vstd::utf8::encode_utf8;

verus! {

/// The counts of a text.
#[derive(Clone, Copy, PartialEq, Eq, Structural, Debug)]
pub struct CharCount {
    pub characters: usize,
    pub words: usize,
    pub lines: usize,
    pub bytes: usize,
}

/// How many maximal space-free runs a text has: words are separated by
/// spaces, and other whitespace is part of a word.
pub open spec fn word_count(t: Seq<char>) -> int
    decreases t.len(),
{
    if t.len() == 0 {
        0
    } else {
        word_count(t.drop_last()) + if t.last() != ' ' && (t.len() == 1 || t[t.len() - 2] == ' ') {
            1int
        } else {
            0int
        }
    }
}

/// How many newline characters a text has.
pub open spec fn newline_count(t: Seq<char>) -> int
    decreases t.len(),
{
    if t.len() == 0 {
        0
    } else {
        newline_count(t.drop_last()) + if t.last() == '\n' {
            1int
        } else {
            0int
        }
    }
}

/// How many lines a text has: its newline count, plus one for a final
/// fragment not ended by a newline. The empty text has no lines.
pub open spec fn line_count(t: Seq<char>) -> int {
    newline_count(t) + if t.len() > 0 && t.last() != '\n' {
        1int
    } else {
        0int
    }
}

/// Word and newline counts never exceed the character count.
proof fn lemma_counts_bounded(t: Seq<char>)
    ensures
        0 <= word_count(t) <= t.len(),
        0 <= newline_count(t) <= t.len(),
    decreases t.len(),
{
    if t.len() > 0 {
        lemma_counts_bounded(t.drop_last());
    }
}

/// Counts characters, words, lines and UTF-8 bytes of a text.
pub fn count_chars(text: &str) -> (r: CharCount)
    ensures
        r.characters == text@.len(),
        r.words == word_count(text@),
        r.lines == line_count(text@),
        r.bytes == encode_utf8(text@).len(),
{
    let bytes = text.as_bytes().len();
    proof {
        assert(text.spec_bytes() == encode_utf8(text@));
    }
    let n = text.unicode_len();
    let mut words: usize = 0;
    let mut newlines: usize = 0;
    let mut prev_space = true;
    let mut i: usize = 0;
    proof {
        assert(text@.take(0) =~= Seq::<char>::empty());
        lemma_counts_bounded(text@);
    }
    while i < n
        invariant
            i <= n,
            n == text@.len(),
            words == word_count(text@.take(i as int)),
            newlines == newline_count(text@.take(i as int)),
            prev_space == (i == 0 || text@[i - 1] == ' '),
            0 <= words <= i,
            0 <= newlines <= i,
        decreases n - i,
    {
        let c = text.get_char(i);
        proof {
            assert(text@.take(i + 1).drop_last() =~= text@.take(i as int));
            assert(text@.take(i + 1).last() == text@[i as int]);
        }
        if c != ' ' && prev_space {
            words = words + 1;
        }
        if c == '\n' {
            newlines = newlines + 1;
        }
        prev_space = c == ' ';
        i = i + 1;
    }
    proof {
        assert(text@.take(n as int) =~= text@);
        if n > 0 && text@[n - 1] != '\n' {
            lemma_counts_bounded(text@.drop_last());
            assert(newline_count(text@) == newline_count(text@.drop_last()));
        }
    }
    let lines: usize = if n > 0 && text.get_char(n - 1) != '\n' {
        newlines + 1
    } else {
        newlines
    };
    CharCount { characters: n, words, lines, bytes }
}

} // verus!
