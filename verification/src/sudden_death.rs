//! The novelty text generator: picks one of a fixed set of phrases from
//! a seed and puts it in a decorative frame. Deterministic in the seed;
//! it never fails.

use vstd::prelude::*;

use crate::strutil::{chars_of, string_of};

verus! {

/// How many phrases the generator can pick from.
pub const PHRASE_COUNT: u64 = 4;

/// The phrase picked for an index below `PHRASE_COUNT`.
pub open spec fn phrase(i: int) -> Seq<char> {
    if i == 0 {
        "SUDDEN DEATH"@
    } else if i == 1 {
        "IT CAME FROM NOWHERE"@
    } else if i == 2 {
        "OUT OF THE BLUE"@
    } else {
        "TOTALLY UNEXPECTED"@
    }
}

/// `k` copies of one character.
pub open spec fn repeat_char(c: char, k: int) -> Seq<char>
    decreases k,
{
    if k <= 0 {
        seq![]
    } else {
        repeat_char(c, k - 1).push(c)
    }
}

/// A repetition is as long as asked.
proof fn lemma_repeat_len(c: char, k: int)
    requires
        k >= 0,
    ensures
        repeat_char(c, k).len() == k,
    decreases k,
{
    if k > 0 {
        lemma_repeat_len(c, k - 1);
    }
}

/// A phrase in its frame: a top border, the phrase between angle
/// brackets, and a bottom border, each border four wider than the
/// phrase.
pub open spec fn framed(p: Seq<char>) -> Seq<char> {
    repeat_char('_', p.len() as int + 4) + seq!['\n', '>', ' '] + p + seq![' ', '<', '\n'] + repeat_char(
        '~',
        p.len() as int + 4,
    )
}

/// The text generated for a seed.
pub open spec fn sudden_death_spec(seed: u64) -> Seq<char> {
    framed(phrase((seed % PHRASE_COUNT) as int))
}

/// The phrase picked for an index below `PHRASE_COUNT`.
fn phrase_exec(i: u64) -> (r: &'static str)
    requires
        i < PHRASE_COUNT,
    ensures
        r@ == phrase(i as int),
        r@.len() <= 32,
{
    proof {
        reveal_strlit("SUDDEN DEATH");
        reveal_strlit("IT CAME FROM NOWHERE");
        reveal_strlit("OUT OF THE BLUE");
        reveal_strlit("TOTALLY UNEXPECTED");
    }
    if i == 0 {
        "SUDDEN DEATH"
    } else if i == 1 {
        "IT CAME FROM NOWHERE"
    } else if i == 2 {
        "OUT OF THE BLUE"
    } else {
        "TOTALLY UNEXPECTED"
    }
}

/// Pushes `k` copies of a character.
fn push_repeated(out: &mut Vec<char>, c: char, k: usize)
    requires
        old(out)@.len() + k <= usize::MAX,
    ensures
        final(out)@ == old(out)@ + repeat_char(c, k as int),
{
    let mut j: usize = 0;
    proof {
        assert(old(out)@ + repeat_char(c, 0) =~= old(out)@);
    }
    while j < k
        invariant
            j <= k,
            out@ == old(out)@ + repeat_char(c, j as int),
        decreases k - j,
    {
        out.push(c);
        proof {
            assert(out@ =~= old(out)@ + repeat_char(c, j + 1));
        }
        j = j + 1;
    }
}

/// Generates the framed novelty text for a seed.
pub fn generate_sudden_death(seed: u64) -> (r: String)
    ensures
        r@ == sudden_death_spec(seed),
{
    let idx = seed % PHRASE_COUNT;
    let p = chars_of(phrase_exec(idx));
    let width = p.len() + 4;
    let mut out: Vec<char> = Vec::new();
    push_repeated(&mut out, '_', width);
    out.push('\n');
    out.push('>');
    out.push(' ');
    let mut i: usize = 0;
    let ghost mid = out@;
    while i < p.len()
        invariant
            i <= p@.len(),
            out@ == mid + p@.take(i as int),
        decreases p@.len() - i,
    {
        out.push(p[i]);
        proof {
            assert(p@.take(i + 1) =~= p@.take(i as int).push(p@[i as int]));
            assert(out@ =~= mid + p@.take(i + 1));
        }
        i = i + 1;
    }
    out.push(' ');
    out.push('<');
    out.push('\n');
    proof {
        lemma_repeat_len('_', width as int);
    }
    push_repeated(&mut out, '~', width);
    proof {
        assert(p@.take(p@.len() as int) =~= p@);
        assert(out@ =~= sudden_death_spec(seed));
    }
    string_of(&out)
}

} // verus!
