//! Regex generation: a best-effort pattern that matches all the sample
//! strings, built as the alternation of their literal-escaped forms.
//! Generation never fails; with no samples the pattern is empty.

use vstd::prelude::*;

use crate::strutil::{chars_of, string_of};

verus! {

/// Whether a character has a special meaning in a regular expression.
pub open spec fn is_meta(c: char) -> bool {
    c == '.' || c == '^' || c == '$' || c == '*' || c == '+' || c == '?' || c == '(' || c == ')'
        || c == '[' || c == ']' || c == '{' || c == '}' || c == '|' || c == '\\'
}

/// The escaped form of one metacharacter or plain character.
pub open spec fn escaped_char(c: char) -> Seq<char> {
    if is_meta(c) {
        seq!['\\', c]
    } else {
        seq![c]
    }
}

/// The literal-escaped form of a text: a backslash before every
/// metacharacter.
pub open spec fn escape_spec(t: Seq<char>) -> Seq<char>
    decreases t.len(),
{
    if t.len() == 0 {
        seq![]
    } else {
        escape_spec(t.drop_last()) + escaped_char(t.last())
    }
}

/// The alternation of the escaped samples, separated by `|`.
pub open spec fn regex_spec(samples: Seq<Seq<char>>) -> Seq<char>
    decreases samples.len(),
{
    if samples.len() == 0 {
        seq![]
    } else if samples.len() == 1 {
        escape_spec(samples[0])
    } else {
        regex_spec(samples.drop_last()) + seq!['|'] + escape_spec(samples.last())
    }
}

/// Builds a regular expression that matches every sample: the
/// alternation of their escaped literals.
pub fn generate_regex(samples: &Vec<String>) -> (r: String)
    ensures
        r@ == regex_spec(samples.deep_view()),
{
    let ghost all = samples.deep_view();
    let mut out: Vec<char> = Vec::new();
    let n = samples.len();
    proof {
        assert(all.len() == n);
        assert(all.take(0) =~= Seq::<Seq<char>>::empty());
    }
    let mut i: usize = 0;
    while i < n
        invariant
            i <= n,
            n == samples@.len(),
            all == samples.deep_view(),
            all.len() == n,
            out@ == regex_spec(all.take(i as int)),
        decreases n - i,
    {
        if i > 0 {
            out.push('|');
        }
        let ghost pre = out@;
        let sample = chars_of(samples[i].as_str());
        let m = sample.len();
        proof {
            assert(sample@ == all[i as int]);
            assert(sample@.take(0) =~= Seq::<char>::empty());
            assert(pre + escape_spec(sample@.take(0)) =~= pre);
        }
        let mut j: usize = 0;
        while j < m
            invariant
                j <= m,
                m == sample@.len(),
                out@ == pre + escape_spec(sample@.take(j as int)),
            decreases m - j,
        {
            let c = sample[j];
            if c == '.' || c == '^' || c == '$' || c == '*' || c == '+' || c == '?' || c == '('
                || c == ')' || c == '[' || c == ']' || c == '{' || c == '}' || c == '|'
                || c == '\\' {
                out.push('\\');
            }
            out.push(c);
            proof {
                assert(sample@.take(j + 1).drop_last() =~= sample@.take(j as int));
                assert(sample@.take(j + 1).last() == sample@[j as int]);
                assert(out@ =~= pre + escape_spec(sample@.take(j + 1)));
            }
            j = j + 1;
        }
        proof {
            assert(sample@.take(m as int) =~= sample@);
            assert(all.take(i + 1).drop_last() =~= all.take(i as int));
            assert(all.take(i + 1).last() == all[i as int]);
            if i == 0 {
                assert(out@ =~= regex_spec(all.take(1)));
            } else {
                assert(out@ =~= regex_spec(all.take(i + 1)));
            }
        }
        i = i + 1;
    }
    proof {
        assert(all.take(n as int) =~= all);
    }
    string_of(&out)
}

} // verus!
