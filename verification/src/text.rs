//! Building text one character at a time.
use vstd::prelude::*;
use vstd::string::StrSliceExecFns;

verus! {

/// Appends a character to a string (std's `String::push`).
#[verifier::external_body]
pub(crate) fn push_char(s: &mut String, c: char)
    ensures
        final(s)@ == old(s)@.push(c),
{
    s.push(c);
}

/// Appends the characters of a text.
pub(crate) fn push_text(s: &mut String, t: &str)
    ensures
        final(s)@ == old(s)@ + t@,
{
    let n = t.unicode_len();
    let mut i: usize = 0;
    while i < n
        invariant
            i <= n,
            n == t@.len(),
            s@ == old(s)@ + t@.take(i as int),
        decreases n - i,
    {
        let c = t.get_char(i);
        push_char(s, c);
        proof {
            assert(t@.take(i + 1) =~= t@.take(i as int).push(c));
        }
        i = i + 1;
    }
    proof {
        assert(t@.take(n as int) =~= t@);
    }
}

} // verus!
