//! Character-level utilities shared by the lexer and the literal decoders.
//!
//! The whole crate works on `char` sequences: a source string is expanded
//! once into a `Vec<char>` and every span is a range of character indices.

use vstd::prelude::*;
use vstd::string::StrSliceExecFns;

verus! {

/// Expand a string into the vector of its characters.
pub fn str_to_chars(s: &str) -> (r: Vec<char>)
    ensures
        r@ == s@,
{
    let n = s.unicode_len();
    let mut v: Vec<char> = Vec::new();
    let mut i: usize = 0;
    while i < n
        invariant
            i <= n,
            n == s@.len(),
            v@ == s@.subrange(0, i as int),
        decreases n - i,
    {
        let c = s.get_char(i);
        v.push(c);
        i = i + 1;
        proof {
            assert(v@ =~= s@.subrange(0, i as int));
        }
    }
    proof {
        assert(v@ =~= s@);
    }
    v
}

/// Collect a vector of characters into a `String`.
///
/// Relies on `String`'s `FromIterator<char>` implementation: collecting
/// chars yields the string of exactly those chars, in order.
#[verifier::external_body]
pub fn chars_to_string(v: &Vec<char>) -> (r: String)
    ensures
        r@ == v@,
{
    v.iter().collect()
}

} // verus!
