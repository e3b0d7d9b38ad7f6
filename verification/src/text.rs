//! Building owned strings one character at a time.

use vstd::prelude::*;

verus! {

/// `String::push` of the standard library: the string keeps what it held and
/// gains the given character at its end. Stated, not proved.
pub assume_specification[ std::string::String::push ](s: &mut std::string::String, c: char)
    ensures
        final(s)@ == old(s)@.push(c),
;

/// The string made of the given characters, in order.
pub fn string_of(chars: &Vec<char>) -> (s: String)
    ensures
        s@ == chars@,
{
    let mut s = String::new();
    let n: usize = chars.len();
    let mut i: usize = 0;
    while i < n
        invariant
            n == chars.len(),
            i <= n,
            s@ == chars@.take(i as int),
        decreases n - i,
    {
        s.push(chars[i]);
        assert(chars@.take(i as int).push(chars@[i as int]) =~= chars@.take(i + 1));
        i += 1;
    }
    assert(chars@.take(n as int) =~= chars@);
    s
}

} // verus!
