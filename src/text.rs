//! Moving between strings and sequences of characters.

use vstd::prelude::*;
use vstd::std_specs::iter::IteratorSpec;

verus! {

broadcast use vstd::string::axiom_spec_iter, vstd::string::next_postcondition;

/// Relies on `String::push`: appends the one character `c` to `s`.
#[verifier::external_body]
fn push_char(s: &mut String, c: char)
    ensures
        final(s)@ == old(s)@.push(c),
{
    s.push(c);
}

/// The characters of `s`, in order.
pub fn chars_of(s: &str) -> (r: Vec<char>)
    ensures
        r@ == s@,
{
    let mut out: Vec<char> = Vec::new();
    let mut it = s.chars();
    loop
        invariant
            it.obeys_prophetic_iter_laws(),
            out@ + it.remaining() == s@,
            it.decrease() is Some,
        ensures
            out@ == s@,
        decreases it.decrease()->0,
    {
        match it.next() {
            Some(c) => {
                out.push(c);
            },
            None => {
                assert(out@ + it.remaining() =~= out@);
                break;
            },
        }
    }
    out
}

/// The characters of `code` from `lo` up to `hi`, as a string.
pub fn span_text(code: &[char], lo: usize, hi: usize) -> (r: String)
    requires
        lo <= hi <= code@.len(),
    ensures
        r@ == code@.subrange(lo as int, hi as int),
{
    let mut out = String::new();
    let mut i: usize = lo;
    while i < hi
        invariant
            lo <= i <= hi <= code@.len(),
            out@ == code@.subrange(lo as int, i as int),
        decreases hi - i,
    {
        push_char(&mut out, code[i]);
        assert(code@.subrange(lo as int, i + 1) =~= code@.subrange(lo as int, i as int).push(code@[i as int]));
        i = i + 1;
    }
    out
}

} // verus!
