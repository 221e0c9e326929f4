//! Small text helpers: string equality over views, and conversions between
//! strings and character vectors.

use vstd::prelude::*;

verus! {

/// Is `c` an ASCII letter?
pub open spec fn is_letter_char(c: char) -> bool {
    (65 <= c as u32 <= 90) || (97 <= c as u32 <= 122)
}

/// Equality of two strings, decided over their character views.
pub fn str_eq(a: &str, b: &str) -> (r: bool)
    ensures
        r == (a@ == b@),
{
    let sa = String::from_str(a);
    let sb = String::from_str(b);
    sa == sb
}

/// The characters of a string, in order, as a vector.
pub fn chars_of_str(s: &str) -> (r: Vec<char>)
    ensures
        r@ == s@,
{
    let n = s.unicode_len();
    let mut out: Vec<char> = Vec::new();
    let mut i: usize = 0;
    while i < n
        invariant
            0 <= i <= n,
            n == s@.len(),
            out@ == s@.take(i as int),
        decreases n - i,
    {
        out.push(s.get_char(i));
        proof {
            assert(out@ =~= s@.take(i + 1));
        }
        i += 1;
    }
    proof {
        assert(s@.take(n as int) =~= s@);
    }
    out
}

/// Relies on `String: FromIterator<char>`: collecting characters yields the
/// string whose characters are exactly those collected, in order.
#[verifier::external_body]
pub fn string_from_chars(v: &Vec<char>) -> (r: String)
    ensures
        r@ == v@,
{
    v.iter().copied().collect()
}

/// The one-character string for `c`.
pub fn char_to_string(c: char) -> (r: String)
    ensures
        r@ == seq![c],
{
    let mut v: Vec<char> = Vec::new();
    v.push(c);
    proof {
        assert(v@ =~= seq![c]);
    }
    string_from_chars(&v)
}

/// A message of three glued pieces.
pub fn three_part(prefix: &str, mid: &str, suffix: &str) -> (r: String)
    ensures
        r@ == prefix@ + mid@ + suffix@,
{
    let mut m = String::new();
    m.append(prefix);
    m.append(mid);
    m.append(suffix);
    m
}

} // verus!
