//! Conversions between string slices and character vectors. The store works
//! on character vectors internally; the public surface speaks `&str` and
//! `String`.

use vstd::prelude::*;

use vstd::string::StrSliceExecFns;

verus! {

/// The characters of a string slice, in order.
pub fn chars_of_str(s: &str) -> (r: Vec<char>)
    ensures
        r@ == s@,
{
    let n = s.unicode_len();
    let mut out: Vec<char> = Vec::new();
    let mut k: usize = 0;
    while k < n
        invariant
            k <= n,
            n == s@.len(),
            out@ == s@.take(k as int),
        decreases n - k,
    {
        let c = s.get_char(k);
        out.push(c);
        k = k + 1;
        proof {
            assert(s@.take(k as int) =~= s@.take(k as int - 1).push(s@[k as int - 1]));
        }
    }
    proof {
        assert(s@.take(n as int) =~= s@);
    }
    out
}

/// Relies on `String`'s collection of a character iterator: the resulting
/// string holds exactly the characters handed to it, in order.
#[verifier::external_body]
pub fn string_of_chars(v: &Vec<char>) -> (r: String)
    ensures
        r@ == v@,
{
    v.iter().collect()
}

} // verus!
