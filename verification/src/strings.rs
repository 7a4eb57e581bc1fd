//! Small string-building helpers.

use vstd::prelude::*;

verus! {

/// Relies on `String::push`: appends exactly the given character.
#[verifier::external_body]
pub fn push_char(s: &mut String, c: char)
    ensures
        final(s)@ == old(s)@.push(c),
{
    s.push(c)
}

/// Character-for-character string equality.
pub fn str_eq(a: &str, b: &str) -> (r: bool)
    ensures
        r == (a@ == b@),
{
    let n = a.unicode_len();
    let m = b.unicode_len();
    if n != m {
        return false;
    }
    let mut i: usize = 0;
    while i < n
        invariant
            n == a@.len(),
            n == b@.len(),
            i <= n,
            forall|j: int| 0 <= j < i ==> a@[j] == b@[j],
        decreases n - i,
    {
        if a.get_char(i) != b.get_char(i) {
            return false;
        }
        i = i + 1;
    }
    proof {
        assert(a@ =~= b@);
    }
    true
}


/// The crate name with dashes replaced by underscores, the way package
/// names appear in compiled symbols.
pub open spec fn spec_underscored(s: Seq<char>) -> Seq<char> {
    s.map_values(
        |ch: char| if ch == '-' {
            '_'
        } else {
            ch
        },
    )
}

/// The exec mirror of `spec_underscored`.
pub fn replace_dashes(s: &str) -> (r: String)
    ensures
        r@ == spec_underscored(s@),
{
    let n = s.unicode_len();
    let mut r = String::new();
    let mut i: usize = 0;
    while i < n
        invariant
            n == s@.len(),
            i <= n,
            r@ =~= spec_underscored(s@).take(i as int),
        decreases n - i,
    {
        let c = s.get_char(i);
        if c == '-' {
            crate::strings::push_char(&mut r, '_');
        } else {
            crate::strings::push_char(&mut r, c);
        }
        proof {
            assert(r@ =~= spec_underscored(s@).take(i + 1 as int));
        }
        i = i + 1;
    }
    proof {
        assert(spec_underscored(s@).take(n as int) =~= spec_underscored(s@));
    }
    r
}

} // verus!
