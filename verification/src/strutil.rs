//! Flag-token shape: recognising the flag marker and stripping it.

use vstd::prelude::*;
use vstd::string::StrSliceExecFns;

verus! {

/// A token introduces a flag when it begins with the marker character `-`.
pub open spec fn is_flag_token(t: Seq<char>) -> bool {
    t.len() > 0 && t[0] == '-'
}

/// The bare name of a token: the token with every leading `-` removed.
pub open spec fn bare_name(t: Seq<char>) -> Seq<char>
    decreases t.len(),
{
    if t.len() > 0 && t[0] == '-' {
        bare_name(t.drop_first())
    } else {
        t
    }
}

/// Reports whether a token begins with the flag marker.
pub fn token_is_flag(s: &str) -> (b: bool)
    ensures
        b == is_flag_token(s@),
{
    s.unicode_len() > 0 && s.get_char(0) == '-'
}

proof fn lemma_bare_name_skip(t: Seq<char>, k: int)
    requires
        0 <= k <= t.len(),
        forall|i: int| 0 <= i < k ==> t[i] == '-',
        k == t.len() || t[k] != '-',
    ensures
        bare_name(t) == t.skip(k),
    decreases k,
{
    if k == 0 {
        assert(t.skip(0) =~= t);
    } else {
        lemma_bare_name_skip(t.drop_first(), k - 1);
        assert(t.drop_first().skip(k - 1) =~= t.skip(k));
    }
}

/// Removes every leading `-` from a token, yielding the bare name.
pub fn strip_marker(s: &str) -> (r: &str)
    ensures
        r@ == bare_name(s@),
{
    let n = s.unicode_len();
    let mut k: usize = 0;
    while k < n && s.get_char(k) == '-'
        invariant
            0 <= k <= n,
            n == s@.len(),
            forall|i: int| 0 <= i < k ==> s@[i] == '-',
        decreases n - k,
    {
        k += 1;
    }
    proof {
        lemma_bare_name_skip(s@, k as int);
        assert(s@.subrange(k as int, n as int) =~= s@.skip(k as int));
    }
    s.substring_char(k, n)
}

/// Compares two string slices by their character sequences.
pub fn str_eq(a: &str, b: &str) -> (r: bool)
    ensures
        r == (a@ == b@),
{
    let x = a.to_owned();
    let y = b.to_owned();
    x == y
}

} // verus!
