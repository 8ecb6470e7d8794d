//! Conversion of flag value text into typed values, and the capability
//! trait that destinations use to obtain a value from a string.

use vstd::prelude::*;
use vstd::string::StrSliceExecFns;

verus! {

/// A decimal digit.
pub open spec fn is_ascii_digit(c: char) -> bool {
    48 <= c as u32 && c as u32 <= 57
}

/// The numeric value of a decimal digit.
pub open spec fn digit_val(c: char) -> int {
    c as u32 - 48
}

/// Every character of the sequence is a decimal digit.
pub open spec fn all_digits(s: Seq<char>) -> bool {
    forall|i: int| 0 <= i < s.len() ==> is_ascii_digit(s[i])
}

/// The value of a non-empty digit sequence read in base ten.
pub open spec fn digits_val(s: Seq<char>) -> int
    decreases s.len(),
{
    if s.len() == 0 {
        0
    } else {
        digits_val(s.drop_last()) * 10 + digit_val(s.last())
    }
}

/// The integer a character sequence denotes: an optional `+` or `-` sign
/// followed by one or more decimal digits, with no other characters.
pub open spec fn int_of_str(s: Seq<char>) -> Option<int> {
    let signed = s.len() > 0 && (s[0] == '+' || s[0] == '-');
    let neg = s.len() > 0 && s[0] == '-';
    let ds = if signed { s.drop_first() } else { s };
    if ds.len() > 0 && all_digits(ds) {
        Some(if neg { -digits_val(ds) } else { digits_val(ds) })
    } else {
        None
    }
}

/// The `i64` a character sequence denotes, if it denotes an integer in range.
pub open spec fn i64_of_str(s: Seq<char>) -> Option<i64> {
    match int_of_str(s) {
        Some(v) => if i64::MIN <= v <= i64::MAX {
            Some(v as i64)
        } else {
            None
        },
        None => None,
    }
}

/// The `bool` a character sequence denotes: exactly `true` or `false`.
pub open spec fn bool_of_str(s: Seq<char>) -> Option<bool> {
    if s == "true"@ {
        Some(true)
    } else if s == "false"@ {
        Some(false)
    } else {
        None
    }
}

proof fn lemma_digits_val_nonneg(s: Seq<char>)
    requires
        all_digits(s),
    ensures
        digits_val(s) >= 0,
    decreases s.len(),
{
    if s.len() > 0 {
        lemma_digits_val_nonneg(s.drop_last());
    }
}

proof fn lemma_digits_val_prefix(s: Seq<char>, k: int)
    requires
        all_digits(s),
        0 <= k <= s.len(),
    ensures
        digits_val(s.take(k)) <= digits_val(s),
    decreases s.len(),
{
    if k < s.len() {
        assert(s.drop_last().take(k) =~= s.take(k));
        lemma_digits_val_prefix(s.drop_last(), k);
        lemma_digits_val_nonneg(s.drop_last());
    } else {
        assert(s.take(k) =~= s);
    }
}

/// Parses a string as a decimal `i64`, accepting an optional leading sign.
pub fn parse_i64(s: &str) -> (r: Option<i64>)
    ensures
        r == i64_of_str(s@),
{
    let n = s.unicode_len();
    if n == 0 {
        return None;
    }
    let first = s.get_char(0);
    let neg = first == '-';
    let start: usize = if first == '-' || first == '+' {
        1
    } else {
        0
    };
    if start == n {
        return None;
    }
    let ghost ds = s@.skip(start as int);
    proof {
        if start == 1 {
            assert(s@.drop_first() =~= ds);
        } else {
            assert(ds =~= s@);
        }
    }
    let mut acc: u128 = 0;
    let mut i = start;
    while i < n
        invariant
            start <= i <= n,
            n == s@.len(),
            start < n,
            start <= 1,
            ds == s@.skip(start as int),
            start == 1 ==> (s@[0] == '-' || s@[0] == '+') && s@.drop_first() == ds,
            start == 0 ==> !(s@[0] == '-' || s@[0] == '+') && ds == s@,
            neg <==> s@[0] == '-',
            all_digits(ds.take(i - start)),
            acc == digits_val(ds.take(i - start)),
            acc <= 9223372036854775808u128,
        decreases n - i,
    {
        let c = s.get_char(i);
        let cv = c as u32;
        if cv < 48 || cv > 57 {
            proof {
                assert(ds[i - start] == c);
                assert(!all_digits(ds));
            }
            return None;
        }
        let d = (cv - 48) as u128;
        acc = acc * 10 + d;
        proof {
            assert(ds.take(i - start + 1).drop_last() =~= ds.take(i - start));
            assert(ds.take(i - start + 1).last() == c);
        }
        i += 1;
        if acc > 9223372036854775808u128 {
            proof {
                if all_digits(ds) {
                    lemma_digits_val_prefix(ds, i - start);
                    assert(digits_val(ds) > 9223372036854775808);
                }
            }
            return None;
        }
    }
    proof {
        assert(ds.take(n - start) =~= ds);
        assert(all_digits(ds));
    }
    if neg {
        let v = (-(acc as i128)) as i64;
        proof {
            assert(int_of_str(s@) == Some(-digits_val(ds)));
        }
        Some(v)
    } else {
        if acc > 9223372036854775807u128 {
            proof {
                assert(int_of_str(s@) == Some(digits_val(ds)));
            }
            None
        } else {
            proof {
                assert(int_of_str(s@) == Some(digits_val(ds)));
            }
            Some(acc as i64)
        }
    }
}

/// Parses a string as a `bool`, accepting exactly `true` and `false`.
pub fn parse_bool(s: &str) -> (r: Option<bool>)
    ensures
        r == bool_of_str(s@),
{
    let x = s.to_owned();
    if x == "true".to_owned() {
        Some(true)
    } else if x == "false".to_owned() {
        Some(false)
    } else {
        None
    }
}

/// A type that can be produced from the value text that follows a flag.
pub trait FromFlagStr: Sized {
    /// The value, if any, that a character sequence denotes for this type.
    spec fn from_flag_spec(s: Seq<char>) -> Option<Self>;

    /// Parses a string into a value of this type.
    fn from_flag_str(s: &str) -> (r: Option<Self>)
        ensures
            r == Self::from_flag_spec(s@),
    ;
}

impl FromFlagStr for i64 {
    open spec fn from_flag_spec(s: Seq<char>) -> Option<i64> {
        i64_of_str(s)
    }

    fn from_flag_str(s: &str) -> (r: Option<i64>) {
        parse_i64(s)
    }
}

impl FromFlagStr for bool {
    open spec fn from_flag_spec(s: Seq<char>) -> Option<bool> {
        bool_of_str(s)
    }

    fn from_flag_str(s: &str) -> (r: Option<bool>) {
        parse_bool(s)
    }
}

} // verus!
