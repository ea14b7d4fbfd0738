//! Small verified text utilities: string equality, decimal rendering of
//! integers, and decimal parsing.

use vstd::prelude::*;
use vstd::string::StrSliceExecFns;

verus! {

/// Whether two strings hold the same characters.
pub fn str_eq(a: &str, b: &str) -> (r: bool)
    ensures
        r == (a@ == b@),
{
    let na = a.unicode_len();
    let nb = b.unicode_len();
    if na != nb {
        proof {
            if a@ == b@ {
                assert(a@.len() == b@.len());
            }
        }
        return false;
    }
    let mut i: usize = 0;
    while i < na
        invariant
            na == a@.len(),
            na == b@.len(),
            0 <= i <= na,
            forall|j: int| 0 <= j < i ==> a@[j] == b@[j],
        decreases na - i,
    {
        if a.get_char(i) != b.get_char(i) {
            proof {
                if a@ == b@ {
                    assert(a@[i as int] == b@[i as int]);
                }
            }
            return false;
        }
        i = i + 1;
    }
    proof {
        assert(a@ =~= b@);
    }
    true
}

/// The character for one decimal digit.
pub open spec fn dec_digit(d: int) -> char {
    if d == 0 {
        '0'
    } else if d == 1 {
        '1'
    } else if d == 2 {
        '2'
    } else if d == 3 {
        '3'
    } else if d == 4 {
        '4'
    } else if d == 5 {
        '5'
    } else if d == 6 {
        '6'
    } else if d == 7 {
        '7'
    } else if d == 8 {
        '8'
    } else {
        '9'
    }
}

/// The decimal rendering of a non-negative integer, most significant
/// digit first, with no leading zeros (except for zero itself).
pub open spec fn dec_str(n: int) -> Seq<char>
    decreases n,
{
    if n < 10 {
        seq![dec_digit(n)]
    } else {
        dec_str(n / 10).push(dec_digit(n % 10))
    }
}

/// Renders a number in decimal.
pub fn u64_to_dec(n: u64) -> (r: String)
    ensures
        r@ == dec_str(n as int),
    decreases n,
{
    let d = n % 10;
    let digit: &str = if d == 0 {
        "0"
    } else if d == 1 {
        "1"
    } else if d == 2 {
        "2"
    } else if d == 3 {
        "3"
    } else if d == 4 {
        "4"
    } else if d == 5 {
        "5"
    } else if d == 6 {
        "6"
    } else if d == 7 {
        "7"
    } else if d == 8 {
        "8"
    } else {
        "9"
    };
    proof {
        reveal_strlit("0");
        reveal_strlit("1");
        reveal_strlit("2");
        reveal_strlit("3");
        reveal_strlit("4");
        reveal_strlit("5");
        reveal_strlit("6");
        reveal_strlit("7");
        reveal_strlit("8");
        reveal_strlit("9");
        assert(digit@ =~= seq![dec_digit(d as int)]);
    }
    if n < 10 {
        let mut s = String::new();
        s.append(digit);
        proof {
            assert(s@ =~= seq![dec_digit(n as int)]);
        }
        s
    } else {
        let mut s = u64_to_dec(n / 10);
        s.append(digit);
        proof {
            assert(s@ =~= dec_str(n as int / 10).push(dec_digit(n as int % 10)));
        }
        s
    }
}

/// Whether every character of `s` is a decimal digit.
pub open spec fn all_dec_digits(s: Seq<char>) -> bool {
    forall|i: int| 0 <= i < s.len() ==> '0' <= #[trigger] s[i] <= '9'
}

/// The numeric value of a digit string, most significant digit first.
pub open spec fn dec_val(s: Seq<char>) -> int
    decreases s.len(),
{
    if s.len() == 0 {
        0
    } else {
        dec_val(s.drop_last()) * 10 + (s.last() as int - '0' as int)
    }
}

/// Parses a string of decimal digits as a number. Returns nothing for an
/// empty string, a non-digit character, or a value that overflows.
pub fn parse_u64_dec(s: &str) -> (r: Option<u64>)
    ensures
        r is Some ==> s@.len() > 0 && all_dec_digits(s@) && dec_val(s@) == r->0,
        r is None ==> s@.len() == 0 || !all_dec_digits(s@) || dec_val(s@) > u64::MAX,
{
    let n = s.unicode_len();
    if n == 0 {
        return None;
    }
    let mut acc: u64 = 0;
    let mut i: usize = 0;
    while i < n
        invariant
            n == s@.len(),
            0 <= i <= n,
            all_dec_digits(s@.take(i as int)),
            acc as int == dec_val(s@.take(i as int)),
        decreases n - i,
    {
        let c = s.get_char(i);
        if c < '0' || c > '9' {
            proof {
                assert(!all_dec_digits(s@));
            }
            return None;
        }
        let d: u32 = c as u32 - 48;
        proof {
            assert forall|j: int| 0 <= j < i + 1 implies '0' <= #[trigger] s@.take(i + 1)[j]
                <= '9' by {
                if j < i {
                    assert(s@.take(i + 1)[j] == s@.take(i as int)[j]);
                }
            }
        }
        if acc > (u64::MAX - d as u64) / 10 {
            proof {
                assert(dec_val(s@.take(i + 1)) == acc as int * 10 + d) by {
                    assert(s@.take(i + 1).drop_last() =~= s@.take(i as int));
                    assert(s@.take(i + 1).last() == s@[i as int]);
                }
                assert(dec_val(s@.take(i + 1)) > u64::MAX) by (nonlinear_arith)
                    requires
                        dec_val(s@.take(i + 1)) == acc as int * 10 + d,
                        acc > vstd::math::sub(u64::MAX as int, d as int) / 10,
                        0 <= d <= 9,
                ;
                lemma_dec_val_monotone(s@, i as int);
            }
            return None;
        }
        proof {
            assert(s@.take(i + 1).drop_last() =~= s@.take(i as int));
            assert(s@.take(i + 1).last() == s@[i as int]);
            assert(acc * 10 + d <= u64::MAX) by (nonlinear_arith)
                requires
                    acc <= vstd::math::sub(u64::MAX as int, d as int) / 10,
                    0 <= d <= 9,
            ;
        }
        acc = acc * 10 + d as u64;
        i = i + 1;
    }
    proof {
        assert(s@.take(n as int) =~= s@);
    }
    Some(acc)
}

/// A longer digit string never shrinks in value: the value of the whole
/// is at least the value of any prefix extended by one digit.
proof fn lemma_dec_val_monotone(s: Seq<char>, i: int)
    requires
        0 <= i < s.len(),
        all_dec_digits(s.take(i + 1)),
        dec_val(s.take(i + 1)) > u64::MAX,
    ensures
        dec_val(s) > u64::MAX || !all_dec_digits(s),
    decreases s.len() - i,
{
    if i + 1 == s.len() {
        assert(s.take(i + 1) =~= s);
    } else {
        if all_dec_digits(s.take(i + 2)) {
            assert(dec_val(s.take(i + 2)) == dec_val(s.take(i + 1)) * 10 + (s[i + 1] as int
                - '0' as int)) by {
                assert(s.take(i + 2).drop_last() =~= s.take(i + 1));
                assert(s.take(i + 2).last() == s[i + 1]);
            }
            assert(dec_val(s.take(i + 2)) > u64::MAX) by (nonlinear_arith)
                requires
                    dec_val(s.take(i + 2)) == dec_val(s.take(i + 1)) * 10 + (s[i + 1] as int
                        - '0' as int),
                    dec_val(s.take(i + 1)) > u64::MAX,
                    '0' as int <= s[i + 1] as int <= '9' as int,
            ;
            lemma_dec_val_monotone(s, i + 1);
        } else {
            assert(!all_dec_digits(s)) by {
                let j = choose|j: int|
                    0 <= j < s.take(i + 2).len() && !('0' <= #[trigger] s.take(i + 2)[j] <= '9');
                assert(s[j] == s.take(i + 2)[j]);
            }
        }
    }
}

} // verus!
