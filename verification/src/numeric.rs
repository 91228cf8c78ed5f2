//! Canonical decimal rendering and parsing of 64-bit identifiers.
//!
//! Durable records are keyed by the community id rendered as its canonical
//! decimal string; loading parses the key back. Rendering and parsing are
//! exact inverses, so distinct communities keep distinct records.

use vstd::prelude::*;

use crate::text::{chars_to_string, str_chars};

verus! {

/// Whether the character is a decimal digit.
pub open spec fn is_digit(c: char) -> bool {
    0x30 <= (c as u32) && (c as u32) <= 0x39
}

/// The numeric value of a decimal digit.
pub open spec fn digit_val(c: char) -> int {
    (c as u32) - 0x30
}

/// The decimal digit for a value below ten.
pub open spec fn digit_char(d: int) -> char {
    if d == 0 {
        '0'
    } else if d == 1 {
        '1'
    } else if d == 2 {
        '2'
    } else if d == 3 {
        '3'
    } else if d == 4 {
        '4'
    } else if d == 5 {
        '5'
    } else if d == 6 {
        '6'
    } else if d == 7 {
        '7'
    } else if d == 8 {
        '8'
    } else {
        '9'
    }
}

/// The canonical decimal rendering of a number: no sign, no leading zero
/// except for zero itself.
pub open spec fn dec_str(n: nat) -> Seq<char>
    decreases n,
{
    if n < 10 {
        seq![digit_char(n as int)]
    } else {
        dec_str(n / 10).push(digit_char((n % 10) as int))
    }
}

/// Whether every character is a decimal digit.
pub open spec fn all_digits(s: Seq<char>) -> bool {
    forall|i: int| 0 <= i < s.len() ==> is_digit(#[trigger] s[i])
}

/// The number a digit string denotes, most significant digit first.
pub open spec fn dec_val(s: Seq<char>) -> int
    decreases s.len(),
{
    if s.len() == 0 {
        0
    } else {
        dec_val(s.drop_last()) * 10 + digit_val(s.last())
    }
}

/// How a string parses as a 64-bit identifier: at least one character, all
/// digits, value in range; anything else is rejected.
pub open spec fn parse_dec(s: Seq<char>) -> Option<u64> {
    if s.len() > 0 && all_digits(s) && dec_val(s) <= u64::MAX {
        Some(dec_val(s) as u64)
    } else {
        None
    }
}

/// A digit string denotes a value at least zero.
pub proof fn lemma_dec_val_nonneg(s: Seq<char>)
    requires
        all_digits(s),
    ensures
        dec_val(s) >= 0,
    decreases s.len(),
{
    if s.len() > 0 {
        assert(all_digits(s.drop_last())) by {
            assert(forall|i: int| 0 <= i < s.len() - 1 ==> s.drop_last()[i] == s[i]);
        }
        lemma_dec_val_nonneg(s.drop_last());
    }
}

/// A digit string denotes at least as much as any of its prefixes.
pub proof fn lemma_dec_val_prefix(s: Seq<char>, j: int)
    requires
        all_digits(s),
        0 <= j <= s.len(),
    ensures
        dec_val(s.take(j)) <= dec_val(s),
    decreases s.len(),
{
    if j < s.len() {
        assert(all_digits(s.drop_last())) by {
            assert(forall|i: int| 0 <= i < s.len() - 1 ==> s.drop_last()[i] == s[i]);
        }
        assert(s.take(j) =~= s.drop_last().take(j));
        lemma_dec_val_prefix(s.drop_last(), j);
        lemma_dec_val_nonneg(s.drop_last());
    } else {
        assert(s.take(j) =~= s);
    }
}

/// The canonical rendering is all digits and denotes the number itself.
pub proof fn lemma_dec_str_val(n: nat)
    ensures
        dec_str(n).len() > 0,
        all_digits(dec_str(n)),
        dec_val(dec_str(n)) == n,
    decreases n,
{
    if n < 10 {
        let s = dec_str(n);
        assert(s.drop_last().len() == 0);
        assert(dec_val(s.drop_last()) == 0);
        assert(s.last() == digit_char(n as int));
        assert(dec_val(s) == digit_val(digit_char(n as int)));
        assert(digit_val(digit_char(n as int)) == n) by {
            if n == 0 {
                assert('0' as u32 == 0x30);
            } else if n == 1 {
                assert('1' as u32 == 0x31);
            } else if n == 2 {
                assert('2' as u32 == 0x32);
            } else if n == 3 {
                assert('3' as u32 == 0x33);
            } else if n == 4 {
                assert('4' as u32 == 0x34);
            } else if n == 5 {
                assert('5' as u32 == 0x35);
            } else if n == 6 {
                assert('6' as u32 == 0x36);
            } else if n == 7 {
                assert('7' as u32 == 0x37);
            } else if n == 8 {
                assert('8' as u32 == 0x38);
            } else {
                assert('9' as u32 == 0x39);
            }
        }
    } else {
        lemma_dec_str_val(n / 10);
        let s = dec_str(n);
        assert(s.drop_last() =~= dec_str(n / 10));
        assert(all_digits(s)) by {
            assert(forall|i: int|
                0 <= i < s.len() - 1 ==> s[i] == dec_str((n / 10) as nat)[i]);
        }
    }
}

/// Parsing inverts rendering: the canonical decimal string of an identifier
/// parses back to it.
pub proof fn lemma_dec_round_trip(n: u64)
    ensures
        parse_dec(dec_str(n as nat)) == Some(n),
{
    lemma_dec_str_val(n as nat);
}

fn digit_to_char(d: u64) -> (r: char)
    requires
        d < 10,
    ensures
        r == digit_char(d as int),
{
    if d == 0 {
        '0'
    } else if d == 1 {
        '1'
    } else if d == 2 {
        '2'
    } else if d == 3 {
        '3'
    } else if d == 4 {
        '4'
    } else if d == 5 {
        '5'
    } else if d == 6 {
        '6'
    } else if d == 7 {
        '7'
    } else if d == 8 {
        '8'
    } else {
        '9'
    }
}

/// Renders an identifier as its canonical decimal string.
pub fn render_u64(n: u64) -> (r: String)
    ensures
        r@ == dec_str(n as nat),
{
    let mut out: Vec<char> = Vec::new();
    let mut m: u64 = n;
    let c = digit_to_char(m % 10);
    out.push(c);
    m = m / 10;
    proof {
        if n >= 10 {
            assert(dec_str(n as nat) =~= dec_str((n / 10) as nat) + out@);
        }
    }
    while m > 0
        invariant
            dec_str(n as nat) == (if m > 0 {
                dec_str(m as nat) + out@
            } else {
                out@
            }),
        decreases m,
    {
        let ghost out0 = out@;
        let c = digit_to_char(m % 10);
        out.insert(0, c);
        proof {
            assert(out@ =~= seq![digit_char((m % 10) as int)] + out0);
            if m >= 10 {
                assert(dec_str(m as nat).drop_last() =~= dec_str((m / 10) as nat));
                assert(dec_str(m as nat) + out0 =~= dec_str((m / 10) as nat) + out@);
            } else {
                assert(dec_str(m as nat) + out0 =~= out@);
            }
        }
        m = m / 10;
    }
    chars_to_string(&out)
}

/// Parses a string as a 64-bit identifier, rejecting anything but a plain
/// decimal numeral in range.
pub fn parse_u64(s: &str) -> (r: Option<u64>)
    ensures
        r == parse_dec(s@),
{
    let cs = str_chars(s);
    let n = cs.len();
    if n == 0 {
        return None;
    }
    let mut acc: u64 = 0;
    let mut i: usize = 0;
    while i < n
        invariant
            i <= n,
            n == cs@.len(),
            cs@ == s@,
            all_digits(cs@.take(i as int)),
            acc as int == dec_val(cs@.take(i as int)),
        decreases n - i,
    {
        let c = cs[i];
        let u = c as u32;
        if u < 0x30 || u > 0x39 {
            assert(!all_digits(s@)) by {
                assert(s@[i as int] == c);
            }
            return None;
        }
        let d: u64 = ((u - 0x30) as u64);
        proof {
            assert(cs@.take(i as int + 1).drop_last() =~= cs@.take(i as int));
            assert(cs@.take(i as int + 1).last() == c);
            assert(all_digits(cs@.take(i as int + 1)));
        }
        let step = match acc.checked_mul(10) {
            Some(x) => x.checked_add(d),
            None => None,
        };
        match step {
            Some(x) => {
                acc = x;
            },
            None => {
                proof {
                    assert(dec_val(cs@.take(i as int + 1)) > u64::MAX);
                    assert(all_digits(s@) ==> dec_val(s@) > u64::MAX) by {
                        if all_digits(s@) {
                            lemma_dec_val_prefix(s@, i as int + 1);
                        }
                    }
                }
                return None;
            },
        }
        i = i + 1;
    }
    proof {
        assert(cs@.take(n as int) =~= s@);
    }
    Some(acc)
}

} // verus!
