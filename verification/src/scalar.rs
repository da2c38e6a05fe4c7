//! Conversions between scalar texts and values.
use vstd::prelude::*;

verus! {

/// Whether `c` is an ASCII decimal digit.
pub open spec fn is_digit(c: char) -> bool {
    '0' <= c && c <= '9'
}

/// The value of the decimal digit `c`.
pub open spec fn digit_value(c: char) -> nat {
    (c as int - 48) as nat
}

/// Whether every character of `s` is a decimal digit.
pub open spec fn all_digits(s: Seq<char>) -> bool {
    forall|i: int| 0 <= i < s.len() ==> #[trigger] is_digit(s[i])
}

/// The number that the digits `s` denote in decimal.
pub open spec fn digits_value(s: Seq<char>) -> nat
    decreases s.len(),
{
    if s.len() == 0 {
        0
    } else {
        digits_value(s.drop_last()) * 10 + digit_value(s.last())
    }
}

/// The number that a non-empty run of digits denotes.
pub open spec fn digits_number(s: Seq<char>) -> Option<nat> {
    if s.len() > 0 && all_digits(s) {
        Some(digits_value(s))
    } else {
        None
    }
}

/// The integer that `s` denotes in decimal: an optional `+` (or, when
/// `signed`, `-`) followed by at least one digit, with nothing else.
pub open spec fn decimal_integer(s: Seq<char>, signed: bool) -> Option<int> {
    if s.len() > 0 && s[0] == '+' {
        match digits_number(s.drop_first()) {
            Some(n) => Some(n as int),
            None => None,
        }
    } else if signed && s.len() > 0 && s[0] == '-' {
        match digits_number(s.drop_first()) {
            Some(n) => Some(-(n as int)),
            None => None,
        }
    } else {
        match digits_number(s) {
            Some(n) => Some(n as int),
            None => None,
        }
    }
}

/// The integer that `s` denotes when it lies in `[lo, hi]`.
pub open spec fn integer_in_range(s: Seq<char>, signed: bool, lo: int, hi: int) -> Option<int> {
    match decimal_integer(s, signed) {
        Some(v) => if lo <= v && v <= hi {
            Some(v)
        } else {
            None
        },
        None => None,
    }
}

proof fn lemma_digits_value_grows(s: Seq<char>, k: int)
    requires
        0 <= k <= s.len(),
        all_digits(s),
    ensures
        digits_value(s.take(k)) <= digits_value(s),
    decreases s.len(),
{
    if k < s.len() {
        lemma_digits_value_grows(s.drop_last(), k);
        assert(s.drop_last().take(k) =~= s.take(k));
        assert(all_digits(s.drop_last()));
    } else {
        assert(s.take(k) =~= s);
    }
}

/// The value of the digits `cs[start..]` when they are all digits, there is at
/// least one and the value fits in a `u128`.
fn digits_u128(cs: &Vec<char>, start: usize) -> (r: Option<u128>)
    requires
        start <= cs@.len(),
    ensures
        r == (match digits_number(cs@.skip(start as int)) {
            Some(n) => if n <= u128::MAX {
                Some(n as u128)
            } else {
                None
            },
            None => None,
        }),
{
    let ghost t = cs@.skip(start as int);
    if start >= cs.len() {
        return None;
    }
    let mut acc: u128 = 0;
    let mut i: usize = start;
    while i < cs.len()
        invariant
            start <= i <= cs@.len(),
            t == cs@.skip(start as int),
            all_digits(t.take(i - start)),
            acc as nat == digits_value(t.take(i - start)),
        decreases cs@.len() - i,
    {
        let c = cs[i];
        if !('0' <= c && c <= '9') {
            proof {
                assert(t[i - start] == c);
                assert(!is_digit(t[i - start]));
                assert(!all_digits(t));
            }
            return None;
        }
        let d: u128 = ((c as u32) - 48) as u128;
        proof {
            assert(t.take(i - start + 1).drop_last() =~= t.take(i - start));
            assert(t.take(i - start + 1).last() == c);
        }
        match acc.checked_mul(10) {
            Some(m) => match m.checked_add(d) {
                Some(v) => {
                    acc = v;
                },
                None => {
                    proof {
                        lemma_overflow_means_none(t, i - start + 1);
                    }
                    return None;
                },
            },
            None => {
                proof {
                    lemma_overflow_means_none(t, i - start + 1);
                }
                return None;
            },
        }
        i = i + 1;
        proof {
            assert forall|j: int| 0 <= j < t.take(i - start).len() implies #[trigger] is_digit(
                t.take(i - start)[j],
            ) by {
                if j < i - start - 1 {
                    assert(t.take(i - start)[j] == t.take(i - start - 1)[j]);
                }
            }
        }
    }
    proof {
        assert(t.take(i - start) =~= t);
    }
    Some(acc)
}

/// When a prefix of `t` of length `k` is all digits and denotes more than
/// `u128::MAX`, `t` denotes no `u128`.
proof fn lemma_overflow_means_none(t: Seq<char>, k: int)
    requires
        0 < k <= t.len(),
        all_digits(t.take(k)),
        digits_value(t.take(k)) > u128::MAX,
    ensures
        match digits_number(t) {
            Some(n) => n > u128::MAX,
            None => true,
        },
{
    if all_digits(t) {
        lemma_digits_value_grows(t, k);
    }
}

/// Parses `s` in decimal as `from_str_radix(s, 10)` does: the sign and the
/// magnitude, when the magnitude fits in a `u128`.
pub fn parse_decimal(s: &str, signed: bool) -> (r: Option<(bool, u128)>)
    ensures
        match r {
            Some((neg, m)) => decimal_integer(s@, signed) == Some(if neg {
                -(m as int)
            } else {
                m as int
            }),
            None => match decimal_integer(s@, signed) {
                Some(v) => v > u128::MAX || v < -u128::MAX,
                None => true,
            },
        },
{
    let cs = crate::text::chars_of(s);
    if cs.len() > 0 && cs[0] == '+' {
        proof {
            assert(cs@.skip(1) =~= s@.drop_first());
        }
        match digits_u128(&cs, 1) {
            Some(m) => Some((false, m)),
            None => None,
        }
    } else if signed && cs.len() > 0 && cs[0] == '-' {
        proof {
            assert(cs@.skip(1) =~= s@.drop_first());
        }
        match digits_u128(&cs, 1) {
            Some(m) => Some((true, m)),
            None => None,
        }
    } else {
        proof {
            assert(cs@.skip(0) =~= s@);
        }
        match digits_u128(&cs, 0) {
            Some(m) => Some((false, m)),
            None => None,
        }
    }
}

/// The integer `s` denotes, when it lies in `[lo, hi]`, with `hi` and `-lo`
/// within `u128` (the range of any primitive integer type).
pub fn parse_integer(s: &str, signed: bool, lo: i128, hi: u128) -> (r: Option<(bool, u128)>)
    requires
        lo <= 0,
        signed || lo == 0,
    ensures
        match r {
            Some((neg, m)) => integer_in_range(s@, signed, lo as int, hi as int) == Some(if neg {
                -(m as int)
            } else {
                m as int
            }),
            None => integer_in_range(s@, signed, lo as int, hi as int) is None,
        },
{
    match parse_decimal(s, signed) {
        Some((neg, m)) => {
            if neg {
                let bound: u128 = if lo == i128::MIN {
                    (i128::MAX as u128) + 1
                } else {
                    (-lo) as u128
                };
                if m <= bound {
                    Some((true, m))
                } else {
                    None
                }
            } else if m <= hi {
                Some((false, m))
            } else {
                None
            }
        },
        None => None,
    }
}

/// The boolean that `s` spells, as `bool::from_str` reads it.
pub open spec fn bool_text(s: Seq<char>) -> Option<bool> {
    if s == "true"@ {
        Some(true)
    } else if s == "false"@ {
        Some(false)
    } else {
        None
    }
}

/// Whether the characters `cs` are those of the string `lit`.
pub fn chars_equal(cs: &[char], lit: &str) -> (r: bool)
    ensures
        r == (cs@ == lit@),
{
    let ls = crate::text::chars_of(lit);
    if cs.len() != ls.len() {
        return false;
    }
    let mut i: usize = 0;
    while i < cs.len()
        invariant
            i <= cs@.len(),
            cs@.len() == ls@.len(),
            ls@ == lit@,
            forall|j: int| 0 <= j < i ==> cs@[j] == ls@[j],
        decreases cs@.len() - i,
    {
        if cs[i] != ls[i] {
            return false;
        }
        i = i + 1;
    }
    proof {
        assert(cs@ =~= ls@);
    }
    true
}

/// Reads a boolean as `bool::from_str` does.
pub fn parse_bool(s: &str) -> (r: Option<bool>)
    ensures
        r == bool_text(s@),
{
    let cs = crate::text::chars_of(s);
    if chars_equal(cs.as_slice(), "true") {
        Some(true)
    } else if chars_equal(cs.as_slice(), "false") {
        Some(false)
    } else {
        None
    }
}

/// The single character `s` consists of, as `char::from_str` reads it.
pub open spec fn char_text(s: Seq<char>) -> Option<char> {
    if s.len() == 1 {
        Some(s[0])
    } else {
        None
    }
}

/// Reads a single character as `char::from_str` does.
pub fn parse_char(s: &str) -> (r: Option<char>)
    ensures
        r == char_text(s@),
{
    let cs = crate::text::chars_of(s);
    if cs.len() == 1 {
        Some(cs[0])
    } else {
        None
    }
}

} // verus!
