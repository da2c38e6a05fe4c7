//! Deciding how a scalar is written: plain, or double-quoted with escapes.
use vstd::prelude::*;

use crate::scalar::{all_digits, chars_equal, integer_in_range, is_digit, parse_integer};
use crate::text::push_char;

verus! {

/// Characters that a plain scalar cannot start with.
pub open spec fn special_start(c: char) -> bool {
    c == '&' || c == '*' || c == '?' || c == '|' || c == '-' || c == '<' || c == '>' || c == '='
        || c == '!' || c == '%' || c == '@'
}

/// Characters that a plain scalar cannot hold.
pub open spec fn special_char(c: char) -> bool {
    c == ':' || c == '{' || c == '}' || c == '[' || c == ']' || c == ',' || c == '#' || c == '`'
        || c == '"' || c == '\'' || c == '\\' || (c as u32) <= 6 || c == '\t' || c == '\n' || c
        == '\r' || (0x0e <= (c as u32) && (c as u32) <= 0x1a) || (0x1c <= (c as u32) && (c as u32)
        <= 0x1f)
}

/// Words that read as booleans or null in YAML.
pub open spec fn reserved_word(s: Seq<char>) -> bool {
    s == "yes"@ || s == "Yes"@ || s == "YES"@ || s == "no"@ || s == "No"@ || s == "NO"@ || s
        == "True"@ || s == "TRUE"@ || s == "true"@ || s == "False"@ || s == "FALSE"@ || s
        == "false"@ || s == "on"@ || s == "On"@ || s == "ON"@ || s == "off"@ || s == "Off"@ || s
        == "OFF"@ || s == "null"@ || s == "Null"@ || s == "NULL"@ || s == "~"@
}

/// Whether `c` in lower case is the lower-case letter `d`.
pub open spec fn lower_is(c: char, d: char) -> bool {
    c == d || ('A' <= c && c <= 'Z' && (c as u32) + 32 == (d as u32))
}

/// Whether `s` in lower case is the lower-case word `w`.
pub open spec fn lower_eq(s: Seq<char>, w: Seq<char>) -> bool {
    s.len() == w.len() && forall|i: int| 0 <= i < s.len() ==> lower_is(#[trigger] s[i], w[i])
}

/// The mantissa of a float: digits with at most one point, and at least one
/// digit.
pub open spec fn mantissa_syntax(m: Seq<char>) -> bool {
    (m.len() > 0 && all_digits(m)) || (exists|p: int|
        0 <= p < m.len() && #[trigger] m[p] == '.' && all_digits(m.take(p)) && all_digits(
            m.skip(p + 1),
        ) && m.len() >= 2)
}

/// What follows the `e` of an exponent: an optional sign and at least one digit.
pub open spec fn exponent_syntax(x: Seq<char>) -> bool {
    let d = if x.len() > 0 && (x[0] == '+' || x[0] == '-') {
        x.drop_first()
    } else {
        x
    };
    d.len() > 0 && all_digits(d)
}

/// Whether `c` is the letter of an exponent.
pub open spec fn is_exp(c: char) -> bool {
    c == 'e' || c == 'E'
}

/// A decimal number: a mantissa and an optional exponent.
pub open spec fn number_syntax(t: Seq<char>) -> bool {
    exists|k: int|
        0 <= k <= t.len() && mantissa_syntax(#[trigger] t.take(k)) && (k == t.len() || (is_exp(
            t[k],
        ) && exponent_syntax(t.skip(k + 1))))
}

/// Whether `s` reads as an `f64` (the grammar that `f64::from_str` documents:
/// an optional sign, then `inf`, `infinity`, `nan` in any case, or a number).
pub open spec fn float_syntax(s: Seq<char>) -> bool {
    let t = if s.len() > 0 && (s[0] == '+' || s[0] == '-') {
        s.drop_first()
    } else {
        s
    };
    lower_eq(t, "inf"@) || lower_eq(t, "infinity"@) || lower_eq(t, "nan"@) || number_syntax(t)
}

/// Whether the string `s` must be written quoted to read back as the same
/// string.
pub open spec fn must_quote(s: Seq<char>) -> bool {
    s.len() == 0 || s[0] == ' ' || s.last() == ' ' || special_start(s[0]) || (exists|i: int|
        0 <= i < s.len() && special_char(#[trigger] s[i])) || reserved_word(s) || s[0] == '.' || (
    s.len() >= 2 && s[0] == '0' && s[1] == 'x') || integer_in_range(
        s,
        true,
        i64::MIN as int,
        i64::MAX as int,
    ) is Some || float_syntax(s)
}

/// The lower-case hexadecimal digit of `d`.
pub open spec fn hex_digit_char(d: nat) -> char {
    if d < 10 {
        (48 + d) as char
    } else {
        (87 + d) as char
    }
}

/// How the character `c` is written inside double quotes.
pub open spec fn escape_char(c: char) -> Seq<char> {
    if c == '"' {
        seq!['\\', '"']
    } else if c == '\\' {
        seq!['\\', '\\']
    } else if c == '\x08' {
        seq!['\\', 'b']
    } else if c == '\t' {
        seq!['\\', 't']
    } else if c == '\n' {
        seq!['\\', 'n']
    } else if c == '\x0c' {
        seq!['\\', 'f']
    } else if c == '\r' {
        seq!['\\', 'r']
    } else if (c as u32) < 0x20 || c == '\x7f' {
        seq![
            '\\',
            'u',
            '0',
            '0',
            hex_digit_char((c as nat) / 16),
            hex_digit_char((c as nat) % 16),
        ]
    } else {
        seq![c]
    }
}

/// The characters of `s` as they are written inside double quotes.
pub open spec fn escaped_body(s: Seq<char>) -> Seq<char>
    decreases s.len(),
{
    if s.len() == 0 {
        Seq::empty()
    } else {
        escape_char(s[0]) + escaped_body(s.drop_first())
    }
}

/// `s` written as a double-quoted scalar.
pub open spec fn escaped(s: Seq<char>) -> Seq<char> {
    seq!['"'] + escaped_body(s) + seq!['"']
}

/// How the string `s` is written as a scalar: plain when it reads back as
/// itself, else double-quoted.
pub open spec fn scalar_text(s: Seq<char>) -> Seq<char> {
    if must_quote(s) {
        escaped(s)
    } else {
        s
    }
}

proof fn lemma_escaped_body_push(s: Seq<char>, c: char)
    ensures
        escaped_body(s.push(c)) == escaped_body(s) + escape_char(c),
    decreases s.len(),
{
    if s.len() == 0 {
        assert(s.push(c).drop_first() =~= Seq::<char>::empty());
        assert(escaped_body(Seq::<char>::empty()) == Seq::<char>::empty());
        assert(s.push(c)[0] == c);
        assert(s =~= Seq::<char>::empty());
        assert(escaped_body(s.push(c)) =~= escape_char(c) + escaped_body(Seq::<char>::empty()));
        assert(escaped_body(s.push(c)) =~= escaped_body(s) + escape_char(c));
    } else {
        lemma_escaped_body_push(s.drop_first(), c);
        assert(s.push(c).drop_first() =~= s.drop_first().push(c));
        assert(escaped_body(s.push(c)) =~= escaped_body(s) + escape_char(c));
    }
}

/// The lower-case hexadecimal digit of `d`.
fn hex_digit_of(d: u32) -> (r: char)
    requires
        d < 16,
    ensures
        r == hex_digit_char(d as nat),
{
    if d < 10 {
        ((48 + d) as u8) as char
    } else {
        ((87 + d) as u8) as char
    }
}

/// Appends how `c` is written inside double quotes to `out`.
fn push_escaped_char(out: &mut String, c: char)
    ensures
        final(out)@ == old(out)@ + escape_char(c),
{
    let ghost start = out@;
    if c == '"' {
        push_char(out, '\\');
        push_char(out, '"');
    } else if c == '\\' {
        push_char(out, '\\');
        push_char(out, '\\');
    } else if c == '\x08' {
        push_char(out, '\\');
        push_char(out, 'b');
    } else if c == '\t' {
        push_char(out, '\\');
        push_char(out, 't');
    } else if c == '\n' {
        push_char(out, '\\');
        push_char(out, 'n');
    } else if c == '\x0c' {
        push_char(out, '\\');
        push_char(out, 'f');
    } else if c == '\r' {
        push_char(out, '\\');
        push_char(out, 'r');
    } else if (c as u32) < 0x20 || c == '\x7f' {
        let v = c as u32;
        push_char(out, '\\');
        push_char(out, 'u');
        push_char(out, '0');
        push_char(out, '0');
        push_char(out, hex_digit_of(v / 16));
        push_char(out, hex_digit_of(v % 16));
    } else {
        push_char(out, c);
    }
    proof {
        assert(out@ =~= start + escape_char(c));
    }
}

/// Appends `s` written as a double-quoted scalar to `out`.
pub fn escape_str(out: &mut String, s: &str)
    ensures
        final(out)@ == old(out)@ + escaped(s@),
{
    let cs = crate::text::chars_of(s);
    let ghost start = out@;
    push_char(out, '"');
    let mut i: usize = 0;
    while i < cs.len()
        invariant
            i <= cs@.len(),
            cs@ == s@,
            out@ == start + seq!['"'] + escaped_body(cs@.take(i as int)),
        decreases cs@.len() - i,
    {
        let ghost before = out@;
        push_escaped_char(out, cs[i]);
        proof {
            lemma_escaped_body_push(cs@.take(i as int), cs@[i as int]);
            assert(cs@.take(i + 1) =~= cs@.take(i as int).push(cs@[i as int]));
        }
        i = i + 1;
    }
    push_char(out, '"');
    proof {
        assert(cs@.take(i as int) =~= cs@);
        assert(out@ =~= start + escaped(s@));
    }
}

/// Whether `t` in lower case is the lower-case word `w`.
fn lower_equal(t: &Vec<char>, w: &str) -> (r: bool)
    ensures
        r == lower_eq(t@, w@),
{
    let ws = crate::text::chars_of(w);
    if t.len() != ws.len() {
        return false;
    }
    let mut i: usize = 0;
    while i < t.len()
        invariant
            i <= t@.len(),
            t@.len() == ws@.len(),
            ws@ == w@,
            forall|j: int| 0 <= j < i ==> lower_is(#[trigger] t@[j], ws@[j]),
        decreases t@.len() - i,
    {
        let c = t[i];
        let d = ws[i];
        if !(c == d || ('A' <= c && c <= 'Z' && (c as u32) + 32 == (d as u32))) {
            return false;
        }
        i = i + 1;
    }
    true
}

/// Whether `t[..k]` is a mantissa.
fn mantissa_of(t: &Vec<char>, k: usize) -> (r: bool)
    requires
        k <= t@.len(),
    ensures
        r == mantissa_syntax(t@.take(k as int)),
{
    let ghost m = t@.take(k as int);
    let mut dots: usize = 0;
    let mut dot_pos: usize = 0;
    let mut i: usize = 0;
    while i < k
        invariant
            i <= k <= t@.len(),
            m == t@.take(k as int),
            dots <= 1,
            forall|j: int| 0 <= j < i ==> is_digit(#[trigger] t@[j]) || t@[j] == '.',
            dots == 0 ==> forall|j: int| 0 <= j < i ==> #[trigger] t@[j] != '.',
            dots == 1 ==> dot_pos < i && t@[dot_pos as int] == '.' && forall|j: int|
                0 <= j < i && j != dot_pos ==> #[trigger] is_digit(t@[j]),
        decreases k - i,
    {
        let c = t[i];
        if c == '.' {
            if dots == 1 {
                proof {
                    assert(m[i as int] == '.');
                    assert(!is_digit(m[i as int]));
                    assert(!all_digits(m));
                    assert forall|p: int|
                        0 <= p < m.len() && #[trigger] m[p] == '.' && all_digits(m.take(p))
                            && all_digits(m.skip(p + 1)) implies false by {
                        if p < i {
                            assert(p == dot_pos);
                            assert(m.skip(p + 1)[i - p - 1] == '.');
                            assert(!is_digit(m.skip(p + 1)[i - p - 1]));
                        } else if p == i {
                            assert(m.take(p)[dot_pos as int] == '.');
                            assert(!is_digit(m.take(p)[dot_pos as int]));
                        } else {
                            assert(m.take(p)[i as int] == '.');
                            assert(!is_digit(m.take(p)[i as int]));
                        }
                    }
                }
                return false;
            }
            dots = 1;
            dot_pos = i;
        } else if !('0' <= c && c <= '9') {
            proof {
                assert(m[i as int] == c);
                assert(!is_digit(m[i as int]));
                assert(!all_digits(m));
                assert forall|p: int|
                    0 <= p < m.len() && #[trigger] m[p] == '.' && all_digits(m.take(p))
                        && all_digits(m.skip(p + 1)) implies false by {
                    if p < i {
                        assert(m.skip(p + 1)[i - p - 1] == c);
                        assert(!is_digit(m.skip(p + 1)[i - p - 1]));
                    } else {
                        assert(m.take(p)[i as int] == c);
                        assert(!is_digit(m.take(p)[i as int]));
                    }
                }
            }
            return false;
        }
        i = i + 1;
    }
    if dots == 0 {
        proof {
            if k > 0 {
                assert forall|j: int| 0 <= j < m.len() implies #[trigger] is_digit(m[j]) by {
                    assert(m[j] == t@[j]);
                }
            }
            assert forall|p: int|
                0 <= p < m.len() && #[trigger] m[p] == '.' && all_digits(m.take(p)) && all_digits(
                    m.skip(p + 1),
                ) && m.len() >= 2 implies false by {
                assert(t@[p] == m[p]);
            }
        }
        k > 0
    } else {
        proof {
            let p = dot_pos as int;
            assert(m[p] == '.');
            assert(!is_digit(m[p]));
            assert(!all_digits(m));
            if k >= 2 {
                assert forall|j: int| 0 <= j < m.take(p).len() implies #[trigger] is_digit(
                    m.take(p)[j],
                ) by {
                    assert(m.take(p)[j] == t@[j]);
                }
                assert forall|j: int| 0 <= j < m.skip(p + 1).len() implies #[trigger] is_digit(
                    m.skip(p + 1)[j],
                ) by {
                    assert(m.skip(p + 1)[j] == t@[p + 1 + j]);
                }
                assert(mantissa_syntax(m));
            }
        }
        k >= 2
    }
}

/// Whether `t[j..]` is what follows the `e` of an exponent.
fn exponent_of(t: &Vec<char>, j: usize) -> (r: bool)
    requires
        j <= t@.len(),
    ensures
        r == exponent_syntax(t@.skip(j as int)),
{
    let ghost x = t@.skip(j as int);
    let start = if j < t.len() && (t[j] == '+' || t[j] == '-') {
        j + 1
    } else {
        j
    };
    proof {
        if j < t@.len() {
            assert(x[0] == t@[j as int]);
        }
        let d = if x.len() > 0 && (x[0] == '+' || x[0] == '-') {
            x.drop_first()
        } else {
            x
        };
        assert(d =~= t@.skip(start as int));
        assert(exponent_syntax(x) == (t@.skip(start as int).len() > 0 && all_digits(
            t@.skip(start as int),
        )));
    }
    if start >= t.len() {
        return false;
    }
    let mut i: usize = start;
    while i < t.len()
        invariant
            start <= i <= t@.len(),
            forall|q: int| start <= q < i ==> is_digit(#[trigger] t@[q]),
            exponent_syntax(t@.skip(j as int)) == (t@.skip(start as int).len() > 0 && all_digits(
                t@.skip(start as int),
            )),
        decreases t@.len() - i,
    {
        if !('0' <= t[i] && t[i] <= '9') {
            proof {
                assert(t@.skip(start as int)[i - start] == t@[i as int]);
                assert(!is_digit(t@.skip(start as int)[i - start]));
                assert(!all_digits(t@.skip(start as int)));
            }
            return false;
        }
        i = i + 1;
    }
    proof {
        assert forall|q: int| 0 <= q < t@.skip(start as int).len() implies #[trigger] is_digit(
            t@.skip(start as int)[q],
        ) by {
            assert(t@.skip(start as int)[q] == t@[start + q]);
        }
    }
    true
}

/// Whether `t` is a decimal number: a mantissa and an optional exponent.
fn number_of(t: &Vec<char>) -> (r: bool)
    ensures
        r == number_syntax(t@),
{
    let mut k: usize = 0;
    while k < t.len() && !(t[k] == 'e' || t[k] == 'E')
        invariant
            k <= t@.len(),
            forall|j: int| 0 <= j < k ==> !is_exp(#[trigger] t@[j]),
        decreases t@.len() - k,
    {
        k = k + 1;
    }
    let mant = mantissa_of(t, k);
    let exp = k == t.len() || exponent_of(t, k + 1);
    proof {
        if mant && exp {
            assert(mantissa_syntax(t@.take(k as int)));
        } else {
            assert forall|k2: int|
                0 <= k2 <= t@.len() && mantissa_syntax(#[trigger] t@.take(k2)) implies !(k2
                == t@.len() || (is_exp(t@[k2]) && exponent_syntax(t@.skip(k2 + 1)))) by {
                if k2 < k {
                    assert(!is_exp(t@[k2]));
                } else if k2 > k {
                    lemma_mantissa_chars(t@.take(k2), k as int);
                    assert(t@.take(k2)[k as int] == t@[k as int]);
                }
            }
        }
    }
    mant && exp
}

/// Every character of a mantissa is a digit or a point.
proof fn lemma_mantissa_chars(m: Seq<char>, j: int)
    requires
        mantissa_syntax(m),
        0 <= j < m.len(),
    ensures
        is_digit(m[j]) || m[j] == '.',
{
    if !(m.len() > 0 && all_digits(m)) {
        let p = choose|p: int|
            0 <= p < m.len() && #[trigger] m[p] == '.' && all_digits(m.take(p)) && all_digits(
                m.skip(p + 1),
            ) && m.len() >= 2;
        if j < p {
            assert(m.take(p)[j] == m[j]);
            assert(is_digit(m.take(p)[j]));
        } else if j > p {
            assert(m.skip(p + 1)[j - p - 1] == m[j]);
            assert(is_digit(m.skip(p + 1)[j - p - 1]));
        }
    } else {
        assert(is_digit(m[j]));
    }
}

/// Whether `s` reads as an `f64`.
fn float_of(s: &Vec<char>) -> (r: bool)
    ensures
        r == float_syntax(s@),
{
    let start: usize = if s.len() > 0 && (s[0] == '+' || s[0] == '-') {
        1
    } else {
        0
    };
    let mut t: Vec<char> = Vec::new();
    let mut i: usize = start;
    while i < s.len()
        invariant
            start <= i <= s@.len(),
            start <= 1,
            t@ == s@.subrange(start as int, i as int),
        decreases s@.len() - i,
    {
        t.push(s[i]);
        i = i + 1;
        proof {
            assert(s@.subrange(start as int, i as int) =~= s@.subrange(start as int, i - 1).push(
                s@[i - 1],
            ));
        }
    }
    proof {
        let u = if s@.len() > 0 && (s@[0] == '+' || s@[0] == '-') {
            s@.drop_first()
        } else {
            s@
        };
        assert(t@ =~= u);
    }
    lower_equal(&t, "inf") || lower_equal(&t, "infinity") || lower_equal(&t, "nan") || number_of(
        &t,
    )
}

fn special_start_of(c: char) -> (r: bool)
    ensures
        r == special_start(c),
{
    c == '&' || c == '*' || c == '?' || c == '|' || c == '-' || c == '<' || c == '>' || c == '='
        || c == '!' || c == '%' || c == '@'
}

fn special_char_of(c: char) -> (r: bool)
    ensures
        r == special_char(c),
{
    let v = c as u32;
    c == ':' || c == '{' || c == '}' || c == '[' || c == ']' || c == ',' || c == '#' || c == '`'
        || c == '"' || c == '\'' || c == '\\' || v <= 6 || c == '\t' || c == '\n' || c == '\r' || (
    0x0e <= v && v <= 0x1a) || (0x1c <= v && v <= 0x1f)
}

fn reserved_of(cs: &[char]) -> (r: bool)
    ensures
        r == reserved_word(cs@),
{
    chars_equal(cs, "yes") || chars_equal(cs, "Yes") || chars_equal(cs, "YES") || chars_equal(cs, "no") || chars_equal(cs, "No") || chars_equal(cs, "NO") || chars_equal(cs, "True") || chars_equal(cs, "TRUE") || chars_equal(cs, "true") || chars_equal(cs, "False") || chars_equal(cs, "FALSE") || chars_equal(cs, "false") || chars_equal(cs, "on") || chars_equal(cs, "On") || chars_equal(cs, "ON") || chars_equal(cs, "off") || chars_equal(cs, "Off") || chars_equal(cs, "OFF") || chars_equal(cs, "null") || chars_equal(cs, "Null") || chars_equal(cs, "NULL") || chars_equal(cs, "~")
}

/// Whether the string `s` must be written quoted to read back as the same
/// string: it is empty, starts or ends with a space, starts with an
/// indicator, holds a character that YAML gives a meaning, is a boolean or
/// null word, starts with `.` or `0x`, or reads as an integer or a float.
pub fn need_quotes(s: &str) -> (r: bool)
    ensures
        r == must_quote(s@),
{
    let cs = crate::text::chars_of(s);
    let n = cs.len();
    if n == 0 {
        return true;
    }
    if cs[0] == ' ' || cs[n - 1] == ' ' || special_start_of(cs[0]) {
        return true;
    }
    let mut i: usize = 0;
    while i < n
        invariant
            i <= n == cs@.len(),
            cs@ == s@,
            forall|j: int| 0 <= j < i ==> !special_char(#[trigger] cs@[j]),
        decreases n - i,
    {
        if special_char_of(cs[i]) {
            proof {
                assert(special_char(s@[i as int]));
            }
            return true;
        }
        i = i + 1;
    }
    if reserved_of(cs.as_slice()) {
        return true;
    }
    if cs[0] == '.' || (n >= 2 && cs[0] == '0' && cs[1] == 'x') {
        return true;
    }
    if parse_integer(s, true, i64::MIN as i128, i64::MAX as u128).is_some() {
        return true;
    }
    float_of(&cs)
}

} // verus!
