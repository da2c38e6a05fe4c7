//! Reading scalars from a line of text, and writing them so that they read back.
use vstd::prelude::*;

verus! {

/// The position of the first comment (a `#` after a space) in `t` at or after
/// `i`, or the length of `t` when there is none.
pub open spec fn comment_start(t: Seq<char>, i: int) -> int
    decreases t.len() - i,
{
    if i >= t.len() {
        t.len() as int
    } else if t[i] == '#' && i > 0 && t[i - 1] == ' ' {
        i
    } else {
        comment_start(t, i + 1)
    }
}

/// `t` without its trailing spaces.
pub open spec fn trim_end(t: Seq<char>) -> Seq<char>
    decreases t.len(),
{
    if t.len() > 0 && t.last() == ' ' {
        trim_end(t.drop_last())
    } else {
        t
    }
}

/// The value of a plain scalar whose text runs from its start to the end of
/// its line: everything before a comment, without trailing spaces.
pub open spec fn read_plain(t: Seq<char>) -> Seq<char> {
    trim_end(t.take(comment_start(t, 0)))
}

/// Whether `u` holds only spaces, possibly followed by a comment.
pub open spec fn blank_or_comment(u: Seq<char>) -> bool
    decreases u.len(),
{
    if u.len() == 0 {
        true
    } else if u[0] == ' ' {
        blank_or_comment(u.drop_first())
    } else {
        u[0] == '#'
    }
}

/// The value of the hexadecimal digit `c`.
pub open spec fn hex_value(c: char) -> Option<nat> {
    if '0' <= c && c <= '9' {
        Some((c as int - 48) as nat)
    } else if 'a' <= c && c <= 'f' {
        Some((c as int - 87) as nat)
    } else if 'A' <= c && c <= 'F' {
        Some((c as int - 55) as nat)
    } else {
        None
    }
}

/// The number that the `n` hexadecimal digits at `t[i..i + n]` denote.
pub open spec fn hex_number(t: Seq<char>, i: int, n: nat) -> Option<nat>
    decreases n,
{
    if n == 0 {
        Some(0)
    } else if i + n > t.len() {
        None
    } else {
        match (hex_number(t, i, (n - 1) as nat), hex_value(t[i + n - 1])) {
            (Some(h), Some(d)) => Some(h * 16 + d),
            _ => None,
        }
    }
}

/// Whether `v` is the code of a character.
pub open spec fn is_char_code(v: nat) -> bool {
    v < 0xD800 || (0xE000 <= v && v <= 0x10FFFF)
}

/// The character that the escape whose letter is at `t[j]` stands for, and
/// the position after the escape.
pub open spec fn escape_at(t: Seq<char>, j: int) -> Option<(char, int)> {
    if j >= t.len() {
        None
    } else {
        let e = t[j];
        if e == '"' {
            Some(('"', j + 1))
        } else if e == '\\' {
            Some(('\\', j + 1))
        } else if e == '/' {
            Some(('/', j + 1))
        } else if e == ' ' {
            Some((' ', j + 1))
        } else if e == '0' {
            Some(('\0', j + 1))
        } else if e == 'a' {
            Some(('\x07', j + 1))
        } else if e == 'b' {
            Some(('\x08', j + 1))
        } else if e == 't' {
            Some(('\t', j + 1))
        } else if e == 'n' {
            Some(('\n', j + 1))
        } else if e == 'v' {
            Some(('\x0b', j + 1))
        } else if e == 'f' {
            Some(('\x0c', j + 1))
        } else if e == 'r' {
            Some(('\r', j + 1))
        } else if e == 'e' {
            Some(('\x1b', j + 1))
        } else {
            let n: nat = if e == 'x' {
                2
            } else if e == 'u' {
                4
            } else if e == 'U' {
                8
            } else {
                0
            };
            if n == 0 {
                None
            } else {
                match hex_number(t, j + 1, n) {
                    Some(v) => if is_char_code(v) {
                        Some((v as char, j + 1 + n))
                    } else {
                        None
                    },
                    None => None,
                }
            }
        }
    }
}

/// The text of a double-quoted scalar whose body starts at `t[i]`, and the
/// position after its closing quote.
pub open spec fn read_double(t: Seq<char>, i: int) -> Option<(Seq<char>, int)>
    decreases t.len() - i,
{
    if i < 0 || i >= t.len() {
        None
    } else if t[i] == '"' {
        Some((Seq::empty(), i + 1))
    } else if t[i] == '\\' {
        match escape_at(t, i + 1) {
            Some((c, j)) => if j > i {
                match read_double(t, j) {
                    Some((s, e)) => Some((seq![c] + s, e)),
                    None => None,
                }
            } else {
                None
            },
            None => None,
        }
    } else {
        match read_double(t, i + 1) {
            Some((s, e)) => Some((seq![t[i]] + s, e)),
            None => None,
        }
    }
}

/// The text of a single-quoted scalar whose body starts at `t[i]`, and the
/// position after its closing quote.
pub open spec fn read_single(t: Seq<char>, i: int) -> Option<(Seq<char>, int)>
    decreases t.len() - i,
{
    if i < 0 || i >= t.len() {
        None
    } else if t[i] == '\'' {
        if i + 1 < t.len() && t[i + 1] == '\'' {
            match read_single(t, i + 2) {
                Some((s, e)) => Some((seq!['\''] + s, e)),
                None => None,
            }
        } else {
            Some((Seq::empty(), i + 1))
        }
    } else {
        match read_single(t, i + 1) {
            Some((s, e)) => Some((seq![t[i]] + s, e)),
            None => None,
        }
    }
}

/// The quoted scalar that starts at `t[0]` and the position after it.
pub open spec fn read_quoted(t: Seq<char>) -> Option<(Seq<char>, int)> {
    if t.len() > 0 && t[0] == '"' {
        read_double(t, 1)
    } else if t.len() > 0 && t[0] == '\'' {
        read_single(t, 1)
    } else {
        None
    }
}

/// The value of a scalar whose text `t` runs from its start to the end of its
/// line: a quoted scalar followed by nothing but spaces or a comment, or a
/// plain scalar.
pub open spec fn read_inline(t: Seq<char>) -> Option<Seq<char>> {
    if t.len() > 0 && (t[0] == '"' || t[0] == '\'') {
        match read_quoted(t) {
            Some((s, e)) => if blank_or_comment(t.skip(e)) {
                Some(s)
            } else {
                None
            },
            None => None,
        }
    } else {
        Some(read_plain(t))
    }
}

/// `char::from_u32`: the character with code `v`.
/// Trusted: as its documentation states, the result is `Some` exactly when
/// `v` is the code of a character (not a surrogate, at most 0x10FFFF), and
/// then holds that character.
#[verifier::external_body]
pub(crate) fn char_from_code(v: u32) -> (r: Option<char>)
    ensures
        r == (if is_char_code(v as nat) {
            Some(v as char)
        } else {
            None
        }),
{
    char::from_u32(v)
}

/// `16` to the power `k`.
pub open spec fn pow16(k: nat) -> nat
    decreases k,
{
    if k == 0 {
        1
    } else {
        16 * pow16((k - 1) as nat)
    }
}

proof fn lemma_pow16_bound(k: nat)
    requires
        k <= 8,
    ensures
        pow16(k) <= 0x1_0000_0000,
{
    lemma_pow16_mono(k, 8);
    assert(pow16(8) == 0x1_0000_0000) by {
        reveal_with_fuel(pow16, 9);
    }
}

proof fn lemma_pow16_mono(k: nat, m: nat)
    requires
        k <= m,
    ensures
        pow16(k) <= pow16(m),
    decreases m,
{
    if k < m {
        lemma_pow16_mono(k, (m - 1) as nat);
    }
}

/// The value of the hexadecimal digit `c`.
fn hex_digit(c: char) -> (r: Option<u64>)
    ensures
        match hex_value(c) {
            Some(d) => r == Some(d as u64),
            None => r is None,
        },
{
    if '0' <= c && c <= '9' {
        Some((c as u32 - 48) as u64)
    } else if 'a' <= c && c <= 'f' {
        Some((c as u32 - 87) as u64)
    } else if 'A' <= c && c <= 'F' {
        Some((c as u32 - 55) as u64)
    } else {
        None
    }
}

/// The number that the `n` hexadecimal digits at `t[i..i + n]` denote.
fn hex_number_of(t: &Vec<char>, i: usize, n: usize) -> (r: Option<u32>)
    requires
        1 <= n <= 8,
        t@.len() < usize::MAX - 16,
    ensures
        match hex_number(t@, i as int, n as nat) {
            Some(v) => r == Some(v as u32) && v < 0x1_0000_0000,
            None => r is None,
        },
{
    if i > t.len() || n > t.len() - i {
        proof {
            lemma_hex_number_short(t@, i as int, n as nat);
        }
        return None;
    }
    let mut h: u64 = 0;
    let mut p: u64 = 1;
    let mut k: usize = 0;
    while k < n
        invariant
            k <= n <= 8,
            i + n <= t@.len(),
            t@.len() < usize::MAX - 16,
            hex_number(t@, i as int, k as nat) == Some(h as nat),
            p as nat == pow16(k as nat),
            h < p,
        decreases n - k,
    {
        proof {
            lemma_pow16_bound(k as nat);
        }
        let idx: usize = i + k;
        let digit = hex_digit(t[idx]);
        match digit {
            Some(d) => {
                assert(h * 16 + d < p * 16);
                h = h * 16 + d;
                p = p * 16;
            },
            None => {
                proof {
                    lemma_hex_number_bad(t@, i as int, (k + 1) as nat, n as nat);
                }
                return None;
            },
        }
        k = k + 1;
    }
    proof {
        lemma_pow16_bound(n as nat);
    }
    Some(h as u32)
}

proof fn lemma_hex_number_short(t: Seq<char>, i: int, n: nat)
    requires
        n >= 1,
        i + n > t.len(),
    ensures
        hex_number(t, i, n) is None,
{
}

proof fn lemma_hex_number_bad(t: Seq<char>, i: int, k: nat, n: nat)
    requires
        1 <= k <= n,
        hex_number(t, i, k) is None,
    ensures
        hex_number(t, i, n) is None,
    decreases n - k,
{
    if k < n {
        lemma_hex_number_bad(t, i, k, (n - 1) as nat);
    }
}

/// The character that the escape whose letter is at `t[j]` stands for, and
/// the position after the escape.
fn escape_of(t: &Vec<char>, j: usize) -> (r: Option<(char, usize)>)
    requires
        j < usize::MAX - 16,
        t@.len() < usize::MAX - 16,
    ensures
        match escape_at(t@, j as int) {
            Some((c, e)) => r == Some((c, e as usize)) && j < e <= j + 9,
            None => r is None,
        },
{
    if j >= t.len() {
        return None;
    }
    let e = t[j];
    if e == '"' {
        Some(('"', j + 1))
    } else if e == '\\' {
        Some(('\\', j + 1))
    } else if e == '/' {
        Some(('/', j + 1))
    } else if e == ' ' {
        Some((' ', j + 1))
    } else if e == '0' {
        Some(('\0', j + 1))
    } else if e == 'a' {
        Some(('\x07', j + 1))
    } else if e == 'b' {
        Some(('\x08', j + 1))
    } else if e == 't' {
        Some(('\t', j + 1))
    } else if e == 'n' {
        Some(('\n', j + 1))
    } else if e == 'v' {
        Some(('\x0b', j + 1))
    } else if e == 'f' {
        Some(('\x0c', j + 1))
    } else if e == 'r' {
        Some(('\r', j + 1))
    } else if e == 'e' {
        Some(('\x1b', j + 1))
    } else {
        let n: usize = if e == 'x' {
            2
        } else if e == 'u' {
            4
        } else if e == 'U' {
            8
        } else {
            0
        };
        if n == 0 {
            None
        } else {
            match hex_number_of(t, j + 1, n) {
                Some(v) => match char_from_code(v) {
                    Some(c) => Some((c, j + 1 + n)),
                    None => None,
                },
                None => None,
            }
        }
    }
}

/// Reads a double-quoted scalar whose body starts at `t[i0]`.
pub fn read_double_of(t: &Vec<char>, i0: usize) -> (r: Option<(String, usize)>)
    requires
        t@.len() < usize::MAX - 16,
    ensures
        match read_double(t@, i0 as int) {
            Some((s, e)) => r matches Some((rs, re)) && rs@ == s && re == e,
            None => r is None,
        },
        r matches Some((_, re)) ==> re <= t@.len(),
{
    let mut acc = String::new();
    let mut i: usize = i0;
    while i < t.len()
        invariant
            t@.len() < usize::MAX - 16,
            i0 <= i,
            match read_double(t@, i as int) {
                Some((s, e)) => read_double(t@, i0 as int) == Some((acc@ + s, e)),
                None => read_double(t@, i0 as int) is None,
            },
        decreases t@.len() - i,
    {
        let c = t[i];
        if c == '"' {
            proof {
                assert(acc@ + Seq::<char>::empty() =~= acc@);
            }
            return Some((acc, i + 1));
        } else if c == '\\' {
            match escape_of(t, i + 1) {
                Some((e, j)) => {
                    let ghost before = acc@;
                    crate::text::push_char(&mut acc, e);
                    proof {
                        match read_double(t@, j as int) {
                            Some((s, f)) => {
                                assert(before + (seq![e] + s) =~= acc@ + s);
                            },
                            None => {},
                        }
                    }
                    i = j;
                },
                None => {
                    return None;
                },
            }
        } else {
            let ghost before = acc@;
            crate::text::push_char(&mut acc, c);
            proof {
                match read_double(t@, i + 1) {
                    Some((s, f)) => {
                        assert(before + (seq![c] + s) =~= acc@ + s);
                    },
                    None => {},
                }
            }
            i = i + 1;
        }
    }
    None
}

/// Reads a single-quoted scalar whose body starts at `t[i0]`.
pub fn read_single_of(t: &Vec<char>, i0: usize) -> (r: Option<(String, usize)>)
    requires
        t@.len() < usize::MAX - 16,
    ensures
        match read_single(t@, i0 as int) {
            Some((s, e)) => r matches Some((rs, re)) && rs@ == s && re == e,
            None => r is None,
        },
        r matches Some((_, re)) ==> re <= t@.len(),
{
    let mut acc = String::new();
    let mut i: usize = i0;
    while i < t.len()
        invariant
            t@.len() < usize::MAX - 16,
            i0 <= i,
            match read_single(t@, i as int) {
                Some((s, e)) => read_single(t@, i0 as int) == Some((acc@ + s, e)),
                None => read_single(t@, i0 as int) is None,
            },
        decreases t@.len() - i,
    {
        let c = t[i];
        if c == '\'' {
            if i + 1 < t.len() && t[i + 1] == '\'' {
                let ghost before = acc@;
                crate::text::push_char(&mut acc, '\'');
                proof {
                    match read_single(t@, i + 2) {
                        Some((s, f)) => {
                            assert(before + (seq!['\''] + s) =~= acc@ + s);
                        },
                        None => {},
                    }
                }
                i = i + 2;
            } else {
                proof {
                    assert(acc@ + Seq::<char>::empty() =~= acc@);
                }
                return Some((acc, i + 1));
            }
        } else {
            let ghost before = acc@;
            crate::text::push_char(&mut acc, c);
            proof {
                match read_single(t@, i + 1) {
                    Some((s, f)) => {
                        assert(before + (seq![c] + s) =~= acc@ + s);
                    },
                    None => {},
                }
            }
            i = i + 1;
        }
    }
    None
}

/// Whether `t[e..]` holds only spaces, possibly followed by a comment.
pub fn rest_is_blank(t: &Vec<char>, e: usize) -> (r: bool)
    requires
        e <= t@.len(),
    ensures
        r == blank_or_comment(t@.skip(e as int)),
{
    let mut i: usize = e;
    while i < t.len()
        invariant
            e <= i <= t@.len(),
            blank_or_comment(t@.skip(e as int)) == blank_or_comment(t@.skip(i as int)),
        decreases t@.len() - i,
    {
        if t[i] != ' ' {
            return t[i] == '#';
        }
        proof {
            assert(t@.skip(i as int).drop_first() =~= t@.skip(i + 1));
        }
        i = i + 1;
    }
    true
}

/// The value of a plain scalar whose text is `t`.
pub fn read_plain_of(t: &Vec<char>) -> (r: String)
    ensures
        r@ == read_plain(t@),
{
    let mut c: usize = 0;
    while c < t.len() && !(t[c] == '#' && c > 0 && t[c - 1] == ' ')
        invariant
            c <= t@.len(),
            comment_start(t@, 0) == comment_start(t@, c as int),
        decreases t@.len() - c,
    {
        c = c + 1;
    }
    assert(comment_start(t@, c as int) == c);
    let mut e: usize = c;
    while e > 0 && t[e - 1] == ' '
        invariant
            e <= c <= t@.len(),
            comment_start(t@, 0) == c,
            trim_end(t@.take(c as int)) == trim_end(t@.take(e as int)),
        decreases e,
    {
        proof {
            assert(t@.take(e as int).drop_last() =~= t@.take(e - 1));
        }
        e = e - 1;
    }
    let mut out = String::new();
    let mut k: usize = 0;
    while k < e
        invariant
            k <= e <= t@.len(),
            out@ == t@.take(k as int),
        decreases e - k,
    {
        crate::text::push_char(&mut out, t[k]);
        k = k + 1;
        proof {
            assert(t@.take(k as int) =~= t@.take(k - 1).push(t@[k - 1]));
        }
    }
    proof {
        assert(trim_end(t@.take(e as int)) == t@.take(e as int));
    }
    out
}

/// The value of a scalar whose text `t` runs from its start to the end of its
/// line.
pub fn read_inline_of(t: &Vec<char>) -> (r: Option<String>)
    requires
        t@.len() < usize::MAX - 16,
    ensures
        match read_inline(t@) {
            Some(s) => r matches Some(rs) && rs@ == s,
            None => r is None,
        },
{
    if t.len() > 0 && (t[0] == '"' || t[0] == '\'') {
        let q = if t[0] == '"' {
            read_double_of(t, 1)
        } else {
            read_single_of(t, 1)
        };
        match q {
            Some((s, e)) => {
                if rest_is_blank(t, e) {
                    Some(s)
                } else {
                    None
                }
            },
            None => None,
        }
    } else {
        Some(read_plain_of(t))
    }
}

} // verus!
