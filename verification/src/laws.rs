//! Laws of the scalars, values and errors that the library reads and writes.
use vstd::prelude::*;

use crate::emit::{escape_char, escaped, escaped_body, exponent_syntax, float_syntax, hex_digit_char, is_exp, mantissa_syntax, must_quote, number_syntax, scalar_text, special_char};
use crate::error::{Error, Marker, decimal, digit_char, with_mark};
use crate::quote::{comment_start, escape_at, hex_number, hex_value, is_char_code, read_double, read_inline, trim_end};
use crate::scalar::{all_digits, bool_text, char_text, decimal_integer, digits_value, integer_in_range, is_digit};
use crate::ser::{SerializerView, after_collection_start, after_end, bool_word, integer_text};
use crate::de::{DeserializerView, ElementStep, element_end_step, element_step};
use crate::event::Event;
use crate::parser::{Document, document_events, documents_events, node_events};

verus! {


proof fn lemma_hex_digit(d: nat)
    requires
        d < 16,
    ensures
        hex_value(hex_digit_char(d)) == Some(d),
{
}

pub(crate) proof fn lemma_char_range(c: char)
    ensures
        0 <= (c as int) <= 0x10FFFF,
        (c as u32) as int == c as int,
        (c as nat) == c as int,
{
}

proof fn lemma_char_code(c: char)
    requires
        (c as u32) < 0x80,
    ensures
        ((c as nat) as char) == c,
{
}

/// A double-quoted body written by `escaped_body`, followed by the closing
/// quote, reads back as the string it was written from.
pub(crate) proof fn lemma_read_escaped(t: Seq<char>, i: int, s: Seq<char>)
    requires
        0 <= i,
        i + escaped_body(s).len() + 1 <= t.len(),
        t.subrange(i, i + escaped_body(s).len()) == escaped_body(s),
        t[i + escaped_body(s).len()] == '"',
    ensures
        read_double(t, i) == Some((s, i + escaped_body(s).len() + 1)),
    decreases s.len(),
{
    if s.len() == 0 {
        assert(escaped_body(s).len() == 0);
        assert(t[i] == '"');
        assert(s =~= Seq::<char>::empty());
    } else {
        let c = s[0];
        let rest = s.drop_first();
        let e = escape_char(c);
        let k = e.len() as int;
        let b = escaped_body(s);
        assert(b == e + escaped_body(rest));
        let end = i + b.len() + 1;
        assert forall|j: int| 0 <= j < k implies t[i + j] == e[j] by {
            assert(t.subrange(i, i + b.len())[j] == t[i + j]);
            assert(b[j] == e[j]);
        }
        assert(t.subrange(i + k, i + k + escaped_body(rest).len()) =~= escaped_body(rest)) by {
            assert forall|j: int| 0 <= j < escaped_body(rest).len() implies t.subrange(
                i + k,
                i + k + escaped_body(rest).len(),
            )[j] == escaped_body(rest)[j] by {
                assert(t.subrange(i, i + b.len())[k + j] == t[i + k + j]);
                assert(b[k + j] == escaped_body(rest)[j]);
            }
        }
        lemma_read_escaped(t, i + k, rest);
        assert(seq![c] + rest =~= s);
        if c == '"' || c == '\\' || c == '\x08' || c == '\t' || c == '\n' || c == '\x0c' || c
            == '\r' {
            assert(k == 2);
            assert(t[i] == '\\');
            assert(escape_at(t, i + 1) == Some((c, i + 2)));
        } else if (c as u32) < 0x20 || c == '\x7f' {
            assert(k == 6);
            assert(t[i] == '\\');
            assert(t[i + 1] == 'u');
            lemma_char_range(c);
            assert((c as nat) < 128);
            let hi = (c as nat) / 16;
            let lo = (c as nat) % 16;
            lemma_hex_digit(0);
            lemma_hex_digit(hi);
            lemma_hex_digit(lo);
            assert(hex_digit_char(0) == '0');
            assert(hex_number(t, i + 2, 1) == Some(0nat));
            assert(hex_number(t, i + 2, 2) == Some(0nat));
            assert(hex_number(t, i + 2, 3) == Some(hi));
            assert(hex_number(t, i + 2, 4) == Some(hi * 16 + lo));
            assert(hi * 16 + lo == c as nat);
            lemma_char_code(c);
            assert(escape_at(t, i + 1) == Some((c, i + 6)));
        } else {
            assert(k == 1);
            assert(t[i] == c);
        }
    }
}

/// Every string reads back as itself from the text that the serializer
/// writes for it: plain when it needs no quotes, else double-quoted with
/// escapes.
pub proof fn law_scalar_round_trip(s: Seq<char>)
    ensures
        read_inline(scalar_text(s)) == Some(s),
{
    if must_quote(s) {
        let t = escaped(s);
        let b = escaped_body(s);
        assert(t[0] == '"');
        assert(t.subrange(1, 1 + b.len() as int) =~= b);
        assert(t[1 + b.len() as int] == '"');
        lemma_read_escaped(t, 1, s);
        assert(t.skip(t.len() as int) =~= Seq::<char>::empty());
    } else {
        assert(s.len() > 0);
        assert(s[0] != '"' && s[0] != '\'') by {
            if s[0] == '"' || s[0] == '\'' {
                assert(special_char(s[0]));
            }
        }
        assert forall|j: int| 0 <= j < s.len() implies s[j] != '#' by {
            if s[j] == '#' {
                assert(special_char(s[j]));
            }
        }
        lemma_no_comment(s, 0);
        assert(s.take(s.len() as int) =~= s);
        assert(trim_end(s) == s);
    }
}

proof fn lemma_no_comment(s: Seq<char>, i: int)
    requires
        0 <= i <= s.len(),
        forall|j: int| 0 <= j < s.len() ==> s[j] != '#',
    ensures
        comment_start(s, i) == s.len(),
    decreases s.len() - i,
{
    if i < s.len() {
        lemma_no_comment(s, i + 1);
    }
}

/// Every string reads back as itself from its double-quoted, escaped form.
pub proof fn law_double_quoted_round_trip(s: Seq<char>)
    ensures
        read_inline(escaped(s)) == Some(s),
{
    let t = escaped(s);
    let b = escaped_body(s);
    assert(t.subrange(1, 1 + b.len() as int) =~= b);
    lemma_read_escaped(t, 1, s);
    assert(t.skip(t.len() as int) =~= Seq::<char>::empty());
}

/// A position, once attached to an error, stays: attaching another one
/// leaves the error as it is.
pub proof fn law_mark_kept(e: Error, first: Marker, second: Marker)
    ensures
        with_mark(with_mark(e, first), second) == with_mark(e, first),
{
}

proof fn lemma_decimal_digits(n: nat)
    ensures
        decimal(n).len() > 0,
        all_digits(decimal(n)),
        digits_value(decimal(n)) == n,
    decreases n,
{
    assert((digit_char(n % 10) as int) == 48 + n % 10);
    assert(n == (n / 10) * 10 + n % 10);
    if n >= 10 {
        lemma_decimal_digits(n / 10);
        let d = decimal(n);
        assert(d.drop_last() =~= decimal(n / 10));
        assert(d.last() == digit_char(n % 10));
        assert forall|i: int| 0 <= i < d.len() implies #[trigger] is_digit(d[i]) by {
            if i < d.len() - 1 {
                assert(d[i] == decimal(n / 10)[i]);
            }
        }
        assert(digits_value(d) == digits_value(decimal(n / 10)) * 10 + (n % 10));
    } else {
        let d = decimal(n);
        assert(d.drop_last() =~= Seq::<char>::empty());
        assert(digits_value(d) == digits_value(d.drop_last()) * 10 + (n % 10));
    }
}

/// Every integer reads back as itself from the decimal text the serializer
/// writes for it, as a signed integer of any range that holds it, and, when
/// it is not negative, as an unsigned one.
pub proof fn law_integer_round_trip(v: int, lo: int, hi: int)
    requires
        lo <= v <= hi,
    ensures
        read_inline(scalar_text(integer_text(v))) == Some(integer_text(v)),
        integer_in_range(integer_text(v), true, lo, hi) == Some(v),
        v >= 0 ==> integer_in_range(integer_text(v), false, lo, hi) == Some(v),
{
    law_scalar_round_trip(integer_text(v));
    let t = integer_text(v);
    if v < 0 {
        let n = (-v) as nat;
        lemma_decimal_digits(n);
        assert(t.drop_first() =~= decimal(n));
        assert(decimal_integer(t, true) == Some(v));
    } else {
        lemma_decimal_digits(v as nat);
        assert(is_digit(t[0]));
        assert(decimal_integer(t, true) == Some(v));
        assert(decimal_integer(t, false) == Some(v));
    }
}

/// Every boolean reads back as itself from the word the serializer writes
/// for it.
pub proof fn law_bool_round_trip(b: bool)
    ensures
        read_inline(scalar_text(bool_word(b))) == Some(bool_word(b)),
        bool_text(bool_word(b)) == Some(b),
{
    law_scalar_round_trip(bool_word(b));
    reveal_strlit("true");
    reveal_strlit("false");
}

/// Every character reads back as itself from the text the serializer writes
/// for it.
pub proof fn law_char_round_trip(c: char)
    ensures
        read_inline(scalar_text(seq![c])) == Some(seq![c]),
        char_text(seq![c]) == Some(c),
{
    law_scalar_round_trip(seq![c]);
}

/// Ending a collection that is not known to be empty undoes the nesting that
/// starting it added, and writes nothing.
pub proof fn law_collection_level(v: SerializerView, len: Option<usize>, empty: Seq<char>)
    requires
        len != Some(0usize),
    ensures
        after_end(after_collection_start(v, len, empty)).level == v.level,
        after_end(after_collection_start(v, len, empty)).output == v.output,
{
}

/// The events of documents are those of the first, then those of the rest.
proof fn lemma_documents_events_first(docs: Seq<Document>)
    requires
        docs.len() > 0,
    ensures
        documents_events(docs) == document_events(docs[0]) + documents_events(docs.drop_first()),
    decreases docs.len(),
{
    if docs.len() == 1 {
        assert(docs.drop_last() =~= Seq::<Document>::empty());
        assert(docs.drop_first() =~= Seq::<Document>::empty());
        assert(document_events(docs[0]) + Seq::<(Event, Marker)>::empty() =~= document_events(
            docs[0],
        ));
        assert(Seq::<(Event, Marker)>::empty() + document_events(docs[0]) =~= document_events(
            docs[0],
        ));
    } else {
        let init = docs.drop_last();
        lemma_documents_events_first(init);
        assert(init.drop_first() =~= docs.drop_first().drop_last());
        assert(init[0] == docs[0]);
        assert(docs.drop_first().last() == docs.last());
        assert(documents_events(docs) =~= document_events(docs[0]) + documents_events(
            docs.drop_first(),
        ));
    }
}

/// At the root of a stream of many documents each element is one document,
/// in order: before the first remaining document, looking for the next
/// element reads the document's start and finds an element whose events are
/// those of the document's root; ending the element after them reads the
/// document's end and leaves the documents after it; after the last
/// document the end of the stream ends the sequence.
pub proof fn law_element_per_document(v: DeserializerView, docs: Seq<Document>, end: Marker)
    requires
        v.many,
        v.remaining == documents_events(docs) + seq![(Event::StreamEnd, end)],
    ensures
        docs.len() == 0 ==> element_step(v, true) == (
            Ok::<ElementStep, Error>(ElementStep::End),
            v,
        ),
        docs.len() > 0 ==> {
            let after_root = seq![(Event::DocumentEnd, docs[0].end)] + documents_events(
                docs.drop_first(),
            ) + seq![(Event::StreamEnd, end)];
            &&& element_step(v, true) == (
                Ok::<ElementStep, Error>(ElementStep::Element),
                DeserializerView { remaining: node_events(docs[0].root) + after_root, ..v },
            )
            &&& element_end_step(DeserializerView { remaining: after_root, ..v }, true) == (
                Ok::<(), Error>(()),
                DeserializerView {
                    remaining: documents_events(docs.drop_first()) + seq![
                        (Event::StreamEnd, end),
                    ],
                    ..v
                },
            )
        },
{
    if docs.len() == 0 {
        assert(documents_events(docs) =~= Seq::<(Event, Marker)>::empty());
        assert(v.remaining[0] == (Event::StreamEnd, end));
    } else {
        lemma_documents_events_first(docs);
        let d = docs[0];
        let rest = documents_events(docs.drop_first()) + seq![(Event::StreamEnd, end)];
        let after_root = seq![(Event::DocumentEnd, d.end)] + rest;
        assert(after_root =~= seq![(Event::DocumentEnd, d.end)] + documents_events(
            docs.drop_first(),
        ) + seq![(Event::StreamEnd, end)]);
        assert(v.remaining =~= seq![(Event::DocumentStart, d.start)] + (node_events(d.root)
            + after_root));
        assert(v.remaining[0] == (Event::DocumentStart, d.start));
        assert(v.remaining.drop_first() =~= node_events(d.root) + after_root);
        assert(after_root[0] == (Event::DocumentEnd, d.end));
        assert(after_root.drop_first() =~= rest);
        assert(v.advanced() == DeserializerView {
            remaining: node_events(d.root) + after_root,
            ..v
        });
        let w = DeserializerView { remaining: after_root, ..v };
        assert(w.next_event() == Ok::<(Event, Marker), Error>((Event::DocumentEnd, d.end)));
        assert(w.advanced() == DeserializerView { remaining: rest, ..v });
    }
}

proof fn lemma_no_comment_after_space(t: Seq<char>, i: int)
    requires
        0 <= i <= t.len(),
        forall|j: int| 0 < j < t.len() && #[trigger] t[j] == '#' ==> t[j - 1] != ' ',
    ensures
        comment_start(t, i) == t.len(),
    decreases t.len() - i,
{
    if i < t.len() {
        lemma_no_comment_after_space(t, i + 1);
    }
}

proof fn lemma_trim_end(t: Seq<char>)
    ensures
        trim_end(t).len() <= t.len(),
        trim_end(t) =~= t.take(trim_end(t).len() as int),
        forall|j: int| trim_end(t).len() <= j < t.len() ==> t[j] == ' ',
        trim_end(t).len() == 0 || trim_end(t).last() != ' ',
    decreases t.len(),
{
    if t.len() > 0 && t.last() == ' ' {
        let u = t.drop_last();
        lemma_trim_end(u);
        let r = trim_end(u);
        assert(trim_end(t) == r);
        assert forall|j: int| r.len() <= j < t.len() implies t[j] == ' ' by {
            if j < u.len() {
                assert(u[j] == t[j]);
            }
        }
        assert(u.take(r.len() as int) =~= t.take(r.len() as int));
    } else {
        assert(t.take(t.len() as int) =~= t);
    }
}

/// A plain scalar keeps every `#` that does not follow a space: only ` #`
/// starts a comment. So a plain text with no ` #` in it reads as its first
/// part that leaves out only trailing spaces, and, when it does not end in a
/// space, as the whole text.
pub proof fn law_plain_keeps_hash(t: Seq<char>)
    requires
        t.len() == 0 || (t[0] != '"' && t[0] != '\''),
        forall|j: int| 0 < j < t.len() && #[trigger] t[j] == '#' ==> t[j - 1] != ' ',
    ensures
        match read_inline(t) {
            Some(r) => r.len() <= t.len() && r == t.take(r.len() as int) && (forall|j: int|
                r.len() <= j < t.len() ==> t[j] == ' ') && (r.len() == 0 || r.last() != ' '),
            None => false,
        },
        t.len() > 0 && t.last() != ' ' ==> read_inline(t) == Some(t),
{
    lemma_no_comment_after_space(t, 0);
    assert(t.take(t.len() as int) =~= t);
    lemma_trim_end(t);
    let r = trim_end(t);
    if t.len() > 0 && t.last() != ' ' {
        if r.len() < t.len() {
            assert(t[t.len() - 1] == ' ');
        }
        assert(r =~= t);
    }
}

proof fn lemma_comment_at(t: Seq<char>, i: int, k: int)
    requires
        0 <= i <= k < t.len(),
        t[k] == '#',
        0 < k,
        t[k - 1] == ' ',
        forall|j: int| 0 < j < k && #[trigger] t[j] == '#' ==> t[j - 1] != ' ',
    ensures
        comment_start(t, i) == k,
    decreases k - i,
{
    if i < k {
        lemma_comment_at(t, i + 1, k);
    }
}

/// A ` #` in a plain scalar starts a comment: the value read is that of the
/// text before the first ` #`.
pub proof fn law_plain_comment(t: Seq<char>, k: int)
    requires
        t[0] != '"' && t[0] != '\'',
        0 < k < t.len(),
        t[k] == '#',
        t[k - 1] == ' ',
        forall|j: int| 0 < j < k && #[trigger] t[j] == '#' ==> t[j - 1] != ' ',
    ensures
        read_inline(t) == read_inline(t.take(k)),
{
    lemma_comment_at(t, 0, k);
    let u = t.take(k);
    assert forall|j: int| 0 < j < u.len() && #[trigger] u[j] == '#' implies u[j - 1] != ' ' by {
        assert(u[j] == t[j] && u[j - 1] == t[j - 1]);
    }
    lemma_no_comment_after_space(u, 0);
    assert(u.take(k) =~= u);
}

/// Reading an integer in a range never gives a number outside the range, nor
/// one other than the number written: a result is the decimal number of the
/// text, and lies in the range.
pub proof fn law_integer_within_range(s: Seq<char>, signed: bool, lo: int, hi: int)
    ensures
        match integer_in_range(s, signed, lo, hi) {
            Some(v) => lo <= v <= hi && decimal_integer(s, signed) == Some(v),
            None => true,
        },
{
}

/// The decimal text of an integer outside a range does not read as an
/// integer of that range, whether read as signed or as unsigned.
pub proof fn law_integer_out_of_range(v: int, lo: int, hi: int)
    requires
        v < lo || hi < v,
    ensures
        integer_in_range(integer_text(v), true, lo, hi) is None,
        integer_in_range(integer_text(v), false, lo, hi) is None,
{
    let t = integer_text(v);
    if v < 0 {
        let n = (-v) as nat;
        lemma_decimal_digits(n);
        assert(t.drop_first() =~= decimal(n));
        assert(decimal_integer(t, true) == Some(v));
        assert(!is_digit(t[0]));
        assert(decimal_integer(t, false) is None);
    } else {
        lemma_decimal_digits(v as nat);
        assert(is_digit(t[0]));
        assert(decimal_integer(t, true) == Some(v));
        assert(decimal_integer(t, false) == Some(v));
    }
}

/// The hexadecimal digit of `d` (below 16), in upper case or in lower case.
pub open spec fn hex_digit_in_case(d: nat, upper: bool) -> char {
    if upper {
        seq!['0', '1', '2', '3', '4', '5', '6', '7', '8', '9', 'A', 'B', 'C', 'D', 'E', 'F'][d as int]
    } else {
        seq!['0', '1', '2', '3', '4', '5', '6', '7', '8', '9', 'a', 'b', 'c', 'd', 'e', 'f'][d as int]
    }
}

/// Each hexadecimal digit denotes its value whatever its case: `A` to `F`,
/// like `a` to `f`, stand for 10 to 15.
pub proof fn law_hex_digit_value(d: nat, upper: bool)
    requires
        d < 16,
    ensures
        hex_value(hex_digit_in_case(d, upper)) == Some(d),
{
    assert(d == 0 || d == 1 || d == 2 || d == 3 || d == 4 || d == 5 || d == 6 || d == 7 || d == 8
        || d == 9 || d == 10 || d == 11 || d == 12 || d == 13 || d == 14 || d == 15);
}

/// A `\u` escape with four hexadecimal digits, each in either case, reads as
/// the character whose code the digits write, and ends after the last digit.
pub proof fn law_unicode_escape(
    t: Seq<char>,
    j: int,
    d: (nat, nat, nat, nat),
    upper: (bool, bool, bool, bool),
)
    requires
        0 <= j,
        j + 5 <= t.len(),
        t[j] == 'u',
        d.0 < 16 && d.1 < 16 && d.2 < 16 && d.3 < 16,
        t[j + 1] == hex_digit_in_case(d.0, upper.0),
        t[j + 2] == hex_digit_in_case(d.1, upper.1),
        t[j + 3] == hex_digit_in_case(d.2, upper.2),
        t[j + 4] == hex_digit_in_case(d.3, upper.3),
        is_char_code(d.0 * 4096 + d.1 * 256 + d.2 * 16 + d.3),
    ensures
        escape_at(t, j) == Some((((d.0 * 4096 + d.1 * 256 + d.2 * 16 + d.3) as nat) as char, j + 5)),
{
    law_hex_digit_value(d.0, upper.0);
    law_hex_digit_value(d.1, upper.1);
    law_hex_digit_value(d.2, upper.2);
    law_hex_digit_value(d.3, upper.3);
    assert(hex_number(t, j + 1, 0) == Some(0nat));
    assert(t[j + 1 + 1 - 1] == t[j + 1]);
    assert(hex_number(t, j + 1, 1) == Some(d.0));
    assert(hex_number(t, j + 1, 2) == Some(d.0 * 16 + d.1));
    assert(hex_number(t, j + 1, 3) == Some((d.0 * 16 + d.1) * 16 + d.2));
    assert(hex_number(t, j + 1, 4) == Some(((d.0 * 16 + d.1) * 16 + d.2) * 16 + d.3));
    assert(((d.0 * 16 + d.1) * 16 + d.2) * 16 + d.3 == d.0 * 4096 + d.1 * 256 + d.2 * 16 + d.3)
        by (nonlinear_arith);
}

/// Every string that reads as a floating-point number is written
/// double-quoted, so that it reads back as a string.
pub proof fn law_float_quoted(s: Seq<char>)
    requires
        float_syntax(s),
    ensures
        must_quote(s),
        scalar_text(s) == escaped(s),
        scalar_text(s)[0] == '"',
{
}

/// Numbers written with decimal digits are written double-quoted: a run of
/// digits of any length, digits with a point, with or without a minus sign,
/// and digits with an exponent.
pub proof fn law_numbers_quoted(a: Seq<char>, b: Seq<char>)
    requires
        a.len() > 0,
        b.len() > 0,
        forall|i: int| 0 <= i < a.len() ==> '0' <= #[trigger] a[i] && a[i] <= '9',
        forall|i: int| 0 <= i < b.len() ==> '0' <= #[trigger] b[i] && b[i] <= '9',
    ensures
        scalar_text(a)[0] == '"',
        scalar_text(a + seq!['.'] + b)[0] == '"',
        scalar_text(seq!['-'] + a + seq!['.'] + b)[0] == '"',
        scalar_text(a + seq!['e'] + b)[0] == '"',
        scalar_text(a + seq!['E', '-'] + b)[0] == '"',
{
    assert(all_digits(a));
    assert(all_digits(b));

    assert(a.take(a.len() as int) =~= a);
    assert(number_syntax(a));
    law_float_quoted(a);

    let p = a + seq!['.'] + b;
    assert(p.take(a.len() as int) =~= a);
    assert(p.skip(a.len() as int + 1) =~= b);
    assert(p[a.len() as int] == '.');
    assert(mantissa_syntax(p));
    assert(p.take(p.len() as int) =~= p);
    assert(number_syntax(p));
    assert(!(p[0] == '+' || p[0] == '-'));
    law_float_quoted(p);
    let m = seq!['-'] + a + seq!['.'] + b;
    assert(m.drop_first() =~= p);
    law_float_quoted(m);

    let x = a + seq!['e'] + b;
    assert(x.take(a.len() as int) =~= a);
    assert(x.skip(a.len() as int + 1) =~= b);
    assert(is_exp(x[a.len() as int]));
    assert(exponent_syntax(b));
    assert(number_syntax(x));
    law_float_quoted(x);
    let y = a + seq!['E', '-'] + b;
    assert(y.take(a.len() as int) =~= a);
    assert(y.skip(a.len() as int + 1) =~= seq!['-'] + b);
    assert((seq!['-'] + b).drop_first() =~= b);
    assert(exponent_syntax(seq!['-'] + b));
    assert(is_exp(y[a.len() as int]));
    assert(number_syntax(y));
    law_float_quoted(y);
}

} // verus!
