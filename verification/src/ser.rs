//! Serialization: writing the values of serde's data model as StrictYAML text.
use vstd::prelude::*;

use crate::emit::{escape_str, escaped, must_quote, need_quotes, scalar_text};
use crate::error::{Error, decimal, push_decimal, push_str};
use crate::text::push_char;

verus! {

/// A serializer that writes StrictYAML text.
pub struct Serializer {
    out: String,
    level: i64,
    nested: bool,
    maybe_inline: bool,
}

/// What a serializer is: the text written so far, the nesting level of the
/// collection being written (`-1` at the top), whether the next entry follows
/// a sequence indicator on the same line, and whether a scalar written next
/// follows a key's colon on the same line.
pub struct SerializerView {
    pub output: Seq<char>,
    pub level: int,
    pub nested: bool,
    pub maybe_inline: bool,
}

impl View for Serializer {
    type V = SerializerView;

    closed spec fn view(&self) -> SerializerView {
        SerializerView {
            output: self.out@,
            level: self.level as int,
            nested: self.nested,
            maybe_inline: self.maybe_inline,
        }
    }
}

/// `n` spaces.
pub open spec fn spaces(n: nat) -> Seq<char> {
    Seq::new(n, |i: int| ' ')
}

/// The indentation of a line at nesting level `level`: two spaces a level.
pub open spec fn indent_text(level: int) -> Seq<char> {
    if level <= 0 {
        Seq::empty()
    } else {
        spaces((2 * level) as nat)
    }
}

/// The decimal text of the integer `v`, with a `-` when it is negative.
pub open spec fn integer_text(v: int) -> Seq<char> {
    if v < 0 {
        seq!['-'] + decimal((-v) as nat)
    } else {
        decimal(v as nat)
    }
}

/// The state after writing the scalar string `s`: a space first when it
/// follows a key's colon, then the string, quoted when it must be.
pub open spec fn after_scalar(v: SerializerView, s: Seq<char>) -> SerializerView {
    SerializerView {
        output: v.output + (if v.maybe_inline {
            seq![' ']
        } else {
            Seq::empty()
        }) + scalar_text(s),
        maybe_inline: false,
        ..v
    }
}

/// The state after starting a collection of `len` items (`None` when the
/// length is not known), which an empty collection writes as `empty`.
pub open spec fn after_collection_start(
    v: SerializerView,
    len: Option<usize>,
    empty: Seq<char>,
) -> SerializerView {
    if len == Some(0usize) {
        SerializerView { output: v.output + empty, maybe_inline: false, ..v }
    } else {
        SerializerView { level: v.level + 1, maybe_inline: false, ..v }
    }
}

/// The state of a serializer that has written the start of a document.
pub open spec fn started() -> SerializerView {
    SerializerView { output: "---"@, level: -1, nested: false, maybe_inline: false }
}

/// The state after ending a key: its colon is written, and a scalar written
/// next follows on the same line.
pub open spec fn after_key_end(v: SerializerView) -> SerializerView {
    SerializerView { output: v.output + ":"@, maybe_inline: true, ..v }
}

/// The state after starting an element of a sequence: its line, unless it
/// follows a sequence indicator, then its own indicator `- `.
pub open spec fn after_element_start(v: SerializerView) -> SerializerView {
    let v1 = after_line_start(v);
    SerializerView { output: v1.output + "- "@, nested: true, ..v1 }
}

/// The state after ending an element of a sequence.
pub open spec fn after_element_end(v: SerializerView) -> SerializerView {
    SerializerView { nested: false, ..v }
}

/// The state after writing the key of a struct field: its line, unless it
/// follows a sequence indicator, the indentation once more, the key and its
/// colon.
pub open spec fn after_field_key(v: SerializerView, key: Seq<char>) -> SerializerView {
    let v1 = after_line_start(v);
    let v2 = SerializerView { output: v1.output + indent_text(v1.level), ..v1 };
    after_key_end(after_scalar(v2, key))
}

/// The state after ending a collection: one level up.
pub open spec fn after_end(v: SerializerView) -> SerializerView {
    SerializerView { level: v.level - 1, ..v }
}

/// The word that writes the boolean `b`.
pub open spec fn bool_word(b: bool) -> Seq<char> {
    if b {
        "true"@
    } else {
        "false"@
    }
}

/// The state after starting a line of an entry: nothing when the entry follows
/// a sequence indicator, else a line break and the indentation.
pub open spec fn after_line_start(v: SerializerView) -> SerializerView {
    if v.nested {
        SerializerView { nested: false, ..v }
    } else {
        SerializerView { output: v.output + seq!['\n'] + indent_text(v.level), ..v }
    }
}

/// The trusted name of the message that `std::str::from_utf8` gives for the
/// bytes `bytes` that are not UTF-8.
pub uninterp spec fn utf8_error_message(bytes: Seq<u8>) -> Seq<char>;

/// `std::str::from_utf8`, as an owned string or the text of its error.
/// Trusted: the result is `Ok` exactly for valid UTF-8 (vstd's `valid_utf8`),
/// and then holds the decoded characters; the error's text is a function of
/// the bytes alone, named `utf8_error_message`.
#[verifier::external_body]
fn utf8_to_string(bytes: &[u8]) -> (r: Result<String, String>)
    ensures
        match r {
            Ok(s) => vstd::utf8::valid_utf8(bytes@) && s@ == vstd::utf8::decode_utf8(bytes@),
            Err(m) => !vstd::utf8::valid_utf8(bytes@) && m@ == utf8_error_message(bytes@),
        },
{
    match std::str::from_utf8(bytes) {
        Ok(s) => Ok(s.to_string()),
        Err(e) => Err(e.to_string()),
    }
}

/// Writes the scalar string `v`: a space first when it follows a key's colon,
/// then `v`, double-quoted with escapes when it must be.
pub fn write_str(serializer: &mut Serializer, v: &str)
    ensures
        final(serializer)@ == after_scalar(old(serializer)@, v@),
{
    let ghost start = serializer@;
    if serializer.maybe_inline {
        push_char(&mut serializer.out, ' ');
        serializer.maybe_inline = false;
    }
    if need_quotes(v) {
        escape_str(&mut serializer.out, v);
    } else {
        push_str(&mut serializer.out, v);
    }
    proof {
        assert(serializer@.output =~= after_scalar(start, v@).output);
    }
}

impl Serializer {
    /// A serializer that has written the start of a document, `---`.
    pub fn new() -> (r: Serializer)
        ensures
            r@ == started(),
    {
        let mut out = String::new();
        push_str(&mut out, "---");
        Serializer { out, level: -1, nested: false, maybe_inline: false }
    }

    /// The text written so far.
    pub fn output(&self) -> (r: String)
        ensures
            r@ == self@.output,
    {
        self.out.clone()
    }

    /// The nesting level of the collection being written, `-1` at the top.
    pub fn level(&self) -> (r: i64)
        ensures
            r == self@.level,
    {
        self.level
    }

    /// Writes the indentation of the current level.
    fn write_indent(&mut self)
        ensures
            final(self)@ == (SerializerView {
                output: old(self)@.output + indent_text(old(self)@.level),
                ..old(self)@
            }),
    {
        let ghost start = self.out@;
        if self.level <= 0 {
            proof {
                assert(self.out@ =~= start + indent_text(self.level as int));
            }
            return;
        }
        let mut i: i64 = 0;
        while i < self.level
            invariant
                0 <= i <= self.level,
                self.level == old(self).level,
                self.nested == old(self).nested,
                self.maybe_inline == old(self).maybe_inline,
                start == old(self).out@,
                self.out@ == start + spaces((2 * i) as nat),
            decreases self.level - i,
        {
            push_char(&mut self.out, ' ');
            push_char(&mut self.out, ' ');
            proof {
                assert(self.out@ =~= start + spaces((2 * (i + 1)) as nat));
            }
            i = i + 1;
        }
    }

    /// Writes a boolean.
    pub fn serialize_bool(&mut self, v: bool)
        ensures
            final(self)@ == after_scalar(old(self)@, bool_word(v)),
    {
        if v {
            write_str(self, "true");
        } else {
            write_str(self, "false");
        }
    }

    /// Writes an integer in decimal.
    fn serialize_integer(&mut self, neg: bool, m: u128)
        ensures
            final(self)@ == after_scalar(old(self)@, integer_text(if neg {
                -(m as int)
            } else {
                m as int
            })),
    {
        let mut text = String::new();
        if neg && m > 0 {
            push_char(&mut text, '-');
        }
        push_decimal(&mut text, m);
        proof {
            let v = if neg {
                -(m as int)
            } else {
                m as int
            };
            assert(text@ =~= integer_text(v));
        }
        write_str(self, text.as_str());
    }

    /// The sign and magnitude of `v`.
    fn split_signed(v: i128) -> (r: (bool, u128))
        ensures
            (if r.0 {
                -(r.1 as int)
            } else {
                r.1 as int
            }) == v,
    {
        if v < 0 {
            if v == i128::MIN {
                (true, (i128::MAX as u128) + 1)
            } else {
                (true, (-v) as u128)
            }
        } else {
            (false, v as u128)
        }
    }

    /// Writes an 8-bit signed integer.
    pub fn serialize_i8(&mut self, v: i8)
        ensures
            final(self)@ == after_scalar(old(self)@, integer_text(v as int)),
    {
        let (neg, m) = Self::split_signed(v as i128);
        self.serialize_integer(neg, m);
    }

    /// Writes a 16-bit signed integer.
    pub fn serialize_i16(&mut self, v: i16)
        ensures
            final(self)@ == after_scalar(old(self)@, integer_text(v as int)),
    {
        let (neg, m) = Self::split_signed(v as i128);
        self.serialize_integer(neg, m);
    }

    /// Writes a 32-bit signed integer.
    pub fn serialize_i32(&mut self, v: i32)
        ensures
            final(self)@ == after_scalar(old(self)@, integer_text(v as int)),
    {
        let (neg, m) = Self::split_signed(v as i128);
        self.serialize_integer(neg, m);
    }

    /// Writes a 64-bit signed integer.
    pub fn serialize_i64(&mut self, v: i64)
        ensures
            final(self)@ == after_scalar(old(self)@, integer_text(v as int)),
    {
        let (neg, m) = Self::split_signed(v as i128);
        self.serialize_integer(neg, m);
    }

    /// Writes an 8-bit unsigned integer.
    pub fn serialize_u8(&mut self, v: u8)
        ensures
            final(self)@ == after_scalar(old(self)@, integer_text(v as int)),
    {
        self.serialize_integer(false, v as u128);
    }

    /// Writes a 16-bit unsigned integer.
    pub fn serialize_u16(&mut self, v: u16)
        ensures
            final(self)@ == after_scalar(old(self)@, integer_text(v as int)),
    {
        self.serialize_integer(false, v as u128);
    }

    /// Writes a 32-bit unsigned integer.
    pub fn serialize_u32(&mut self, v: u32)
        ensures
            final(self)@ == after_scalar(old(self)@, integer_text(v as int)),
    {
        self.serialize_integer(false, v as u128);
    }

    /// Writes a 64-bit unsigned integer.
    pub fn serialize_u64(&mut self, v: u64)
        ensures
            final(self)@ == after_scalar(old(self)@, integer_text(v as int)),
    {
        self.serialize_integer(false, v as u128);
    }

    /// Writes a character.
    pub fn serialize_char(&mut self, v: char)
        ensures
            final(self)@ == after_scalar(old(self)@, seq![v]),
    {
        let mut text = String::new();
        push_char(&mut text, v);
        proof {
            assert(text@ =~= seq![v]);
        }
        write_str(self, text.as_str());
    }

    /// Writes a string.
    pub fn serialize_str(&mut self, v: &str)
        ensures
            final(self)@ == after_scalar(old(self)@, v@),
    {
        write_str(self, v);
    }

    /// Writes bytes as the string they encode in UTF-8; bytes that are not
    /// UTF-8 are an error and nothing is written.
    pub fn serialize_bytes(&mut self, v: &[u8]) -> (r: Result<(), Error>)
        ensures
            vstd::utf8::valid_utf8(v@) ==> r is Ok && final(self)@ == after_scalar(
                old(self)@,
                vstd::utf8::decode_utf8(v@),
            ),
            !vstd::utf8::valid_utf8(v@) ==> final(self)@ == old(self)@ && (r matches Err(
                Error::Message(m),
            ) && m@ == utf8_error_message(v@)),
    {
        match utf8_to_string(v) {
            Ok(s) => {
                write_str(self, s.as_str());
                Ok(())
            },
            Err(m) => Err(Error::Message(m)),
        }
    }

    /// Starts a sequence of `len` items: an empty one is written `[]`,
    /// any other goes one level deeper.
    pub fn serialize_seq(&mut self, len: Option<usize>)
        requires
            old(self)@.level < i64::MAX,
        ensures
            final(self)@ == after_collection_start(old(self)@, len, "[]"@),
    {
        if len == Some(0usize) {
            push_str(&mut self.out, "[]");
        } else {
            self.level = self.level + 1;
        }
        self.maybe_inline = false;
    }

    /// Starts a mapping of `len` entries: an empty one is written `{}`,
    /// any other goes one level deeper.
    pub fn serialize_map(&mut self, len: Option<usize>)
        requires
            old(self)@.level < i64::MAX,
        ensures
            final(self)@ == after_collection_start(old(self)@, len, "{}"@),
    {
        if len == Some(0usize) {
            push_str(&mut self.out, "{}");
        } else {
            self.level = self.level + 1;
        }
        self.maybe_inline = false;
    }

    /// Starts an element of a sequence: on its own line unless it follows a
    /// sequence indicator, then the indicator `- `.
    pub fn serialize_element(&mut self)
        ensures
            final(self)@ == after_element_start(old(self)@),
    {
        if !self.nested {
            push_char(&mut self.out, '\n');
            self.write_indent();
        }
        push_str(&mut self.out, "- ");
        self.nested = true;
        proof {
            assert(self@.output =~= after_line_start(old(self)@).output + "- "@);
        }
    }

    /// Ends an element of a sequence.
    pub fn end_element(&mut self)
        ensures
            final(self)@ == after_element_end(old(self)@),
    {
        self.nested = false;
    }

    /// Ends a sequence or a mapping: one level up.
    pub fn end(&mut self)
        requires
            old(self)@.level > i64::MIN,
        ensures
            final(self)@ == after_end(old(self)@),
    {
        self.level = self.level - 1;
    }

    /// Starts a key of a mapping: on its own line unless it follows a
    /// sequence indicator.
    pub fn serialize_key(&mut self)
        ensures
            final(self)@ == after_line_start(old(self)@),
    {
        if self.nested {
            self.nested = false;
        } else {
            push_char(&mut self.out, '\n');
            self.write_indent();
            proof {
                assert(self@.output =~= after_line_start(old(self)@).output);
            }
        }
    }

    /// Ends a key of a mapping: the colon; a scalar value follows on the same
    /// line.
    pub fn end_key(&mut self)
        ensures
            final(self)@ == after_key_end(old(self)@),
    {
        push_str(&mut self.out, ":");
        self.maybe_inline = true;
    }

    /// Writes the key of a struct field: on its own line unless it follows a
    /// sequence indicator, indented (once more), then the key and its colon; a
    /// scalar value follows on the same line.
    pub fn serialize_field(&mut self, key: &str)
        ensures
            final(self)@ == after_field_key(old(self)@, key@),
    {
        self.serialize_key();
        self.write_indent();
        write_str(self, key);
        self.end_key();
    }
}

} // verus!
