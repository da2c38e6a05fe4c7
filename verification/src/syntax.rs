//! What a StrictYAML text denotes: its lines, and the documents (or the
//! reading error) that the reader gives for them.
use vstd::prelude::*;

use crate::error::Marker;
use crate::parser::ScanError;
use crate::quote::{blank_or_comment, read_double, read_inline, read_single, trim_end};

verus! {

/// A node of a document, as a value.
pub enum NodeModel {
    Scalar(Seq<char>, Marker),
    Sequence(Seq<NodeModel>, Marker, Marker),
    Mapping(Seq<EntryModel>, Marker, Marker),
}

/// An entry of a block mapping, as a value.
pub struct EntryModel {
    pub key: Seq<char>,
    pub key_mark: Marker,
    pub value: NodeModel,
}

/// A document, as a value: its root node, where it starts and where it ends.
pub struct DocumentModel {
    pub root: NodeModel,
    pub start: Marker,
    pub end: Marker,
}

/// The lines of a text, where each starts in it, and its length.
pub struct TextModel {
    pub lines: Seq<Seq<char>>,
    pub starts: Seq<nat>,
    pub total: nat,
}

/// The lines of `s`, each with the line feed that ends it left out, and
/// where each starts: every character extends the last line, and a line feed
/// starts a new one.
pub open spec fn raw_lines(s: Seq<char>) -> (Seq<Seq<char>>, Seq<nat>)
    decreases s.len(),
{
    if s.len() == 0 {
        (seq![Seq::<char>::empty()], seq![0nat])
    } else {
        let (ls, ss) = raw_lines(s.drop_last());
        if s.last() == '\n' {
            (ls.push(Seq::<char>::empty()), ss.push(s.len()))
        } else {
            (ls.update(ls.len() - 1, ls.last().push(s.last())), ss)
        }
    }
}

/// `t` without a carriage return that ends it.
pub open spec fn drop_cr(t: Seq<char>) -> Seq<char> {
    if t.len() > 0 && t.last() == '\r' {
        t.drop_last()
    } else {
        t
    }
}

/// The text `s` as lines: a line ends at a line feed, and a carriage return
/// before it is no part of the line.
pub open spec fn text_model(s: Seq<char>) -> TextModel {
    TextModel {
        lines: raw_lines(s).0.map_values(|t: Seq<char>| drop_cr(t)),
        starts: raw_lines(s).1,
        total: s.len(),
    }
}

/// The first position at or after `k` in `t` that holds no space.
pub open spec fn skip_spaces(t: Seq<char>, k: int) -> int
    decreases t.len() - k,
{
    if 0 <= k < t.len() && t[k] == ' ' {
        skip_spaces(t, k + 1)
    } else {
        k
    }
}

/// The number of spaces that start `t`.
pub open spec fn indent(t: Seq<char>) -> int {
    skip_spaces(t, 0)
}

/// Whether `t` has only spaces.
pub open spec fn all_spaces(t: Seq<char>) -> bool {
    indent(t) == t.len()
}

/// The first line at or after `l` that is not blank, or the number of lines.
pub open spec fn next_content(m: TextModel, l: int) -> int
    decreases m.lines.len() - l,
{
    if 0 <= l < m.lines.len() && blank_or_comment(m.lines[l]) {
        next_content(m, l + 1)
    } else {
        l
    }
}

/// Whether `t` is a document marker made of three `ch`.
pub open spec fn is_marker(t: Seq<char>, ch: char) -> bool {
    &&& t.len() >= 3
    &&& t[0] == ch && t[1] == ch && t[2] == ch
    &&& t.len() == 3 || t[3] == ' '
    &&& blank_or_comment(t.skip(3))
}

/// Whether `t` is a document start or end marker.
pub open spec fn is_any_marker(t: Seq<char>) -> bool {
    is_marker(t, '-') || is_marker(t, '.')
}

/// Whether line `l` exists, is no document marker, and is indented by
/// `ind`.
pub open spec fn content_at(m: TextModel, l: int, ind: int) -> bool {
    0 <= l < m.lines.len() && !is_any_marker(m.lines[l]) && indent(m.lines[l]) == ind
}

/// Whether line `l` exists, is no document marker, and is indented by more
/// than `c`.
pub open spec fn content_below(m: TextModel, l: int, c: int) -> bool {
    0 <= l < m.lines.len() && !is_any_marker(m.lines[l]) && indent(m.lines[l]) > c
}

/// The position of column `c` of line `l`.
pub open spec fn mark_at(m: TextModel, l: int, c: int) -> Marker {
    Marker { index: (m.starts[l] + c) as usize, line: (l + 1) as usize, col: c as usize }
}

/// The position of the first character of line `l` that is not a space, or,
/// past the last line, the end of the text.
pub open spec fn line_mark(m: TextModel, l: int) -> Marker {
    if l < m.lines.len() {
        mark_at(m, l, indent(m.lines[l]))
    } else {
        Marker {
            index: m.total as usize,
            line: m.lines.len() as usize,
            col: m.lines.last().len() as usize,
        }
    }
}

/// Whether `t` has a sequence entry indicator at column `c`.
pub open spec fn dash_at(t: Seq<char>, c: int) -> bool {
    0 <= c < t.len() && t[c] == '-' && (c + 1 == t.len() || t[c + 1] == ' ')
}

/// Whether `t` has a mapping value indicator (a colon before a space or the
/// end of the line) at column `i`.
pub open spec fn colon_at(t: Seq<char>, i: int) -> bool {
    0 <= i < t.len() && t[i] == ':' && (i + 1 == t.len() || t[i + 1] == ' ')
}

/// The first column at or after `i` of `t` that holds a mapping value
/// indicator or starts a comment, for a key that starts at column `c`.
pub open spec fn key_end(t: Seq<char>, i: int, c: int) -> int
    decreases t.len() - i,
{
    if 0 <= i < t.len() && !colon_at(t, i) && !(t[i] == '#' && i > c && t[i - 1] == ' ') {
        key_end(t, i + 1, c)
    } else {
        i
    }
}

/// The key of a mapping entry that starts at column `c` of `t`, and the
/// column after its colon: a quoted scalar, or plain text up to the colon
/// without trailing spaces.
pub open spec fn key_split(t: Seq<char>, c: int) -> Option<(Seq<char>, int)> {
    if t[c] == '"' || t[c] == '\'' {
        let q = if t[c] == '"' {
            read_double(t.skip(c), 1)
        } else {
            read_single(t.skip(c), 1)
        };
        match q {
            Some((s, e)) => {
                let k = skip_spaces(t, c + e);
                if colon_at(t, k) {
                    Some((s, k + 1))
                } else {
                    None
                }
            },
            None => None,
        }
    } else {
        let i = key_end(t, c, c);
        if colon_at(t, i) {
            Some((trim_end(t.subrange(c, i)), i + 1))
        } else {
            None
        }
    }
}

/// The error of a quoted scalar that does not end well, at column `c` of
/// line `l`.
pub open spec fn quote_error(m: TextModel, l: int, c: int) -> ScanError {
    ScanError { info: "found unexpected end of a quoted scalar", mark: mark_at(m, l, c) }
}

/// The scalar whose text runs from column `c` of line `l` to the end of the
/// line, and the line after it.
pub open spec fn inline_at(m: TextModel, l: int, c: int) -> Result<(NodeModel, int), ScanError> {
    match read_inline(m.lines[l].skip(c)) {
        Some(s) => Ok((NodeModel::Scalar(s, mark_at(m, l, c)), l + 1)),
        None => Err(quote_error(m, l, c)),
    }
}

/// The node that starts at column `c` of line `l`, where lines of the node
/// below line `l` are indented by at least `floor`, and the line after it.
pub open spec fn node_at(m: TextModel, l: int, c: int, floor: int) -> Result<
    (NodeModel, int),
    ScanError,
>
    decreases m.lines.len() - l, m.lines[l].len() - c, 3int,
{
    let t = m.lines[l];
    if dash_at(t, c) {
        sequence_at(m, l, c)
    } else if key_split(t, c) is Some {
        mapping_at(m, l, c)
    } else if t[c] == '|' {
        literal_at(m, l, c, floor)
    } else {
        inline_at(m, l, c)
    }
}

/// The block sequence whose first entry indicator is at column `c` of line
/// `l`, and the line after it.
pub open spec fn sequence_at(m: TextModel, l: int, c: int) -> Result<(NodeModel, int), ScanError>
    decreases m.lines.len() - l, m.lines[l].len() - c, 2int,
{
    match sequence_items(m, l, c) {
        Ok((items, next)) => Ok(
            (NodeModel::Sequence(items, mark_at(m, l, c), line_mark(m, next)), next),
        ),
        Err(e) => Err(e),
    }
}

/// The entry of a block sequence whose indicator is at column `c` of line
/// `l`: the node after the indicator, on the same line or indented below it,
/// else an empty scalar.
pub open spec fn sequence_item(m: TextModel, l: int, c: int) -> Result<(NodeModel, int), ScanError>
    decreases m.lines.len() - l, m.lines[l].len() - c, 0int,
{
    let t = m.lines[l];
    let c2 = skip_spaces(t, c + 1);
    if c2 >= t.len() || t[c2] == '#' {
        let nl = next_content(m, l + 1);
        if content_below(m, nl, c) {
            proof {
                lemma_next_content_grows(m, l + 1);
            }
            node_at(m, nl, indent(m.lines[nl]), c + 1)
        } else {
            Ok((NodeModel::Scalar(Seq::empty(), mark_at(m, l, c + 1)), l + 1))
        }
    } else {
        proof {
            lemma_skip_spaces_grows(t, c + 1);
        }
        node_at(m, l, c2, c + 1)
    }
}

/// The entries of a block sequence from the one whose indicator is at column
/// `c` of line `l` on, and the line after the sequence. (An entry always ends
/// after the line it starts on; `l < nl` states it for the recursion.)
pub open spec fn sequence_items(m: TextModel, l: int, c: int) -> Result<
    (Seq<NodeModel>, int),
    ScanError,
>
    decreases m.lines.len() - l, m.lines[l].len() - c, 1int,
{
    match sequence_item(m, l, c) {
        Err(e) => Err(e),
        Ok((item, next)) => {
            let nl = next_content(m, next);
            if l < nl && content_at(m, nl, c) && dash_at(m.lines[nl], c) {
                match sequence_items(m, nl, c) {
                    Ok((rest, end)) => Ok((seq![item] + rest, end)),
                    Err(e) => Err(e),
                }
            } else if content_below(m, nl, c) {
                Err(
                    ScanError {
                        info: "bad indentation of a sequence entry",
                        mark: mark_at(m, nl, indent(m.lines[nl])),
                    },
                )
            } else {
                Ok((seq![item], nl))
            }
        },
    }
}

/// The block mapping whose first key starts at column `c` of line `l`, and
/// the line after it.
pub open spec fn mapping_at(m: TextModel, l: int, c: int) -> Result<(NodeModel, int), ScanError>
    decreases m.lines.len() - l, m.lines[l].len() - c, 2int,
{
    match mapping_entries(m, l, c) {
        Ok((entries, next)) => Ok(
            (NodeModel::Mapping(entries, mark_at(m, l, c), line_mark(m, next)), next),
        ),
        Err(e) => Err(e),
    }
}

/// The value of a mapping entry whose key starts at column `c` of line `l`
/// and whose value (or its absence) starts at column `vc`: an inline scalar
/// or a literal block on the same line, else a node indented below, a
/// sequence at the key's own indentation, or an empty scalar.
pub open spec fn mapping_value(m: TextModel, l: int, c: int, vc: int) -> Result<
    (NodeModel, int),
    ScanError,
>
    decreases m.lines.len() - l, m.lines[l].len() - c, 0int,
{
    let t = m.lines[l];
    if vc >= t.len() || t[vc] == '#' {
        let nl = next_content(m, l + 1);
        proof {
            lemma_next_content_grows(m, l + 1);
        }
        if content_below(m, nl, c) {
            node_at(m, nl, indent(m.lines[nl]), c + 1)
        } else if content_at(m, nl, c) && dash_at(m.lines[nl], c) {
            sequence_at(m, nl, c)
        } else {
            Ok((NodeModel::Scalar(Seq::empty(), mark_at(m, l, vc)), l + 1))
        }
    } else if t[vc] == '|' {
        literal_at(m, l, vc, c + 1)
    } else {
        inline_at(m, l, vc)
    }
}

/// The entries of a block mapping from the one whose key starts at column `c`
/// of line `l` on, and the line after the mapping. (An entry always ends
/// after the line it starts on; `l < nl` states it for the recursion.)
pub open spec fn mapping_entries(m: TextModel, l: int, c: int) -> Result<
    (Seq<EntryModel>, int),
    ScanError,
>
    decreases m.lines.len() - l, m.lines[l].len() - c, 1int,
{
    let t = m.lines[l];
    match key_split(t, c) {
        None => Err(ScanError { info: "could not find expected ':'", mark: mark_at(m, l, c) }),
        Some((key, after)) => match mapping_value(m, l, c, skip_spaces(t, after)) {
            Err(e) => Err(e),
            Ok((value, next)) => {
                let entry = EntryModel { key, key_mark: mark_at(m, l, c), value };
                let nl = next_content(m, next);
                if l < nl && content_at(m, nl, c) && !dash_at(m.lines[nl], c) && key_split(
                    m.lines[nl],
                    c,
                ) is Some {
                    match mapping_entries(m, nl, c) {
                        Ok((rest, end)) => Ok((seq![entry] + rest, end)),
                        Err(e) => Err(e),
                    }
                } else if content_below(m, nl, c) {
                    Err(
                        ScanError {
                            info: "mapping values are not allowed in this context",
                            mark: mark_at(m, nl, indent(m.lines[nl])),
                        },
                    )
                } else {
                    Ok((seq![entry], nl))
                }
            },
        },
    }
}

/// The first line at or after `l` that has more than spaces, or the number
/// of lines.
pub open spec fn next_filled(m: TextModel, l: int) -> int
    decreases m.lines.len() - l,
{
    if 0 <= l < m.lines.len() && all_spaces(m.lines[l]) {
        next_filled(m, l + 1)
    } else {
        l
    }
}

/// Whether line `l` ends a literal block whose content is indented by `ci`:
/// it has more than spaces and is indented less, or is a document marker.
pub open spec fn ends_block(m: TextModel, l: int, ci: int) -> bool {
    let t = m.lines[l];
    !all_spaces(t) && (indent(t) < ci || (indent(t) == 0 && is_any_marker(t)))
}

/// The first line at or after `l` that ends a literal block whose content is
/// indented by `ci`, or the number of lines.
pub open spec fn block_end(m: TextModel, l: int, ci: int) -> int
    decreases m.lines.len() - l,
{
    if 0 <= l < m.lines.len() && !ends_block(m, l, ci) {
        block_end(m, l + 1, ci)
    } else {
        l
    }
}

/// The last line before `to` and at or after `from` that has more than
/// spaces, or `from - 1`.
pub open spec fn last_filled(m: TextModel, from: int, to: int) -> int
    decreases to - from,
{
    if to <= from {
        from - 1
    } else if !all_spaces(m.lines[to - 1]) {
        to - 1
    } else {
        last_filled(m, from, to - 1)
    }
}

/// The content of line `l` in a literal block indented by `ci`: nothing for
/// a line of spaces, else the line without its indentation.
pub open spec fn block_line(m: TextModel, l: int, ci: int) -> Seq<char> {
    if all_spaces(m.lines[l]) {
        Seq::empty()
    } else {
        m.lines[l].skip(ci)
    }
}

/// The content of the lines `from..to` of a literal block indented by `ci`,
/// joined by line feeds.
pub open spec fn block_text(m: TextModel, from: int, to: int, ci: int) -> Seq<char>
    decreases to - from,
{
    if to <= from {
        Seq::empty()
    } else if to == from + 1 {
        block_line(m, from, ci)
    } else {
        block_text(m, from, to - 1, ci) + seq!['\n'] + block_line(m, to - 1, ci)
    }
}

/// `n` line feeds.
pub open spec fn line_feeds(n: nat) -> Seq<char> {
    Seq::new(n, |i: int| '\n')
}

/// The literal block scalar whose indicator `|` is at column `bc` of line
/// `l`, with its chomping indicator (`-` strips the final line break, `+`
/// keeps the trailing ones), where lines of the block are indented by at
/// least `floor`.
pub open spec fn literal_at(m: TextModel, l: int, bc: int, floor: int) -> Result<
    (NodeModel, int),
    ScanError,
> {
    let t = m.lines[l];
    let (chomp, h) = if bc + 1 < t.len() && t[bc + 1] == '-' {
        (1int, bc + 2)
    } else if bc + 1 < t.len() && t[bc + 1] == '+' {
        (2int, bc + 2)
    } else {
        (0int, bc + 1)
    };
    if !blank_or_comment(t.skip(h)) {
        Err(ScanError { info: "invalid block scalar header", mark: mark_at(m, l, h) })
    } else {
        let j = next_filled(m, l + 1);
        if j >= m.lines.len() || indent(m.lines[j]) < floor || (indent(m.lines[j]) == 0
            && is_any_marker(m.lines[j])) {
            Ok((NodeModel::Scalar(Seq::empty(), mark_at(m, l, bc)), l + 1))
        } else {
            let ci = indent(m.lines[j]);
            let end = block_end(m, l + 1, ci);
            let last = last_filled(m, l + 1, end);
            let tail = if chomp == 0 {
                line_feeds(1)
            } else if chomp == 1 {
                Seq::empty()
            } else {
                line_feeds((end - last) as nat)
            };
            Ok((NodeModel::Scalar(block_text(m, l + 1, last + 1, ci) + tail, mark_at(m, l, bc)), end))
        }
    }
}

/// The first line at or after `l` that is neither blank nor a document end
/// marker, or the number of lines.
pub open spec fn skip_document_ends(m: TextModel, l: int) -> int
    decreases m.lines.len() - l,
{
    let k = next_content(m, l);
    if 0 <= k < m.lines.len() && is_marker(m.lines[k], '.') {
        proof {
            lemma_next_content_grows(m, l);
        }
        skip_document_ends(m, k + 1)
    } else {
        k
    }
}

/// The next document at or after line `l` and the line after it, or `None`
/// when only blank lines and document end markers remain: an optional start
/// marker, the root node (an empty scalar when there is none), and an
/// optional end marker.
pub open spec fn document_at(m: TextModel, l: int) -> Result<Option<(DocumentModel, int)>, ScanError> {
    let n = m.lines.len();
    let k = skip_document_ends(m, l);
    if k >= n {
        Ok(None)
    } else {
        let explicit = is_marker(m.lines[k], '-');
        let start = mark_at(m, k, 0);
        let body = if explicit {
            next_content(m, k + 1)
        } else {
            k
        };
        let root = if body >= n || (explicit && is_any_marker(m.lines[body])) {
            Ok((NodeModel::Scalar(Seq::empty(), start), k + 1))
        } else {
            node_at(m, body, indent(m.lines[body]), 0)
        };
        match root {
            Err(e) => Err(e),
            Ok((root, next)) => {
                let after = next_content(m, next);
                if after < n && !is_any_marker(m.lines[after]) {
                    Err(
                        ScanError {
                            info: "did not find expected <document start>",
                            mark: mark_at(m, after, indent(m.lines[after])),
                        },
                    )
                } else if after < n && is_marker(m.lines[after], '.') {
                    Ok(Some((DocumentModel { root, start, end: mark_at(m, after, 0) }, after + 1)))
                } else {
                    Ok(Some((DocumentModel { root, start, end: line_mark(m, after) }, after)))
                }
            },
        }
    }
}

/// The documents from line `l` on, and the reading error that stops them, if
/// any. (A document always ends after the line it is looked for at;
/// `l < next` states it for the recursion.)
pub open spec fn documents_from(m: TextModel, l: int) -> (Seq<DocumentModel>, Option<ScanError>)
    decreases m.lines.len() + 1 - l,
{
    match document_at(m, l) {
        Err(e) => (Seq::empty(), Some(e)),
        Ok(None) => (Seq::empty(), None),
        Ok(Some((d, next))) => if l < next <= m.lines.len() {
            let (ds, e) = documents_from(m, next);
            (seq![d] + ds, e)
        } else {
            (seq![d], None)
        },
    }
}

/// The documents of the text `s`, and the reading error that stops them, if
/// any.
pub open spec fn text_documents(s: Seq<char>) -> (Seq<DocumentModel>, Option<ScanError>) {
    documents_from(text_model(s), 0)
}

/// The position of the end of the text `s`.
pub open spec fn text_end(s: Seq<char>) -> Marker {
    line_mark(text_model(s), text_model(s).lines.len() as int)
}

pub proof fn lemma_skip_spaces_grows(t: Seq<char>, k: int)
    ensures
        skip_spaces(t, k) >= k,
        k <= t.len() ==> skip_spaces(t, k) <= t.len(),
    decreases t.len() - k,
{
    if 0 <= k < t.len() && t[k] == ' ' {
        lemma_skip_spaces_grows(t, k + 1);
    }
}

pub proof fn lemma_next_content_grows(m: TextModel, l: int)
    ensures
        next_content(m, l) >= l,
        l <= m.lines.len() ==> next_content(m, l) <= m.lines.len(),
    decreases m.lines.len() - l,
{
    if 0 <= l < m.lines.len() && blank_or_comment(m.lines[l]) {
        lemma_next_content_grows(m, l + 1);
    }
}

} // verus!
