//! Reading StrictYAML text into documents and into the stream of events that
//! the deserializer consumes.
use vstd::prelude::*;

use crate::error::{Error, Marker, push_decimal, push_str};
use crate::event::Event;
use crate::quote::{read_double_of, read_inline_of, read_single_of, rest_is_blank, trim_end};
use crate::syntax::{DocumentModel, EntryModel, NodeModel, TextModel, drop_cr, raw_lines, text_model};
use crate::text::push_char;

verus! {

/// A node of a document.
#[derive(Debug)]
pub enum Node {
    /// A scalar with its text and position.
    Scalar(String, Marker),
    /// A block sequence with its items, where it starts and where it ends.
    Sequence(Vec<Node>, Marker, Marker),
    /// A block mapping with its entries, where it starts and where it ends.
    Mapping(Vec<Entry>, Marker, Marker),
}

/// An entry of a block mapping: a scalar key and its value.
#[derive(Debug)]
pub struct Entry {
    pub key: String,
    pub key_mark: Marker,
    pub value: Node,
}

/// A document: its root node, where it starts and where it ends.
#[derive(Debug)]
pub struct Document {
    pub root: Node,
    pub start: Marker,
    pub end: Marker,
}

/// A node as a value.
pub open spec fn node_model(n: Node) -> NodeModel
    decreases n,
{
    match n {
        Node::Scalar(s, m) => NodeModel::Scalar(s@, m),
        Node::Sequence(items, s, e) => NodeModel::Sequence(items_model(items@), s, e),
        Node::Mapping(entries, s, e) => NodeModel::Mapping(entries_model(entries@), s, e),
    }
}

/// The nodes `items` as values.
pub open spec fn items_model(items: Seq<Node>) -> Seq<NodeModel>
    decreases items,
{
    if items.len() == 0 {
        Seq::empty()
    } else {
        items_model(items.drop_last()).push(node_model(items.last()))
    }
}

/// The mapping entries `entries` as values.
pub open spec fn entries_model(entries: Seq<Entry>) -> Seq<EntryModel>
    decreases entries,
{
    if entries.len() == 0 {
        Seq::empty()
    } else {
        entries_model(entries.drop_last()).push(
            EntryModel {
                key: entries.last().key@,
                key_mark: entries.last().key_mark,
                value: node_model(entries.last().value),
            },
        )
    }
}

/// A document as a value.
pub open spec fn document_model(d: Document) -> DocumentModel {
    DocumentModel { root: node_model(d.root), start: d.start, end: d.end }
}

/// The documents `docs` as values.
pub open spec fn documents_model(docs: Seq<Document>) -> Seq<DocumentModel>
    decreases docs.len(),
{
    if docs.len() == 0 {
        Seq::empty()
    } else {
        documents_model(docs.drop_last()).push(document_model(docs.last()))
    }
}

/// The result of reading a document, as a value.
pub open spec fn document_result(r: Result<Option<(Document, usize)>, ScanError>) -> Result<
    Option<(DocumentModel, int)>,
    ScanError,
> {
    match r {
        Ok(Some((d, next))) => Ok(Some((document_model(d), next as int))),
        Ok(None) => Ok(None),
        Err(e) => Err(e),
    }
}

/// Whether the reading error `e` (or its absence) is reported as `f`.
pub open spec fn failure_reported(e: Option<ScanError>, f: Option<Error>) -> bool {
    match e {
        Some(e) => f matches Some(Error::Message(msg)) && msg@ == scan_error_message(e),
        None => f is None,
    }
}

proof fn lemma_next_content_idem(m: TextModel, l: int)
    ensures
        crate::syntax::next_content(m, crate::syntax::next_content(m, l))
            == crate::syntax::next_content(m, l),
    decreases m.lines.len() - l,
{
    if 0 <= l < m.lines.len() && crate::quote::blank_or_comment(m.lines[l]) {
        lemma_next_content_idem(m, l + 1);
    }
}

proof fn lemma_documents_model_push(docs: Seq<Document>, d: Document)
    ensures
        documents_model(docs.push(d)) == documents_model(docs).push(document_model(d)),
{
    assert(docs.push(d).drop_last() =~= docs);
}

/// The result of reading a node, as a value.
pub open spec fn node_result(r: Result<(Node, usize), ScanError>) -> Result<(NodeModel, int), ScanError> {
    match r {
        Ok((n, next)) => Ok((node_model(n), next as int)),
        Err(e) => Err(e),
    }
}

/// The result `r` with the items `ps` put before its items.
pub open spec fn prefixed<T>(ps: Seq<T>, r: Result<(Seq<T>, int), ScanError>) -> Result<
    (Seq<T>, int),
    ScanError,
> {
    match r {
        Ok((rest, end)) => Ok((ps + rest, end)),
        Err(e) => Err(e),
    }
}

proof fn lemma_prefixed_push<T>(ps: Seq<T>, x: T, r: Result<(Seq<T>, int), ScanError>)
    ensures
        prefixed(ps, prefixed(seq![x], r)) == prefixed(ps.push(x), r),
{
    match r {
        Ok((rest, end)) => {
            assert(ps + (seq![x] + rest) =~= ps.push(x) + rest);
        },
        Err(_) => {},
    }
}

proof fn lemma_items_model_push(items: Seq<Node>, x: Node)
    ensures
        items_model(items.push(x)) == items_model(items).push(node_model(x)),
{
    assert(items.push(x).drop_last() =~= items);
}

proof fn lemma_entries_model_push(entries: Seq<Entry>, x: Entry)
    ensures
        entries_model(entries.push(x)) == entries_model(entries).push(
            EntryModel { key: x.key@, key_mark: x.key_mark, value: node_model(x.value) },
        ),
{
    assert(entries.push(x).drop_last() =~= entries);
}

/// The events of a node, in order.
pub open spec fn node_events(n: Node) -> Seq<(Event, Marker)>
    decreases n,
{
    match n {
        Node::Scalar(s, m) => seq![(Event::Scalar(s), m)],
        Node::Sequence(items, s, e) => seq![(Event::SequenceStart, s)] + items_events(items@)
            + seq![(Event::SequenceEnd, e)],
        Node::Mapping(entries, s, e) => seq![(Event::MappingStart, s)] + entries_events(entries@)
            + seq![(Event::MappingEnd, e)],
    }
}

/// The events of the nodes `items`, one after the other.
pub open spec fn items_events(items: Seq<Node>) -> Seq<(Event, Marker)>
    decreases items,
{
    if items.len() == 0 {
        Seq::empty()
    } else {
        items_events(items.drop_last()) + node_events(items.last())
    }
}

/// The events of the mapping entries `entries`: each key as a scalar, then
/// its value.
pub open spec fn entries_events(entries: Seq<Entry>) -> Seq<(Event, Marker)>
    decreases entries,
{
    if entries.len() == 0 {
        Seq::empty()
    } else {
        entries_events(entries.drop_last()) + seq![
            (Event::Scalar(entries.last().key), entries.last().key_mark),
        ] + node_events(entries.last().value)
    }
}

/// The events of a document.
pub open spec fn document_events(d: Document) -> Seq<(Event, Marker)> {
    seq![(Event::DocumentStart, d.start)] + node_events(d.root) + seq![(Event::DocumentEnd, d.end)]
}

/// The events of the documents `docs`, one after the other.
pub open spec fn documents_events(docs: Seq<Document>) -> Seq<(Event, Marker)>
    decreases docs.len(),
{
    if docs.len() == 0 {
        Seq::empty()
    } else {
        documents_events(docs.drop_last()) + document_events(docs.last())
    }
}

/// The events of a stream of the documents `docs`: the start of the stream,
/// the documents, and, when the stream was read to its end, the end of the
/// stream at `end`.
pub open spec fn stream_events(docs: Seq<Document>, start: Marker, end: Option<Marker>) -> Seq<
    (Event, Marker),
> {
    seq![(Event::StreamStart, start)] + documents_events(docs) + match end {
        Some(m) => seq![(Event::StreamEnd, m)],
        None => Seq::empty(),
    }
}

/// Appends the events of `n` to `out`.
#[verifier::loop_isolation(false)]
pub fn push_node_events(n: &Node, out: &mut Vec<(Event, Marker)>)
    ensures
        final(out)@ == old(out)@ + node_events(*n),
    decreases n,
{
    let ghost base = out@;
    match n {
        Node::Scalar(s, m) => {
            out.push((Event::Scalar(s.clone()), *m));
            proof {
                assert(out@ =~= base + node_events(*n));
            }
        },
        Node::Sequence(items, s, e) => {
            out.push((Event::SequenceStart, *s));
            let mut i: usize = 0;
            while i < items.len()
                invariant
                    i <= items@.len(),
                    out@ == base + seq![(Event::SequenceStart, *s)] + items_events(
                        items@.take(i as int),
                    ),
                decreases items@.len() - i,
            {
                push_node_events(&items[i], out);
                proof {
                    let t = items@.take(i + 1);
                    assert(t.drop_last() =~= items@.take(i as int));
                    assert(t.last() == items@[i as int]);
                }
                i = i + 1;
            }
            out.push((Event::SequenceEnd, *e));
            proof {
                assert(items@.take(i as int) =~= items@);
                assert(out@ =~= base + node_events(*n));
            }
        },
        Node::Mapping(entries, s, e) => {
            out.push((Event::MappingStart, *s));
            let mut i: usize = 0;
            while i < entries.len()
                invariant
                    i <= entries@.len(),
                    out@ == base + seq![(Event::MappingStart, *s)] + entries_events(
                        entries@.take(i as int),
                    ),
                decreases entries@.len() - i,
            {
                let entry = &entries[i];
                out.push((Event::Scalar(entry.key.clone()), entry.key_mark));
                push_node_events(&entry.value, out);
                proof {
                    let t = entries@.take(i + 1);
                    assert(t.drop_last() =~= entries@.take(i as int));
                    assert(t.last() == entries@[i as int]);
                    assert(out@ =~= base + seq![(Event::MappingStart, *s)] + entries_events(t));
                }
                i = i + 1;
            }
            out.push((Event::MappingEnd, *e));
            proof {
                assert(entries@.take(i as int) =~= entries@);
                assert(out@ =~= base + node_events(*n));
            }
        },
    }
}

/// A reading error: what went wrong and where.
pub struct ScanError {
    pub info: &'static str,
    pub mark: Marker,
}

/// The message of a reading error: what went wrong, then its line and its
/// column (counted from 1).
pub open spec fn scan_error_message(e: ScanError) -> Seq<char> {
    e.info@ + " at line "@ + crate::error::decimal(e.mark.line as nat) + " column "@
        + crate::error::decimal((e.mark.col + 1) as nat)
}

impl ScanError {
    /// The deserialization error that reports this reading error.
    pub fn to_error(&self) -> (r: Error)
        ensures
            r matches Error::Message(m) && m@ == scan_error_message(*self),
    {
        let mut out = String::new();
        push_str(&mut out, self.info);
        push_str(&mut out, " at line ");
        push_decimal(&mut out, self.mark.line as u128);
        push_str(&mut out, " column ");
        push_decimal(&mut out, self.mark.col as u128 + 1);
        proof {
            assert(out@ =~= scan_error_message(*self));
        }
        Error::Message(out)
    }
}

/// When every character of `t` is a space, `t` is blank.
proof fn lemma_spaces_blank(t: Seq<char>)
    requires
        forall|k: int| 0 <= k < t.len() ==> t[k] == ' ',
    ensures
        crate::quote::blank_or_comment(t),
    decreases t.len(),
{
    if t.len() > 0 {
        lemma_spaces_blank(t.drop_first());
    }
}

/// Appends `k` line feeds to `out`.
fn push_line_feeds(out: &mut String, k: usize)
    ensures
        final(out)@ == old(out)@ + crate::syntax::line_feeds(k as nat),
{
    let ghost start = out@;
    let mut i: usize = 0;
    while i < k
        invariant
            i <= k,
            out@ == start + crate::syntax::line_feeds(i as nat),
        decreases k - i,
    {
        push_char(out, '\n');
        i = i + 1;
        proof {
            assert(crate::syntax::line_feeds(i as nat) =~= crate::syntax::line_feeds(
                (i - 1) as nat,
            ).push('\n'));
        }
    }
}

/// Appends the characters of `t` from position `from` on to `out`.
fn push_chars_from(out: &mut String, t: &Vec<char>, from: usize)
    requires
        from <= t@.len(),
    ensures
        final(out)@ == old(out)@ + t@.skip(from as int),
{
    let ghost start = out@;
    let mut k: usize = from;
    while k < t.len()
        invariant
            from <= k <= t@.len(),
            out@ == start + t@.subrange(from as int, k as int),
        decreases t@.len() - k,
    {
        push_char(out, t[k]);
        k = k + 1;
        proof {
            assert(t@.subrange(from as int, k as int) =~= t@.subrange(from as int, k - 1).push(
                t@[k - 1],
            ));
        }
    }
    proof {
        assert(t@.subrange(from as int, k as int) =~= t@.skip(from as int));
    }
}

/// The lines after the last line with more than spaces have only spaces.
proof fn lemma_last_filled_spaces(m: TextModel, a: int, j: int)
    requires
        a <= j,
    ensures
        a - 1 <= crate::syntax::last_filled(m, a, j) < j,
        forall|k: int|
            crate::syntax::last_filled(m, a, j) < k < j ==> #[trigger] crate::syntax::all_spaces(
                m.lines[k],
            ),
        crate::syntax::last_filled(m, a, j) >= a ==> !crate::syntax::all_spaces(
            m.lines[crate::syntax::last_filled(m, a, j)],
        ),
    decreases j - a,
{
    if j > a && crate::syntax::all_spaces(m.lines[j - 1]) {
        lemma_last_filled_spaces(m, a, j - 1);
    }
}

/// Lines of only spaces after line `p` add one line feed each to a literal
/// block.
proof fn lemma_block_text_spaces(m: TextModel, a: int, p: int, q: int, ci: int)
    requires
        a <= p < q,
        forall|k: int| p < k < q ==> #[trigger] crate::syntax::all_spaces(m.lines[k]),
    ensures
        crate::syntax::block_text(m, a, q, ci) == crate::syntax::block_text(m, a, p + 1, ci)
            + crate::syntax::line_feeds((q - 1 - p) as nat),
    decreases q - p,
{
    if q == p + 1 {
        assert(crate::syntax::line_feeds(0) =~= Seq::<char>::empty());
        assert(crate::syntax::block_text(m, a, p + 1, ci) + crate::syntax::line_feeds(0)
            =~= crate::syntax::block_text(m, a, p + 1, ci));
    } else {
        lemma_block_text_spaces(m, a, p, q - 1, ci);
        assert(crate::syntax::all_spaces(m.lines[q - 1]));
        assert(crate::syntax::block_line(m, q - 1, ci) =~= Seq::<char>::empty());
        assert(crate::syntax::line_feeds((q - 2 - p) as nat) + seq!['\n']
            =~= crate::syntax::line_feeds((q - 1 - p) as nat));
        assert(crate::syntax::block_text(m, a, q, ci) =~= crate::syntax::block_text(m, a, p + 1, ci)
            + crate::syntax::line_feeds((q - 1 - p) as nat));
    }
}

/// A literal block of only lines of spaces is the line feeds between them.
proof fn lemma_block_text_blank(m: TextModel, a: int, q: int, ci: int)
    requires
        a < q,
        forall|k: int| a <= k < q ==> #[trigger] crate::syntax::all_spaces(m.lines[k]),
    ensures
        crate::syntax::block_text(m, a, q, ci) == crate::syntax::line_feeds((q - a - 1) as nat),
    decreases q - a,
{
    assert(crate::syntax::all_spaces(m.lines[q - 1]));
    assert(crate::syntax::block_line(m, q - 1, ci) =~= Seq::<char>::empty());
    if q == a + 1 {
        assert(crate::syntax::line_feeds(0) =~= Seq::<char>::empty());
    } else {
        lemma_block_text_blank(m, a, q - 1, ci);
        assert(crate::syntax::line_feeds((q - a - 2) as nat) + seq!['\n']
            =~= crate::syntax::line_feeds((q - a - 1) as nat));
        assert(crate::syntax::block_text(m, a, q, ci) =~= crate::syntax::line_feeds(
            (q - a - 1) as nat,
        ));
    }
}

/// The lines of a text, without their line breaks, and where each starts.
pub struct Text {
    lines: Vec<Vec<char>>,
    starts: Vec<usize>,
    total: usize,
}

impl Text {
    pub closed spec fn wf(&self) -> bool {
        &&& self.lines@.len() == self.starts@.len()
        &&& 0 < self.lines@.len() <= self.total + 1
        &&& self.total < usize::MAX - 16
        &&& forall|l: int|
            0 <= l < self.lines@.len() ==> self.starts@[l] + self.lines@[l]@.len() <= self.total
    }

    pub closed spec fn count(&self) -> nat {
        self.lines@.len()
    }

    pub closed spec fn line(&self, l: int) -> Seq<char> {
        self.lines@[l]@
    }

    /// The lines of the text, where each starts, and its length.
    pub closed spec fn model(&self) -> TextModel {
        TextModel {
            lines: Seq::new(self.lines@.len(), |l: int| self.lines@[l]@),
            starts: Seq::new(self.starts@.len(), |l: int| self.starts@[l] as nat),
            total: self.total as nat,
        }
    }

    /// Splits `cs` into lines at each line feed, dropping a carriage return
    /// that ends a line.
    pub fn from_chars(cs: &Vec<char>) -> (r: Text)
        requires
            cs@.len() < usize::MAX - 16,
        ensures
            r.wf(),
            r.model() == text_model(cs@),
    {
        let mut lines: Vec<Vec<char>> = Vec::new();
        let mut starts: Vec<usize> = Vec::new();
        let mut cur: Vec<char> = Vec::new();
        let mut cur_start: usize = 0;
        let mut i: usize = 0;
        proof {
            assert(cs@.take(0) =~= Seq::<char>::empty());
        }
        while i < cs.len()
            invariant
                i <= cs@.len() < usize::MAX - 16,
                lines@.len() == starts@.len(),
                lines@.len() <= i,
                cur_start + cur@.len() <= i,
                forall|l: int| 0 <= l < lines@.len() ==> starts@[l] + lines@[l]@.len() <= i,
                raw_lines(cs@.take(i as int)).0.len() == lines@.len() + 1,
                raw_lines(cs@.take(i as int)).1.len() == lines@.len() + 1,
                forall|l: int|
                    0 <= l < lines@.len() ==> lines@[l]@ == drop_cr(
                        #[trigger] raw_lines(cs@.take(i as int)).0[l],
                    ),
                forall|l: int|
                    0 <= l < lines@.len() ==> starts@[l] as nat == #[trigger] raw_lines(
                        cs@.take(i as int),
                    ).1[l],
                cur@ == raw_lines(cs@.take(i as int)).0.last(),
                cur_start as nat == raw_lines(cs@.take(i as int)).1.last(),
            decreases cs@.len() - i,
        {
            let ghost p = cs@.take(i as int);
            let ghost q = cs@.take(i + 1);
            proof {
                assert(q.drop_last() =~= p);
                assert(q.last() == cs@[i as int]);
            }
            if cs[i] == '\n' {
                let ghost before = cur@;
                if cur.len() > 0 && cur[cur.len() - 1] == '\r' {
                    cur.pop();
                }
                proof {
                    assert(cur@ =~= drop_cr(before));
                }
                lines.push(cur);
                starts.push(cur_start);
                cur = Vec::new();
                cur_start = i + 1;
            } else {
                cur.push(cs[i]);
            }
            i = i + 1;
        }
        proof {
            assert(cs@.take(i as int) =~= cs@);
        }
        let ghost before = cur@;
        if cur.len() > 0 && cur[cur.len() - 1] == '\r' {
            cur.pop();
        }
        proof {
            assert(cur@ =~= drop_cr(before));
        }
        lines.push(cur);
        starts.push(cur_start);
        let r = Text { lines, starts, total: cs.len() };
        proof {
            let tm = text_model(cs@);
            assert(r.model().lines =~= tm.lines);
            assert(r.model().starts =~= tm.starts);
        }
        r
    }

    fn count_of(&self) -> (r: usize)
        requires
            self.wf(),
        ensures
            r == self.count(),
    {
        self.lines.len()
    }

    fn width(&self, l: usize) -> (r: usize)
        requires
            self.wf(),
            l < self.count(),
        ensures
            r == self.line(l as int).len(),
            r < usize::MAX - 16,
    {
        proof {
            assert(self.starts@[l as int] + self.lines@[l as int]@.len() <= self.total);
        }
        self.lines[l].len()
    }

    /// The number of spaces that start line `l`.
    fn indent(&self, l: usize) -> (r: usize)
        requires
            self.wf(),
            l < self.count(),
        ensures
            r <= self.line(l as int).len(),
            forall|k: int| 0 <= k < r ==> self.line(l as int)[k] == ' ',
            r < self.line(l as int).len() ==> self.line(l as int)[r as int] != ' ',
            !crate::quote::blank_or_comment(self.line(l as int)) ==> r < self.line(
                l as int,
            ).len(),
            r == crate::syntax::indent(self.line(l as int)),
    {
        let t = &self.lines[l];
        let mut k: usize = 0;
        while k < t.len() && t[k] == ' '
            invariant
                k <= t@.len(),
                forall|j: int| 0 <= j < k ==> t@[j] == ' ',
                crate::syntax::skip_spaces(t@, 0) == crate::syntax::skip_spaces(t@, k as int),
            decreases t@.len() - k,
        {
            k = k + 1;
        }
        proof {
            if k == t@.len() {
                lemma_spaces_blank(t@);
            }
        }
        k
    }

    /// The first position at or after `c` on line `l` that holds no space.
    fn skip_spaces(&self, l: usize, c: usize) -> (r: usize)
        requires
            self.wf(),
            l < self.count(),
            c <= self.line(l as int).len(),
        ensures
            c <= r <= self.line(l as int).len(),
            r == crate::syntax::skip_spaces(self.line(l as int), c as int),
    {
        let t = &self.lines[l];
        let mut k: usize = c;
        while k < t.len() && t[k] == ' '
            invariant
                c <= k <= t@.len(),
                crate::syntax::skip_spaces(t@, c as int) == crate::syntax::skip_spaces(
                    t@,
                    k as int,
                ),
            decreases t@.len() - k,
        {
            k = k + 1;
        }
        k
    }

    /// Whether line `l` holds only spaces, possibly followed by a comment.
    fn is_blank(&self, l: usize) -> (r: bool)
        requires
            self.wf(),
            l < self.count(),
        ensures
            r == crate::quote::blank_or_comment(self.line(l as int)),
    {
        let r = rest_is_blank(&self.lines[l], 0);
        proof {
            assert(self.lines@[l as int]@.skip(0) =~= self.line(l as int));
        }
        r
    }

    /// The first line at or after `l` that is not blank, or the number of lines.
    fn next_content(&self, l: usize) -> (r: usize)
        requires
            self.wf(),
            l <= self.count(),
        ensures
            l <= r <= self.count(),
            r < self.count() ==> !crate::quote::blank_or_comment(self.line(r as int)),
            r == crate::syntax::next_content(self.model(), l as int),
    {
        let mut k: usize = l;
        while k < self.count_of() && self.is_blank(k)
            invariant
                self.wf(),
                l <= k <= self.count(),
                crate::syntax::next_content(self.model(), l as int)
                    == crate::syntax::next_content(self.model(), k as int),
            decreases self.count() - k,
        {
            k = k + 1;
        }
        k
    }

    /// Whether line `l` is a document marker made of three `m`.
    fn is_marker(&self, l: usize, m: char) -> (r: bool)
        requires
            self.wf(),
            l < self.count(),
        ensures
            r ==> self.line(l as int).len() >= 3,
            r == crate::syntax::is_marker(self.line(l as int), m),
    {
        let t = &self.lines[l];
        t.len() >= 3 && t[0] == m && t[1] == m && t[2] == m && (t.len() == 3 || t[3] == ' ')
            && rest_is_blank(t, 3)
    }

    /// Whether line `l` is a document start or end marker.
    fn is_any_marker(&self, l: usize) -> (r: bool)
        requires
            self.wf(),
            l < self.count(),
        ensures
            r == crate::syntax::is_any_marker(self.line(l as int)),
    {
        self.is_marker(l, '-') || self.is_marker(l, '.')
    }

    /// The position of column `c` of line `l`.
    fn mark(&self, l: usize, c: usize) -> (r: Marker)
        requires
            self.wf(),
            l < self.count(),
            c <= self.line(l as int).len(),
        ensures
            r == crate::syntax::mark_at(self.model(), l as int, c as int),
    {
        Marker { index: self.starts[l] + c, line: l + 1, col: c }
    }

    /// The position where line `l` has its first character that is not a
    /// space, or the end of the text when `l` is past the last line.
    fn line_mark(&self, l: usize) -> (r: Marker)
        requires
            self.wf(),
            l <= self.count(),
        ensures
            r == crate::syntax::line_mark(self.model(), l as int),
    {
        if l < self.count_of() {
            let c = self.indent(l);
            self.mark(l, c)
        } else {
            let last = self.count_of() - 1;
            let w = self.width(last);
            Marker { index: self.total, line: last + 1, col: w }
        }
    }

    /// The characters of line `l` from column `c` on.
    fn rest(&self, l: usize, c: usize) -> (r: Vec<char>)
        requires
            self.wf(),
            l < self.count(),
            c <= self.line(l as int).len(),
        ensures
            r@ == self.line(l as int).skip(c as int),
            r@.len() < usize::MAX - 16,
    {
        proof {
            assert(self.starts@[l as int] + self.lines@[l as int]@.len() <= self.total);
        }
        let t = &self.lines[l];
        let mut out: Vec<char> = Vec::new();
        let mut k: usize = c;
        while k < t.len()
            invariant
                c <= k <= t@.len(),
                out@ == t@.subrange(c as int, k as int),
            decreases t@.len() - k,
        {
            out.push(t[k]);
            k = k + 1;
            proof {
                assert(t@.subrange(c as int, k as int) =~= t@.subrange(c as int, k - 1).push(
                    t@[k - 1],
                ));
            }
        }
        proof {
            assert(t@.subrange(c as int, k as int) =~= t@.skip(c as int));
        }
        out
    }

    /// Whether line `l` has a sequence entry indicator at column `c`.
    fn dash_at(&self, l: usize, c: usize) -> (r: bool)
        requires
            self.wf(),
            l < self.count(),
        ensures
            r ==> c < self.line(l as int).len(),
            r == crate::syntax::dash_at(self.line(l as int), c as int),
    {
        let t = &self.lines[l];
        c < t.len() && t[c] == '-' && (c + 1 == t.len() || t[c + 1] == ' ')
    }

    /// The key of a mapping entry that starts at column `c` of line `l`, and
    /// the column after its colon.
    fn key_split(&self, l: usize, c: usize) -> (r: Option<(String, usize)>)
        requires
            self.wf(),
            l < self.count(),
            c < self.line(l as int).len(),
        ensures
            r matches Some((_, k)) ==> c < k <= self.line(l as int).len(),
            match crate::syntax::key_split(self.line(l as int), c as int) {
                Some((key, after)) => r matches Some((rk, ra)) && rk@ == key && ra == after,
                None => r is None,
            },
    {
        let t = &self.lines[l];
        let w = t.len();
        if t[c] == '"' || t[c] == '\'' {
            let rest = self.rest(l, c);
            let q = if t[c] == '"' {
                read_double_of(&rest, 1)
            } else {
                read_single_of(&rest, 1)
            };
            match q {
                Some((s, e)) => {
                    let k = self.skip_spaces(l, c + e);
                    if k < w && t[k] == ':' && (k + 1 == w || t[k + 1] == ' ') {
                        Some((s, k + 1))
                    } else {
                        None
                    }
                },
                None => None,
            }
        } else {
            let mut i: usize = c;
            while i < w && !(t[i] == ':' && (i + 1 == w || t[i + 1] == ' ')) && !(t[i] == '#' && i
                > c && t[i - 1] == ' ')
                invariant
                    c <= i <= w,
                    w == t@.len(),
                    crate::syntax::key_end(t@, c as int, c as int) == crate::syntax::key_end(
                        t@,
                        i as int,
                        c as int,
                    ),
                decreases w - i,
            {
                i = i + 1;
            }
            if i < w && t[i] == ':' && (i + 1 == w || t[i + 1] == ' ') {
                let ghost whole = t@.subrange(c as int, i as int);
                let mut e: usize = i;
                while e > c && t[e - 1] == ' '
                    invariant
                        c <= e <= i,
                        i < w,
                        w == t@.len(),
                        trim_end(whole) == trim_end(t@.subrange(c as int, e as int)),
                    decreases e,
                {
                    proof {
                        assert(t@.subrange(c as int, e as int).drop_last() =~= t@.subrange(
                            c as int,
                            e - 1,
                        ));
                    }
                    e = e - 1;
                }
                proof {
                    let part = t@.subrange(c as int, e as int);
                    assert(trim_end(part) == part);
                }
                let mut key = String::new();
                let mut k: usize = c;
                while k < e
                    invariant
                        c <= k <= e <= w,
                        w == t@.len(),
                        key@ == t@.subrange(c as int, k as int),
                    decreases e - k,
                {
                    push_char(&mut key, t[k]);
                    k = k + 1;
                    proof {
                        assert(t@.subrange(c as int, k as int) =~= t@.subrange(c as int, k - 1).push(
                            t@[k - 1],
                        ));
                    }
                }
                Some((key, i + 1))
            } else {
                None
            }
        }
    }

    /// Reads the scalar whose text runs from column `c` of line `l` to the end
    /// of the line.
    fn parse_inline(&self, l: usize, c: usize) -> (r: Result<(Node, usize), ScanError>)
        requires
            self.wf(),
            l < self.count(),
            c <= self.line(l as int).len(),
        ensures
            r matches Ok((_, next)) ==> l < next <= self.count(),
            node_result(r) == crate::syntax::inline_at(self.model(), l as int, c as int),
    {
        let rest = self.rest(l, c);
        match read_inline_of(&rest) {
            Some(s) => Ok((Node::Scalar(s, self.mark(l, c)), l + 1)),
            None => Err(
                ScanError { info: "found unexpected end of a quoted scalar", mark: self.mark(l, c) },
            ),
        }
    }

    /// Reads the node that starts at column `c` of line `l`; lines of the node
    /// below line `l` are indented by at least `floor`. Returns the node and
    /// the line after it.
    fn parse_node(&self, l: usize, c: usize, floor: usize) -> (r: Result<(Node, usize), ScanError>)
        requires
            self.wf(),
            l < self.count(),
            c < self.line(l as int).len(),
        ensures
            r matches Ok((_, next)) ==> l < next <= self.count(),
            node_result(r) == crate::syntax::node_at(self.model(), l as int, c as int, floor as int),
        decreases self.count() - l, self.line(l as int).len() - c, 3nat,
    {
        if self.dash_at(l, c) {
            self.parse_sequence(l, c)
        } else if self.key_split(l, c).is_some() {
            self.parse_mapping(l, c)
        } else if self.lines[l][c] == '|' {
            self.parse_literal(l, c, floor)
        } else {
            self.parse_inline(l, c)
        }
    }

    /// Reads the entry of a block sequence whose indicator is at column `c` of
    /// line `l`.
    fn sequence_item(&self, l: usize, c: usize) -> (r: Result<(Node, usize), ScanError>)
        requires
            self.wf(),
            l < self.count(),
            c < self.line(l as int).len(),
        ensures
            r matches Ok((_, next)) ==> l < next <= self.count(),
            node_result(r) == crate::syntax::sequence_item(self.model(), l as int, c as int),
        decreases self.count() - l, self.line(l as int).len() - c, 0nat,
    {
        let w = self.width(l);
        let c2 = self.skip_spaces(l, c + 1);
        if c2 >= w || self.lines[l][c2] == '#' {
            let nl = self.next_content(l + 1);
            if nl < self.count_of() && !self.is_any_marker(nl) && self.indent(nl) > c {
                let ind = self.indent(nl);
                self.parse_node(nl, ind, c + 1)
            } else {
                Ok((Node::Scalar(String::new(), self.mark(l, c + 1)), l + 1))
            }
        } else {
            self.parse_node(l, c2, c + 1)
        }
    }

    /// Reads the block sequence whose first entry indicator is at column `c`
    /// of line `l`.
    fn parse_sequence(&self, l: usize, c: usize) -> (r: Result<(Node, usize), ScanError>)
        requires
            self.wf(),
            l < self.count(),
            c < self.line(l as int).len(),
        ensures
            r matches Ok((_, next)) ==> l < next <= self.count(),
            node_result(r) == crate::syntax::sequence_at(self.model(), l as int, c as int),
        decreases self.count() - l, self.line(l as int).len() - c, 2nat,
    {
        let ghost m = self.model();
        let start = self.mark(l, c);
        let mut items: Vec<Node> = Vec::new();
        let mut cur: usize = l;
        loop
            invariant
                self.wf(),
                m == self.model(),
                l <= cur < self.count(),
                c < self.line(cur as int).len(),
                cur == l ==> self.line(cur as int).len() == self.line(l as int).len(),
                start == crate::syntax::mark_at(m, l as int, c as int),
                crate::syntax::sequence_items(m, l as int, c as int) == prefixed(
                    items_model(items@),
                    crate::syntax::sequence_items(m, cur as int, c as int),
                ),
            decreases self.count() - cur,
        {
            let (item, next) = match self.sequence_item(cur, c) {
                Ok(x) => x,
                Err(e) => {
                    return Err(e);
                },
            };
            let nl = self.next_content(next);
            let ghost before = items@;
            let ghost gi = node_model(item);
            items.push(item);
            proof {
                lemma_items_model_push(before, item);
                lemma_prefixed_push(
                    items_model(before),
                    node_model(item),
                    crate::syntax::sequence_items(m, nl as int, c as int),
                );
            }
            if nl < self.count_of() && !self.is_any_marker(nl) && self.indent(nl) == c
                && self.dash_at(nl, c) {
                cur = nl;
            } else if nl < self.count_of() && !self.is_any_marker(nl) && self.indent(nl) > c {
                let ind = self.indent(nl);
                return Err(
                    ScanError {
                        info: "bad indentation of a sequence entry",
                        mark: self.mark(nl, ind),
                    },
                );
            } else {
                proof {
                    assert(crate::syntax::sequence_items(m, cur as int, c as int) == Ok::<
                        (Seq<NodeModel>, int),
                        ScanError,
                    >((seq![gi], nl as int)));
                    assert(items_model(before) + seq![gi] =~= items_model(items@));
                    assert(crate::syntax::sequence_items(m, l as int, c as int) == Ok::<
                        (Seq<NodeModel>, int),
                        ScanError,
                    >((items_model(items@), nl as int)));
                }
                let lm = self.line_mark(nl);
                let ghost gitems = items@;
                let node = Node::Sequence(items, start, lm);
                proof {
                    assert(node_model(node) == NodeModel::Sequence(items_model(gitems), start, lm));
                }
                return Ok((node, nl));
            }
        }
    }

    /// Reads the value of a mapping entry whose key starts at column `c` of
    /// line `l` and whose value (or its absence) starts at column `vc`.
    fn mapping_value(&self, l: usize, c: usize, vc: usize) -> (r: Result<(Node, usize), ScanError>)
        requires
            self.wf(),
            l < self.count(),
            c < self.line(l as int).len(),
            vc <= self.line(l as int).len(),
        ensures
            r matches Ok((_, next)) ==> l < next <= self.count(),
            node_result(r) == crate::syntax::mapping_value(
                self.model(),
                l as int,
                c as int,
                vc as int,
            ),
        decreases self.count() - l, self.line(l as int).len() - c, 0nat,
    {
        let w = self.width(l);
        if vc >= w || self.lines[l][vc] == '#' {
            let nl = self.next_content(l + 1);
            if nl < self.count_of() && !self.is_any_marker(nl) && self.indent(nl) > c {
                let ind = self.indent(nl);
                self.parse_node(nl, ind, c + 1)
            } else if nl < self.count_of() && !self.is_any_marker(nl) && self.indent(nl) == c
                && self.dash_at(nl, c) {
                self.parse_sequence(nl, c)
            } else {
                Ok((Node::Scalar(String::new(), self.mark(l, vc)), l + 1))
            }
        } else if self.lines[l][vc] == '|' {
            self.parse_literal(l, vc, c + 1)
        } else {
            self.parse_inline(l, vc)
        }
    }

    /// Reads the block mapping whose first key starts at column `c` of line `l`.
    fn parse_mapping(&self, l: usize, c: usize) -> (r: Result<(Node, usize), ScanError>)
        requires
            self.wf(),
            l < self.count(),
            c < self.line(l as int).len(),
        ensures
            r matches Ok((_, next)) ==> l < next <= self.count(),
            node_result(r) == crate::syntax::mapping_at(self.model(), l as int, c as int),
        decreases self.count() - l, self.line(l as int).len() - c, 2nat,
    {
        let ghost m = self.model();
        let start = self.mark(l, c);
        let mut entries: Vec<Entry> = Vec::new();
        let mut cur: usize = l;
        loop
            invariant
                self.wf(),
                m == self.model(),
                l <= cur < self.count(),
                c < self.line(cur as int).len(),
                cur == l ==> self.line(cur as int).len() == self.line(l as int).len(),
                start == crate::syntax::mark_at(m, l as int, c as int),
                crate::syntax::mapping_entries(m, l as int, c as int) == prefixed(
                    entries_model(entries@),
                    crate::syntax::mapping_entries(m, cur as int, c as int),
                ),
            decreases self.count() - cur,
        {
            let (key, after) = match self.key_split(cur, c) {
                Some(k) => k,
                None => {
                    return Err(
                        ScanError {
                            info: "could not find expected ':'",
                            mark: self.mark(cur, c),
                        },
                    );
                },
            };
            let key_mark = self.mark(cur, c);
            let vc = self.skip_spaces(cur, after);
            let (value, next) = match self.mapping_value(cur, c, vc) {
                Ok(x) => x,
                Err(e) => {
                    return Err(e);
                },
            };
            let nl = self.next_content(next);
            let ghost before = entries@;
            let entry = Entry { key, key_mark, value };
            let ghost ge = entry;
            let ghost gm = EntryModel {
                key: ge.key@,
                key_mark: ge.key_mark,
                value: node_model(ge.value),
            };
            entries.push(entry);
            proof {
                lemma_entries_model_push(before, ge);
                lemma_prefixed_push(
                    entries_model(before),
                    gm,
                    crate::syntax::mapping_entries(m, nl as int, c as int),
                );
            }
            if nl < self.count_of() && !self.is_any_marker(nl) && self.indent(nl) == c
                && !self.dash_at(nl, c) && self.key_split(nl, c).is_some() {
                cur = nl;
            } else if nl < self.count_of() && !self.is_any_marker(nl) && self.indent(nl) > c {
                let ind = self.indent(nl);
                return Err(
                    ScanError {
                        info: "mapping values are not allowed in this context",
                        mark: self.mark(nl, ind),
                    },
                );
            } else {
                proof {
                    assert(crate::syntax::mapping_entries(m, cur as int, c as int) == Ok::<
                        (Seq<EntryModel>, int),
                        ScanError,
                    >((seq![gm], nl as int)));
                    assert(entries_model(before) + seq![gm] =~= entries_model(entries@));
                }
                let lm = self.line_mark(nl);
                let ghost gentries = entries@;
                let node = Node::Mapping(entries, start, lm);
                proof {
                    assert(node_model(node) == NodeModel::Mapping(entries_model(gentries), start, lm));
                }
                return Ok((node, nl));
            }
        }
    }

    /// Whether line `l` ends a literal block whose content is indented by `ci`.
    fn block_ends_at(&self, l: usize, ci: usize) -> (r: bool)
        requires
            self.wf(),
            l < self.count(),
        ensures
            r == crate::syntax::ends_block(self.model(), l as int, ci as int),
    {
        let ind = self.indent(l);
        ind != self.width(l) && (ind < ci || (ind == 0 && self.is_any_marker(l)))
    }

    /// Reads the literal block scalar whose indicator `|` is at column `bc` of
    /// line `l`; its lines are indented by at least `floor`.
    fn parse_literal(&self, l: usize, bc: usize, floor: usize) -> (r: Result<(Node, usize), ScanError>)
        requires
            self.wf(),
            l < self.count(),
            bc < self.line(l as int).len(),
        ensures
            r matches Ok((_, next)) ==> l < next <= self.count(),
            node_result(r) == crate::syntax::literal_at(
                self.model(),
                l as int,
                bc as int,
                floor as int,
            ),
    {
        let ghost m = self.model();
        let t = &self.lines[l];
        let w = t.len();
        let mut h: usize = bc + 1;
        let mut chomp: u8 = 0;
        if h < w && t[h] == '-' {
            chomp = 1;
            h = h + 1;
        } else if h < w && t[h] == '+' {
            chomp = 2;
            h = h + 1;
        }
        if !rest_is_blank(t, h) {
            return Err(ScanError { info: "invalid block scalar header", mark: self.mark(l, h) });
        }
        let n = self.count_of();
        let mut j: usize = l + 1;
        while j < n && self.indent(j) == self.width(j)
            invariant
                self.wf(),
                m == self.model(),
                n == self.count(),
                l < j <= n,
                crate::syntax::next_filled(m, l + 1) == crate::syntax::next_filled(m, j as int),
            decreases n - j,
        {
            j = j + 1;
        }
        if j >= n || self.indent(j) < floor || (self.indent(j) == 0 && self.is_any_marker(j)) {
            return Ok((Node::Scalar(String::new(), self.mark(l, bc)), l + 1));
        }
        let ci = self.indent(j);
        let mut out = String::new();
        let mut j: usize = l + 1;
        let mut pending: usize = 0;
        let mut any = false;
        while j < n && !self.block_ends_at(j, ci)
            invariant
                self.wf(),
                m == self.model(),
                n == self.count(),
                l < j <= n,
                crate::syntax::block_end(m, l + 1, ci as int) == crate::syntax::block_end(
                    m,
                    j as int,
                    ci as int,
                ),
                out@ == crate::syntax::block_text(
                    m,
                    l + 1,
                    crate::syntax::last_filled(m, l + 1, j as int) + 1,
                    ci as int,
                ),
                pending == j - 1 - crate::syntax::last_filled(m, l + 1, j as int),
                any == (crate::syntax::last_filled(m, l + 1, j as int) > l),
                l <= crate::syntax::last_filled(m, l + 1, j as int) < j,
            decreases n - j,
        {
            let ghost last = crate::syntax::last_filled(m, l + 1, j as int);
            proof {
                lemma_last_filled_spaces(m, l + 1, j as int);
            }
            let ind = self.indent(j);
            let lw = self.width(j);
            if ind == lw {
                pending = pending + 1;
            } else {
                let newlines: usize = if any {
                    pending + 1
                } else {
                    pending
                };
                let ghost before = out@;
                push_line_feeds(&mut out, newlines);
                push_chars_from(&mut out, &self.lines[j], ci);
                proof {
                    let a = l + 1;
                    let bl = crate::syntax::block_line(m, j as int, ci as int);
                    assert(bl == self.line(j as int).skip(ci as int));
                    if any {
                        lemma_block_text_spaces(m, a, last, j as int, ci as int);
                        assert(crate::syntax::block_text(m, a, j + 1, ci as int)
                            == crate::syntax::block_text(m, a, j as int, ci as int) + seq!['\n']
                            + bl);
                        assert(crate::syntax::line_feeds((j - 1 - last) as nat) + seq!['\n']
                            =~= crate::syntax::line_feeds(newlines as nat));
                    } else if j > a {
                        lemma_block_text_blank(m, a, j as int, ci as int);
                        assert(crate::syntax::line_feeds((j - a - 1) as nat) + seq!['\n']
                            =~= crate::syntax::line_feeds(newlines as nat));
                    } else {
                        assert(crate::syntax::line_feeds(0) =~= Seq::<char>::empty());
                    }
                    assert(out@ =~= crate::syntax::block_text(m, a, j + 1, ci as int));
                }
                any = true;
                pending = 0;
            }
            j = j + 1;
        }
        let ghost end = j as int;
        let ghost last = crate::syntax::last_filled(m, l + 1, end);
        if chomp == 0 {
            push_line_feeds(&mut out, 1);
        } else if chomp == 2 {
            push_line_feeds(&mut out, pending + 1);
        } else {
            proof {
                assert(out@ + Seq::<char>::empty() =~= out@);
            }
        }
        Ok((Node::Scalar(out, self.mark(l, bc)), j))
    }

    /// Reads the next document at or after line `l`: `None` when only blank
    /// lines and document end markers remain. Returns the document and the
    /// line after it.
    fn parse_document(&self, l: usize) -> (r: Result<Option<(Document, usize)>, ScanError>)
        requires
            self.wf(),
            l <= self.count(),
        ensures
            r matches Ok(Some((_, next))) ==> l < next <= self.count(),
            document_result(r) == crate::syntax::document_at(self.model(), l as int),
    {
        let ghost m = self.model();
        let n = self.count_of();
        let mut k = self.next_content(l);
        proof {
            lemma_next_content_idem(m, l as int);
        }
        while k < n && self.is_marker(k, '.')
            invariant
                self.wf(),
                m == self.model(),
                n == self.count(),
                l <= k <= n,
                k < n ==> !crate::quote::blank_or_comment(self.line(k as int)),
                k == crate::syntax::next_content(m, k as int),
                crate::syntax::skip_document_ends(m, l as int)
                    == crate::syntax::skip_document_ends(m, k as int),
            decreases n - k,
        {
            let ghost k0 = k as int;
            k = self.next_content(k + 1);
            proof {
                lemma_next_content_idem(m, k0 + 1);
                assert(crate::syntax::skip_document_ends(m, k0) == crate::syntax::skip_document_ends(
                    m,
                    k0 + 1,
                ));
            }
        }
        if k >= n {
            return Ok(None);
        }
        let explicit = self.is_marker(k, '-');
        let start = self.mark(k, 0);
        let body = if explicit {
            self.next_content(k + 1)
        } else {
            k
        };
        let (root, next) = if body >= n || (explicit && self.is_any_marker(body)) {
            (Node::Scalar(String::new(), start), k + 1)
        } else {
            let ind = self.indent(body);
            match self.parse_node(body, ind, 0) {
                Ok(x) => x,
                Err(e) => {
                    return Err(e);
                },
            }
        };
        let after = self.next_content(next);
        if after < n && !self.is_any_marker(after) {
            let ind = self.indent(after);
            return Err(
                ScanError {
                    info: "did not find expected <document start>",
                    mark: self.mark(after, ind),
                },
            );
        }
        if after < n && self.is_marker(after, '.') {
            let end = self.mark(after, 0);
            Ok(Some((Document { root, start, end }, after + 1)))
        } else {
            let end = self.line_mark(after);
            Ok(Some((Document { root, start, end }, after)))
        }
    }
}

/// The documents of a stream, its events, the error that stopped the reading
/// if there was one, and the position of the end of the stream.
pub struct Parsed {
    pub documents: Vec<Document>,
    pub events: Vec<(Event, Marker)>,
    pub failure: Option<Error>,
    pub end_mark: Marker,
}

/// The position of the start of a stream.
pub open spec fn stream_start() -> Marker {
    Marker { index: 0, line: 1, col: 0 }
}

/// Reads the StrictYAML stream `input`: its documents, and its events, which
/// are those of the stream of these documents.
pub fn parse_stream(input: &str) -> (r: Parsed)
    requires
        input@.len() <= isize::MAX,
    ensures
        r.events@ == stream_events(
            r.documents@,
            stream_start(),
            if r.failure is None {
                Some(r.end_mark)
            } else {
                None
            },
        ),
        documents_model(r.documents@) == crate::syntax::text_documents(input@).0,
        failure_reported(crate::syntax::text_documents(input@).1, r.failure),
        r.end_mark == crate::syntax::text_end(input@),
{
    let cs = crate::text::chars_of(input);
    let text = Text::from_chars(&cs);
    let ghost m = text.model();
    let n = text.count_of();
    let mut documents: Vec<Document> = Vec::new();
    let mut events: Vec<(Event, Marker)> = Vec::new();
    events.push((Event::StreamStart, Marker { index: 0, line: 1, col: 0 }));
    let mut failure: Option<Error> = None;
    let mut l: usize = 0;
    let mut done = false;
    proof {
        assert(events@ =~= seq![(Event::StreamStart, stream_start())] + documents_events(
            documents@,
        ));
    }
    while !done
        invariant
            text.wf(),
            m == text.model(),
            n == text.count(),
            l <= n,
            events@ == seq![(Event::StreamStart, stream_start())] + documents_events(documents@),
            !done ==> failure is None,
            !done ==> crate::syntax::documents_from(m, 0) == (
                documents_model(documents@) + crate::syntax::documents_from(m, l as int).0,
                crate::syntax::documents_from(m, l as int).1,
            ),
            done ==> crate::syntax::documents_from(m, 0).0 == documents_model(documents@),
            done ==> failure_reported(crate::syntax::documents_from(m, 0).1, failure),
        decreases (if done {
            0
        } else {
            n + 1 - l
        }),
    {
        match text.parse_document(l) {
            Ok(Some((d, next))) => {
                let ghost old_docs = documents@;
                let ghost gd = d;
                events.push((Event::DocumentStart, d.start));
                push_node_events(&d.root, &mut events);
                events.push((Event::DocumentEnd, d.end));
                documents.push(d);
                proof {
                    lemma_documents_model_push(old_docs, gd);
                    let rest = crate::syntax::documents_from(m, next as int);
                    assert(documents_model(old_docs) + (seq![document_model(gd)] + rest.0)
                        =~= documents_model(documents@) + rest.0);
                    assert(documents@.drop_last() =~= old_docs);
                    assert(documents@.last() == gd);
                    assert(events@ =~= seq![(Event::StreamStart, stream_start())]
                        + documents_events(documents@));
                }
                l = next;
            },
            Ok(None) => {
                proof {
                    assert(documents_model(documents@) + Seq::<DocumentModel>::empty()
                        =~= documents_model(documents@));
                }
                done = true;
            },
            Err(e) => {
                proof {
                    assert(documents_model(documents@) + Seq::<DocumentModel>::empty()
                        =~= documents_model(documents@));
                }
                failure = Some(e.to_error());
                done = true;
            },
        }
    }
    let end_mark = text.line_mark(n);
    if failure.is_none() {
        events.push((Event::StreamEnd, end_mark));
    }
    proof {
        assert(events@ =~= stream_events(
            documents@,
            stream_start(),
            if failure is None {
                Some(end_mark)
            } else {
                None
            },
        ));
    }
    Parsed { documents, events, failure, end_mark }
}

} // verus!
