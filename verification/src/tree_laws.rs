//! The laws of whole documents: a tree of strings, sequences and mappings,
//! or a struct of them, or a stream of such documents, that the serializer
//! writes reads back as the same trees.
use vstd::prelude::*;

use crate::emit::{escape_char, escaped, escaped_body, hex_digit_char, must_quote, scalar_text, special_char};
use crate::laws::{lemma_char_range, lemma_read_escaped, law_scalar_round_trip};
use crate::parser::ScanError;
use crate::quote::{blank_or_comment, read_inline, trim_end};
use crate::ser::{
    SerializerView,
    after_collection_start,
    after_element_end,
    after_element_start,
    after_end,
    after_key_end,
    after_line_start,
    after_field_key,
    after_scalar,
    spaces,
    started,
};
use crate::syntax::{
    lemma_skip_spaces_grows,
    DocumentModel,
    EntryModel,
    NodeModel,
    TextModel,
    colon_at,
    dash_at,
    document_at,
    documents_from,
    indent,
    is_any_marker,
    is_marker,
    key_end,
    key_split,
    line_mark,
    mapping_entries,
    mapping_value,
    mark_at,
    next_content,
    node_at,
    raw_lines,
    sequence_item,
    sequence_items,
    skip_document_ends,
    skip_spaces,
    text_documents,
    text_model,
};

verus! {

/// A value of serde's data model as StrictYAML holds it: a string, a
/// sequence of values, or a mapping from strings (`keys`) to values
/// (`values`, one for each key).
pub enum Tree {
    Text(Seq<char>),
    Items(Seq<Tree>),
    Entries(Seq<Seq<char>>, Seq<Tree>),
}

/// Whether every sequence and every mapping in `t` has at least one element,
/// and every mapping a value for each key.
pub open spec fn tree_ok(t: Tree) -> bool
    decreases t,
{
    match t {
        Tree::Text(_) => true,
        Tree::Items(items) => items.len() > 0 && items_ok(items),
        Tree::Entries(keys, values) => keys.len() > 0 && keys.len() == values.len() && items_ok(
            values,
        ),
    }
}

/// Whether every tree of `items` is well formed.
pub open spec fn items_ok(items: Seq<Tree>) -> bool
    decreases items,
{
    items.len() == 0 || (tree_ok(items[0]) && items_ok(items.drop_first()))
}

/// The state after the serializer writes `t`: a string as a scalar, a
/// sequence element by element, a mapping key by key, each collection
/// started without a length.
pub open spec fn write_tree(v: SerializerView, t: Tree) -> SerializerView
    decreases t,
{
    match t {
        Tree::Text(s) => after_scalar(v, s),
        Tree::Items(items) => after_end(
            write_items(after_collection_start(v, None, "[]"@), items),
        ),
        Tree::Entries(keys, values) => after_end(
            write_entries(after_collection_start(v, None, "{}"@), keys, values),
        ),
    }
}

/// The state after the serializer writes the elements `items` of a
/// sequence.
pub open spec fn write_items(v: SerializerView, items: Seq<Tree>) -> SerializerView
    decreases items,
{
    if items.len() == 0 {
        v
    } else {
        write_items(
            after_element_end(write_tree(after_element_start(v), items[0])),
            items.drop_first(),
        )
    }
}

/// The state after the serializer writes the entries of a mapping from
/// `keys` to `values`.
pub open spec fn write_entries(v: SerializerView, keys: Seq<Seq<char>>, values: Seq<Tree>) -> SerializerView
    decreases values,
{
    if keys.len() == 0 || values.len() == 0 {
        v
    } else {
        write_entries(
            write_tree(after_key_end(after_scalar(after_line_start(v), keys[0])), values[0]),
            keys.drop_first(),
            values.drop_first(),
        )
    }
}

/// Whether the node `n` that the reader gives holds the tree `t`.
pub open spec fn same_tree(n: NodeModel, t: Tree) -> bool
    decreases t,
{
    match t {
        Tree::Text(s) => n matches NodeModel::Scalar(x, _) && x == s,
        Tree::Items(items) => n matches NodeModel::Sequence(ns, _, _) && same_items(ns, items),
        Tree::Entries(keys, values) => n matches NodeModel::Mapping(es, _, _) && same_entries(
            es,
            keys,
            values,
        ),
    }
}

/// Whether the nodes `ns` hold the trees `items`, one for one.
pub open spec fn same_items(ns: Seq<NodeModel>, items: Seq<Tree>) -> bool
    decreases items,
{
    ns.len() == items.len() && (items.len() == 0 || (same_tree(ns[0], items[0]) && same_items(
        ns.drop_first(),
        items.drop_first(),
    )))
}

/// Whether the mapping entries `es` have the keys `keys` and hold the
/// values `values`, one for one.
pub open spec fn same_entries(
    es: Seq<crate::syntax::EntryModel>,
    keys: Seq<Seq<char>>,
    values: Seq<Tree>,
) -> bool
    decreases values,
{
    es.len() == values.len() && keys.len() == values.len() && (values.len() == 0 || (es[0].key
        == keys[0] && same_tree(es[0].value, values[0]) && same_entries(
        es.drop_first(),
        keys.drop_first(),
        values.drop_first(),
    )))
}

/// The text of a collection `t` whose indicators or keys stand at column
/// `c`: the rest of its first line from column `c` on, and its other lines.
spec fn render(t: Tree, c: nat) -> (Seq<char>, Seq<Seq<char>>)
    decreases t, 1nat,
{
    match t {
        Tree::Text(s) => (scalar_text(s), Seq::empty()),
        Tree::Items(items) => render_items(items, c),
        Tree::Entries(keys, values) => render_entries(keys, values, c),
    }
}

/// The text of the elements `items` of a sequence at column `c`.
spec fn render_items(items: Seq<Tree>, c: nat) -> (Seq<char>, Seq<Seq<char>>)
    decreases items, 0nat,
{
    if items.len() == 0 {
        (Seq::empty(), Seq::empty())
    } else {
        let first = seq!['-', ' '] + render(items[0], c + 2).0;
        let below = render(items[0], c + 2).1;
        if items.len() == 1 {
            (first, below)
        } else {
            let rest = render_items(items.drop_first(), c);
            (first, below + seq![spaces(c) + rest.0] + rest.1)
        }
    }
}

/// The first line of a mapping entry from column `c` on: the key and its
/// colon, then a string value on the same line.
spec fn entry_first(key: Seq<char>, value: Tree) -> Seq<char> {
    match value {
        Tree::Text(s) => scalar_text(key) + seq![':', ' '] + scalar_text(s),
        _ => scalar_text(key) + seq![':'],
    }
}

/// The lines of a mapping entry at column `c` below its first: those of a
/// value that is no string, two columns further in.
spec fn entry_below(value: Tree, c: nat) -> Seq<Seq<char>>
    decreases value, 2nat,
{
    match value {
        Tree::Text(_) => Seq::empty(),
        _ => seq![spaces(c + 2) + render(value, c + 2).0] + render(value, c + 2).1,
    }
}

/// The text of the entries of a mapping from `keys` to `values` at column
/// `c`: a string value follows its key on the same line, any other value
/// starts on the next line, two columns further in.
spec fn render_entries(keys: Seq<Seq<char>>, values: Seq<Tree>, c: nat) -> (
    Seq<char>,
    Seq<Seq<char>>,
)
    decreases values, 0nat,
{
    if keys.len() == 0 || values.len() == 0 {
        (Seq::empty(), Seq::empty())
    } else {
        let first = entry_first(keys[0], values[0]);
        let below = entry_below(values[0], c);
        if keys.len() == 1 {
            (first, below)
        } else {
            let rest = render_entries(keys.drop_first(), values.drop_first(), c);
            (first, below + seq![spaces(c) + rest.0] + rest.1)
        }
    }
}

/// The lines `ls`, each after a line feed.
spec fn lines_text(ls: Seq<Seq<char>>) -> Seq<char>
    decreases ls.len(),
{
    if ls.len() == 0 {
        Seq::empty()
    } else {
        lines_text(ls.drop_last()) + seq!['\n'] + ls.last()
    }
}

proof fn lemma_lines_text_append(a: Seq<Seq<char>>, b: Seq<Seq<char>>)
    ensures
        lines_text(a + b) == lines_text(a) + lines_text(b),
    decreases b.len(),
{
    if b.len() == 0 {
        assert(a + b =~= a);
        assert(lines_text(a) + Seq::<char>::empty() =~= lines_text(a));
    } else {
        lemma_lines_text_append(a, b.drop_last());
        assert((a + b).drop_last() =~= a + b.drop_last());
        assert(lines_text(a + b) =~= lines_text(a) + lines_text(b));
    }
}

proof fn lemma_lines_text_one(x: Seq<char>)
    ensures
        lines_text(seq![x]) == seq!['\n'] + x,
{
    assert(seq![x].drop_last() =~= Seq::<Seq<char>>::empty());
    assert(seq![x].last() == x);
    assert(lines_text(Seq::<Seq<char>>::empty()) == Seq::<char>::empty());
    assert(Seq::<char>::empty() + seq!['\n'] + x =~= seq!['\n'] + x);
}

/// What a collection starts with on a new line at column `c`: nothing when it
/// follows a sequence indicator, else a line feed and the indentation.
spec fn lead(v: SerializerView, c: nat) -> Seq<char> {
    if v.nested {
        Seq::empty()
    } else {
        seq!['\n'] + spaces(c)
    }
}

proof fn lemma_indent_spaces(level: int)
    requires
        level >= 0,
    ensures
        crate::ser::indent_text(level) == spaces((2 * level) as nat),
{
    if level == 0 {
        assert(spaces(0) =~= Seq::<char>::empty());
    }
}

/// The serializer writes a collection as its text.
proof fn lemma_write_tree(v: SerializerView, t: Tree)
    requires
        tree_ok(t),
        !(t is Text),
        v.level >= -1,
    ensures
        write_tree(v, t).output == v.output + lead(v, (2 * (v.level + 1)) as nat) + render(
            t,
            (2 * (v.level + 1)) as nat,
        ).0 + lines_text(render(t, (2 * (v.level + 1)) as nat).1),
        write_tree(v, t).level == v.level,
        !write_tree(v, t).nested,
        !write_tree(v, t).maybe_inline,
    decreases t, 1nat,
{
    match t {
        Tree::Items(items) => {
            let v1 = after_collection_start(v, None, "[]"@);
            assert(v1.level == v.level + 1 && v1.nested == v.nested && !v1.maybe_inline
                && v1.output == v.output);
            lemma_write_items(v1, items);
        },
        Tree::Entries(keys, values) => {
            let v1 = after_collection_start(v, None, "{}"@);
            assert(v1.level == v.level + 1 && v1.nested == v.nested && !v1.maybe_inline
                && v1.output == v.output);
            lemma_write_entries(v1, keys, values);
        },
        Tree::Text(_) => {},
    }
}

/// The serializer writes the elements of a sequence as their text.
#[verifier::rlimit(60)]
proof fn lemma_write_items(v: SerializerView, items: Seq<Tree>)
    requires
        items.len() > 0,
        items_ok(items),
        v.level >= 0,
        !v.maybe_inline,
    ensures
        write_items(v, items).output == v.output + lead(v, (2 * v.level) as nat) + render_items(
            items,
            (2 * v.level) as nat,
        ).0 + lines_text(render_items(items, (2 * v.level) as nat).1),
        write_items(v, items).level == v.level,
        !write_items(v, items).nested,
        !write_items(v, items).maybe_inline,
    decreases items, 0nat,
{
    reveal_strlit("- ");
    let c = (2 * v.level) as nat;
    lemma_indent_spaces(v.level);
    let x = items[0];
    let w1 = after_element_start(v);
    assert(w1.output =~= v.output + lead(v, c) + seq!['-', ' ']);
    assert(w1.level == v.level && w1.nested && !w1.maybe_inline);
    let w2 = write_tree(w1, x);
    let fx = render(x, c + 2).0;
    let rx = render(x, c + 2).1;
    assert(w2.output == w1.output + fx + lines_text(rx) && w2.level == v.level && !w2.maybe_inline)
        by {
        match x {
            Tree::Text(s) => {
                assert(lines_text(rx) =~= Seq::<char>::empty());
                assert(w2.output =~= w1.output + fx + lines_text(rx));
            },
            _ => {
                lemma_write_tree(w1, x);
                assert(lead(w1, c + 2) =~= Seq::<char>::empty());
                assert(w2.output =~= w1.output + fx + lines_text(rx));
            },
        }
    }
    let w3 = after_element_end(w2);
    assert(w3.output == w2.output && !w3.nested && w3.level == v.level && !w3.maybe_inline);
    let f = render_items(items, c).0;
    let r = render_items(items, c).1;
    assert(f == seq!['-', ' '] + fx);
    if items.len() == 1 {
        assert(r == rx);
        assert(write_items(v, items) == write_items(w3, items.drop_first()));
        assert(items.drop_first().len() == 0);
        assert(write_items(v, items).output =~= v.output + lead(v, c) + f + lines_text(r));
    } else {
        let rest = items.drop_first();
        assert(write_items(v, items) == write_items(w3, rest));
        lemma_write_items(w3, rest);
        let f1 = render_items(rest, c).0;
        let r1 = render_items(rest, c).1;
        assert(r == rx + seq![spaces(c) + f1] + r1);
        lemma_lines_text_append(rx, seq![spaces(c) + f1]);
        lemma_lines_text_append(rx + seq![spaces(c) + f1], r1);
        lemma_lines_text_one(spaces(c) + f1);
        assert(lead(w3, c) == seq!['\n'] + spaces(c));
        assert(write_items(v, items).output =~= v.output + lead(v, c) + f + lines_text(r));
    }
}

/// The serializer writes one entry of a mapping as its text.
#[verifier::rlimit(60)]
proof fn lemma_write_entry(v: SerializerView, key: Seq<char>, x: Tree)
    requires
        tree_ok(x),
        v.level >= 0,
        !v.maybe_inline,
    ensures
        ({
            let c = (2 * v.level) as nat;
            let w = write_tree(after_key_end(after_scalar(after_line_start(v), key)), x);
            &&& w.output == v.output + lead(v, c) + entry_first(key, x) + lines_text(
                entry_below(x, c),
            )
            &&& w.level == v.level
            &&& !w.nested
            &&& !w.maybe_inline
        }),
    decreases x, 3nat,
{
    reveal_strlit(":");
    let c = (2 * v.level) as nat;
    lemma_indent_spaces(v.level);
    let kt = scalar_text(key);
    let w1 = after_line_start(v);
    assert(w1.output =~= v.output + lead(v, c));
    let w2 = after_key_end(after_scalar(w1, key));
    assert(w2.output =~= v.output + lead(v, c) + kt + seq![':']);
    assert(!w2.nested && w2.level == v.level && w2.maybe_inline);
    let w3 = write_tree(w2, x);
    let below = entry_below(x, c);
    match x {
        Tree::Text(s) => {
            assert(lines_text(below) =~= Seq::<char>::empty());
            assert(w3.output =~= v.output + lead(v, c) + entry_first(key, x) + lines_text(below));
        },
        _ => {
            lemma_write_tree(w2, x);
            lemma_lines_text_one(spaces(c + 2) + render(x, c + 2).0);
            lemma_lines_text_append(
                seq![spaces(c + 2) + render(x, c + 2).0],
                render(x, c + 2).1,
            );
            assert(w3.output =~= v.output + lead(v, c) + entry_first(key, x) + lines_text(below));
        },
    }
}

/// The serializer writes the entries of a mapping as their text.
proof fn lemma_write_entries(v: SerializerView, keys: Seq<Seq<char>>, values: Seq<Tree>)
    requires
        keys.len() > 0,
        keys.len() == values.len(),
        items_ok(values),
        v.level >= 0,
        !v.maybe_inline,
    ensures
        write_entries(v, keys, values).output == v.output + lead(v, (2 * v.level) as nat)
            + render_entries(keys, values, (2 * v.level) as nat).0 + lines_text(
            render_entries(keys, values, (2 * v.level) as nat).1,
        ),
        write_entries(v, keys, values).level == v.level,
        !write_entries(v, keys, values).nested,
        !write_entries(v, keys, values).maybe_inline,
    decreases values, 0nat,
{
    let c = (2 * v.level) as nat;
    let x = values[0];
    lemma_write_entry(v, keys[0], x);
    let w3 = write_tree(after_key_end(after_scalar(after_line_start(v), keys[0])), x);
    let first = entry_first(keys[0], x);
    let below = entry_below(x, c);
    let f = render_entries(keys, values, c).0;
    let r = render_entries(keys, values, c).1;
    let ks = keys.drop_first();
    let vs = values.drop_first();
    assert(write_entries(v, keys, values) == write_entries(w3, ks, vs));
    if keys.len() == 1 {
        assert(r == below);
        assert(write_entries(v, keys, values).output =~= v.output + lead(v, c) + f + lines_text(r));
    } else {
        lemma_write_entries(w3, ks, vs);
        let f1 = render_entries(ks, vs, c).0;
        let r1 = render_entries(ks, vs, c).1;
        assert(r == below + seq![spaces(c) + f1] + r1);
        lemma_lines_text_append(below, seq![spaces(c) + f1]);
        lemma_lines_text_append(below + seq![spaces(c) + f1], r1);
        lemma_lines_text_one(spaces(c) + f1);
        assert(lead(w3, c) == seq!['\n'] + spaces(c));
        assert(write_entries(v, keys, values).output =~= v.output + lead(v, c) + f + lines_text(
            r,
        ));
    }
}

/// A text without line feeds is one line.
proof fn lemma_raw_lines_one(t: Seq<char>)
    requires
        forall|i: int| 0 <= i < t.len() ==> t[i] != '\n',
    ensures
        raw_lines(t).0 == seq![t],
        raw_lines(t).1 == seq![0nat],
    decreases t.len(),
{
    if t.len() > 0 {
        lemma_raw_lines_one(t.drop_last());
        assert(t.drop_last().push(t.last()) =~= t);
        assert(seq![t.drop_last()].update(0, t.drop_last().push(t.last())) =~= seq![t]);
    } else {
        assert(t =~= Seq::<char>::empty());
    }
}

/// A line feed and a text without line feeds after `s` add one line.
proof fn lemma_raw_lines_push(s: Seq<char>, t: Seq<char>)
    requires
        forall|i: int| 0 <= i < t.len() ==> t[i] != '\n',
    ensures
        raw_lines(s + seq!['\n'] + t).0 == raw_lines(s).0.push(t),
        raw_lines(s + seq!['\n'] + t).1 == raw_lines(s).1.push((s.len() + 1) as nat),
    decreases t.len(),
{
    let u = s + seq!['\n'] + t;
    if t.len() == 0 {
        assert(u.drop_last() =~= s);
        assert(t =~= Seq::<char>::empty());
    } else {
        lemma_raw_lines_push(s, t.drop_last());
        assert(u.drop_last() =~= s + seq!['\n'] + t.drop_last());
        let ls = raw_lines(s).0.push(t.drop_last());
        assert(t.drop_last().push(t.last()) =~= t);
        assert(ls.update(ls.len() - 1, ls.last().push(t.last())) =~= raw_lines(s).0.push(t));
    }
}

/// No line feed, and no carriage return at its end, in a scalar as the
/// serializer writes it.
proof fn lemma_scalar_text_one_line(s: Seq<char>)
    ensures
        forall|i: int| 0 <= i < scalar_text(s).len() ==> scalar_text(s)[i] != '\n',
        scalar_text(s).len() > 0,
        scalar_text(s).last() != '\r',
{
    if must_quote(s) {
        lemma_escaped_one_line(s);
        let t = escaped(s);
        assert(t.last() == '"');
    } else {
        assert forall|i: int| 0 <= i < s.len() implies s[i] != '\n' by {
            if s[i] == '\n' {
                assert(special_char(s[i]));
            }
        }
        if s.last() == '\r' {
            assert(special_char(s[s.len() - 1]));
        }
    }
}

proof fn lemma_escaped_one_line(s: Seq<char>)
    ensures
        forall|i: int| 0 <= i < escaped(s).len() ==> escaped(s)[i] != '\n',
{
    lemma_escaped_body_one_line(s);
    let b = escaped_body(s);
    let t = escaped(s);
    assert forall|i: int| 0 <= i < t.len() implies t[i] != '\n' by {
        if 0 < i < t.len() - 1 {
            assert(t[i] == b[i - 1]);
        }
    }
}

proof fn lemma_escaped_body_one_line(s: Seq<char>)
    ensures
        forall|i: int| 0 <= i < escaped_body(s).len() ==> escaped_body(s)[i] != '\n',
    decreases s.len(),
{
    if s.len() > 0 {
        lemma_escaped_body_one_line(s.drop_first());
        let e = escape_char(s[0]);
        let b = escaped_body(s);
        let r = escaped_body(s.drop_first());
        assert forall|i: int| 0 <= i < e.len() implies e[i] != '\n' by {
            lemma_char_range(s[0]);
            if (s[0] as u32) < 0x20 || s[0] == '\x7f' {
                lemma_hex_digit_not_feed((s[0] as nat) / 16);
                lemma_hex_digit_not_feed((s[0] as nat) % 16);
            }
        }
        assert forall|i: int| 0 <= i < b.len() implies b[i] != '\n' by {
            if i < e.len() {
                assert(b[i] == e[i]);
            } else {
                assert(b[i] == r[i - e.len()]);
            }
        }
    }
}

proof fn lemma_hex_digit_not_feed(d: nat)
    requires
        d < 16,
    ensures
        hex_digit_char(d) != '\n',
{
}

/// The lines of a document that starts with its start marker: that marker,
/// then the lines `ls`.
proof fn lemma_document_lines(ls: Seq<Seq<char>>)
    requires
        forall|i: int, j: int| 0 <= i < ls.len() && 0 <= j < ls[i].len() ==> ls[i][j] != '\n',
    ensures
        raw_lines("---"@ + lines_text(ls)).0 == seq!["---"@] + ls,
    decreases ls.len(),
{
    reveal_strlit("---");
    if ls.len() == 0 {
        assert("---"@ + lines_text(ls) =~= "---"@);
        lemma_raw_lines_one("---"@);
        assert(seq!["---"@] + ls =~= seq!["---"@]);
    } else {
        let rest = ls.drop_last();
        lemma_document_lines(rest);
        lemma_raw_lines_push("---"@ + lines_text(rest), ls.last());
        assert("---"@ + lines_text(ls) =~= ("---"@ + lines_text(rest)) + seq!['\n'] + ls.last());
        assert((seq!["---"@] + rest).push(ls.last()) =~= seq!["---"@] + ls);
    }
}

/// How a scalar written by the serializer starts, and what a plain one
/// leaves out.
proof fn lemma_scalar_text_start(s: Seq<char>)
    ensures
        scalar_text(s).len() > 0,
        scalar_text(s)[0] != ' ',
        scalar_text(s)[0] != '#',
        scalar_text(s)[0] != '-',
        scalar_text(s)[0] != '.',
        scalar_text(s)[0] != '|',
        must_quote(s) ==> scalar_text(s)[0] == '"',
        !must_quote(s) ==> {
            &&& scalar_text(s) == s
            &&& s[0] != '"' && s[0] != '\''
            &&& s.last() != ' '
            &&& forall|i: int| 0 <= i < s.len() ==> s[i] != ':' && s[i] != '#'
        },
{
    if !must_quote(s) {
        assert(!special_char(s[0]));
        assert forall|i: int| 0 <= i < s.len() implies s[i] != ':' && s[i] != '#' by {
            assert(!special_char(s[i]));
        }
    }
}

/// The plain key text up to position `j` holds no mapping value indicator
/// and no comment, and `j` holds the indicator.
proof fn lemma_key_end_at(t: Seq<char>, i: int, j: int, c: int)
    requires
        0 <= i <= j,
        colon_at(t, j),
        forall|p: int| i <= p < j ==> t[p] != ':' && t[p] != '#',
    ensures
        key_end(t, i, c) == j,
    decreases j - i,
{
    if i < j {
        lemma_key_end_at(t, i + 1, j, c);
    }
}

/// No plain key text ends before the end of `t` from position `i` on.
proof fn lemma_key_end_none(t: Seq<char>, i: int, c: int)
    requires
        0 <= i <= t.len(),
        forall|p: int| i <= p < t.len() ==> t[p] != ':' && t[p] != '#',
    ensures
        key_end(t, i, c) == t.len(),
    decreases t.len() - i,
{
    if i < t.len() {
        lemma_key_end_none(t, i + 1, c);
    }
}

/// What the reader finds where a scalar written by the serializer starts at
/// column `p` of a line: no sequence entry, no mapping key, no literal block,
/// and a scalar that reads as the string written.
proof fn lemma_scalar_at(line: Seq<char>, p: int, s: Seq<char>)
    requires
        0 <= p <= line.len(),
        line.skip(p) == scalar_text(s),
    ensures
        p < line.len(),
        line[p] != ' ' && line[p] != '#' && line[p] != '|' && line[p] != '-',
        !dash_at(line, p),
        key_split(line, p) is None,
        read_inline(line.skip(p)) == Some(s),
{
    let st = scalar_text(s);
    lemma_scalar_text_start(s);
    law_scalar_round_trip(s);
    assert(line[p] == st[0]);
    if must_quote(s) {
        let b = escaped_body(s);
        let bl = b.len() as int;
        assert(st.subrange(1, 1 + bl) =~= b);
        lemma_read_escaped(st, 1, s);
        assert(skip_spaces(line, line.len() as int) == line.len());
    } else {
        assert forall|q: int| p <= q < line.len() implies line[q] != ':' && line[q] != '#' by {
            assert(line[q] == s[q - p]);
        }
        lemma_key_end_none(line, p, p);
    }
}

/// What the reader finds where a mapping entry written by the serializer
/// starts at column `p` of a line: the key and its colon, then a string
/// value after one space, or the end of the line.
proof fn lemma_entry_at(line: Seq<char>, p: int, k: Seq<char>, x: Tree)
    requires
        0 <= p <= line.len(),
        line.skip(p) == entry_first(k, x),
    ensures
        p < line.len(),
        line[p] != ' ' && line[p] != '#' && line[p] != '-' && line[p] != '.',
        !dash_at(line, p),
        key_split(line, p) == Some((k, p + scalar_text(k).len() + 1)),
        x is Text ==> {
            let vc = p + scalar_text(k).len() + 2;
            &&& skip_spaces(line, vc - 1) == vc
            &&& vc < line.len()
            &&& line[vc] != '#' && line[vc] != '|'
            &&& read_inline(line.skip(vc)) == Some(x->Text_0)
        },
        !(x is Text) ==> p + scalar_text(k).len() + 1 == line.len(),
{
    let kt = scalar_text(k);
    let e = kt.len() as int;
    let u = line.skip(p);
    lemma_scalar_text_start(k);
    assert(u.len() > e && u[0] == kt[0] && u[e] == ':' && forall|i: int|
        0 <= i < e ==> u[i] == kt[i]) by {
        match x {
            Tree::Text(s) => {},
            _ => {},
        }
    }
    assert(line[p] == u[0]);
    assert(line[p + e] == u[e]);
    match x {
        Tree::Text(s) => {
            assert(u == kt + seq![':', ' '] + scalar_text(s));
            assert(line[p + e + 1] == u[e + 1]);
            assert(line[p + e + 1] == ' ');
            assert(line.skip(p + e + 2) =~= u.skip(e + 2));
            assert(u.skip(e + 2) =~= scalar_text(s));
            lemma_scalar_at(line, p + e + 2, s);
            assert(skip_spaces(line, p + e + 2) == p + e + 2);
        },
        _ => {},
    }
    assert(colon_at(line, p + e));
    if must_quote(k) {
        let b = escaped_body(k);
        let bl = b.len() as int;
        assert(u.subrange(1, 1 + bl) =~= b) by {
            assert forall|i: int| 0 <= i < bl implies u.subrange(1, 1 + bl)[i] == b[i] by {
                assert(u[1 + i] == kt[1 + i]);
            }
        }
        assert(u[1 + bl] == kt[1 + bl]);
        lemma_read_escaped(u, 1, k);
        assert(skip_spaces(line, p + e) == p + e);
    } else {
        assert forall|q: int| p <= q < p + e implies line[q] != ':' && line[q] != '#' by {
            assert(line[q] == u[q - p]);
        }
        lemma_key_end_at(line, p, p + e, p);
        assert(line.subrange(p, p + e) =~= k);
        assert(trim_end(k) == k);
    }
}

/// Spaces before a text do not change whether a line is blank.
proof fn lemma_blank_after_spaces(n: nat, f: Seq<char>)
    ensures
        blank_or_comment(spaces(n) + f) == blank_or_comment(f),
    decreases n,
{
    if n > 0 {
        lemma_blank_after_spaces((n - 1) as nat, f);
        assert((spaces(n) + f).drop_first() =~= spaces((n - 1) as nat) + f);
    } else {
        assert(spaces(0) + f =~= f);
    }
}

proof fn lemma_skip_spaces_to(t: Seq<char>, k: int, c: int)
    requires
        0 <= k <= c < t.len(),
        forall|i: int| k <= i < c ==> t[i] == ' ',
        t[c] != ' ',
    ensures
        skip_spaces(t, k) == c,
    decreases c - k,
{
    if k < c {
        lemma_skip_spaces_to(t, k + 1, c);
    }
}

/// A line of `c` spaces and then `f`, where `f` starts with neither a space
/// nor a comment: it is indented by `c`, not blank, and no document marker
/// unless `f` may start one.
proof fn lemma_indented_line(c: nat, f: Seq<char>)
    requires
        f.len() >= 2,
        f[0] != ' ',
        f[0] != '#',
        c > 0 || f[1] == ' ' || (f[0] != '-' && f[0] != '.'),
    ensures
        indent(spaces(c) + f) == c,
        !blank_or_comment(spaces(c) + f),
        !is_any_marker(spaces(c) + f),
        (spaces(c) + f).skip(c as int) == f,
{
    let line = spaces(c) + f;
    lemma_skip_spaces_to(line, 0, c as int);
    lemma_blank_after_spaces(c, f);
    assert(line.skip(c as int) =~= f);
}

/// How the text of a collection starts: with a sequence indicator and a
/// space, or with a key, which is no space, comment, dash or dot.
proof fn lemma_render_first(t: Tree, c: nat)
    requires
        tree_ok(t),
        !(t is Text),
    ensures
        render(t, c).0.len() >= 2,
        render(t, c).0[0] != ' ' && render(t, c).0[0] != '#',
        t is Items ==> render(t, c).0[0] == '-' && render(t, c).0[1] == ' ',
        t is Entries ==> render(t, c).0[0] != '-' && render(t, c).0[0] != '.',
{
    match t {
        Tree::Items(items) => {},
        Tree::Entries(keys, values) => {
            lemma_scalar_text_start(keys[0]);
            assert(render(t, c).0[0] == scalar_text(keys[0])[0]);
        },
        Tree::Text(_) => {},
    }
}

/// Whether `x` can stand as a line: it has a character, no line feed, and
/// no carriage return at its end.
spec fn clean_line(x: Seq<char>) -> bool {
    &&& x.len() > 0
    &&& x.last() != '\r'
    &&& forall|i: int| 0 <= i < x.len() ==> x[i] != '\n'
}

proof fn lemma_clean_join(a: Seq<char>, b: Seq<char>)
    requires
        forall|i: int| 0 <= i < a.len() ==> a[i] != '\n',
        clean_line(b),
    ensures
        clean_line(a + b),
{
    let ab = a + b;
    assert(ab.last() == b.last());
    assert forall|i: int| 0 <= i < ab.len() implies ab[i] != '\n' by {
        if i >= a.len() {
            assert(ab[i] == b[i - a.len()]);
        }
    }
}

proof fn lemma_spaces_clean(n: nat)
    ensures
        forall|i: int| 0 <= i < spaces(n).len() ==> spaces(n)[i] != '\n',
{
}

/// Every line of the text of a tree can stand as a line.
proof fn lemma_render_clean(t: Tree, c: nat)
    requires
        tree_ok(t),
    ensures
        clean_line(render(t, c).0),
        forall|i: int| 0 <= i < render(t, c).1.len() ==> clean_line(#[trigger] render(t, c).1[i]),
    decreases t, 1nat,
{
    match t {
        Tree::Text(s) => {
            lemma_scalar_text_one_line(s);
        },
        Tree::Items(items) => {
            lemma_render_items_clean(items, c);
        },
        Tree::Entries(keys, values) => {
            lemma_render_entries_clean(keys, values, c);
        },
    }
}

proof fn lemma_render_items_clean(items: Seq<Tree>, c: nat)
    requires
        items.len() > 0,
        items_ok(items),
    ensures
        clean_line(render_items(items, c).0),
        forall|i: int|
            0 <= i < render_items(items, c).1.len() ==> clean_line(
                #[trigger] render_items(items, c).1[i],
            ),
    decreases items, 0nat,
{
    let x = items[0];
    lemma_render_clean(x, c + 2);
    lemma_clean_join(seq!['-', ' '], render(x, c + 2).0);
    let rx = render(x, c + 2).1;
    if items.len() > 1 {
        let rest = items.drop_first();
        lemma_render_items_clean(rest, c);
        let f1 = render_items(rest, c).0;
        let r1 = render_items(rest, c).1;
        lemma_spaces_clean(c);
        lemma_clean_join(spaces(c), f1);
        let r = rx + seq![spaces(c) + f1] + r1;
        assert(render_items(items, c).1 == r);
        assert forall|i: int| 0 <= i < r.len() implies clean_line(#[trigger] r[i]) by {
            if i < rx.len() {
                assert(r[i] == rx[i]);
            } else if i == rx.len() {
                assert(r[i] == spaces(c) + f1);
            } else {
                assert(r[i] == r1[i - rx.len() - 1]);
            }
        }
    }
}

proof fn lemma_render_entries_clean(keys: Seq<Seq<char>>, values: Seq<Tree>, c: nat)
    requires
        keys.len() > 0,
        keys.len() == values.len(),
        items_ok(values),
    ensures
        clean_line(render_entries(keys, values, c).0),
        forall|i: int|
            0 <= i < render_entries(keys, values, c).1.len() ==> clean_line(
                #[trigger] render_entries(keys, values, c).1[i],
            ),
    decreases values, 0nat,
{
    let k = keys[0];
    let x = values[0];
    let kt = scalar_text(k);
    lemma_scalar_text_one_line(k);
    let below = entry_below(x, c);
    match x {
        Tree::Text(s) => {
            lemma_scalar_text_one_line(s);
            let a = kt + seq![':', ' '];
            assert forall|i: int| 0 <= i < a.len() implies a[i] != '\n' by {
                if i < kt.len() {
                    assert(a[i] == kt[i]);
                }
            }
            lemma_clean_join(a, scalar_text(s));
        },
        _ => {
            let f = kt + seq![':'];
            assert forall|i: int| 0 <= i < f.len() implies f[i] != '\n' by {
                if i < kt.len() {
                    assert(f[i] == kt[i]);
                }
            }
            lemma_render_clean(x, c + 2);
            lemma_spaces_clean(c + 2);
            lemma_clean_join(spaces(c + 2), render(x, c + 2).0);
            let rx = render(x, c + 2).1;
            assert forall|i: int| 0 <= i < below.len() implies clean_line(#[trigger] below[i]) by {
                if i > 0 {
                    assert(below[i] == rx[i - 1]);
                }
            }
        },
    }
    if keys.len() > 1 {
        let ks = keys.drop_first();
        let vs = values.drop_first();
        lemma_render_entries_clean(ks, vs, c);
        let f1 = render_entries(ks, vs, c).0;
        let r1 = render_entries(ks, vs, c).1;
        lemma_spaces_clean(c);
        lemma_clean_join(spaces(c), f1);
        let r = below + seq![spaces(c) + f1] + r1;
        assert(render_entries(keys, values, c).1 == r);
        assert forall|i: int| 0 <= i < r.len() implies clean_line(#[trigger] r[i]) by {
            if i < below.len() {
                assert(r[i] == below[i]);
            } else if i == below.len() {
                assert(r[i] == spaces(c) + f1);
            } else {
                assert(r[i] == r1[i - below.len() - 1]);
            }
        }
    }
}

/// Whether line `e` of `m` ends a collection at column `c`: it is past the
/// last line, or a line that is not blank and is indented less or is a
/// document marker.
spec fn ends_at(m: TextModel, e: int, c: int) -> bool {
    e == m.lines.len() || (0 <= e < m.lines.len() && !blank_or_comment(m.lines[e]) && (indent(
        m.lines[e],
    ) < c || is_any_marker(m.lines[e])))
}

/// Whether the lines of `m` from line `l` on hold the text `first`, `below`
/// of a collection at column `c`, and the collection ends after them.
spec fn placed(m: TextModel, l: int, c: nat, first: Seq<char>, below: Seq<Seq<char>>) -> bool {
    &&& 0 <= l
    &&& l + 1 + below.len() <= m.lines.len()
    &&& c <= m.lines[l].len()
    &&& m.lines[l].skip(c as int) == first
    &&& forall|j: int| 0 <= j < below.len() ==> m.lines[l + 1 + j] == below[j]
    &&& ends_at(m, l + 1 + below.len(), c as int)
}

/// Reading the next line of content at `e` finds `e` itself when it is a line
/// that ends a collection.
proof fn lemma_next_content_at(m: TextModel, e: int, c: int)
    requires
        ends_at(m, e, c),
    ensures
        next_content(m, e) == e,
        e < m.lines.len() ==> is_any_marker(m.lines[e]) || indent(m.lines[e]) < c,
{
}

/// The reader reads the text of a collection back as the collection.
proof fn lemma_read_tree(m: TextModel, t: Tree, l: int, c: nat, floor: int)
    requires
        tree_ok(t),
        !(t is Text),
        placed(m, l, c, render(t, c).0, render(t, c).1),
    ensures
        node_at(m, l, c as int, floor) matches Ok((n, e)) && e == l + 1 + render(t, c).1.len()
            && same_tree(n, t),
    decreases t, 1nat,
{
    let ci = c as int;
    let line = m.lines[l];
    let f = render(t, c).0;
    lemma_render_first(t, c);
    assert(line[ci] == f[0]);
    match t {
        Tree::Items(items) => {
            assert(line[ci + 1] == f[1]);
            assert(dash_at(line, c as int));
            lemma_read_items(m, items, l, c);
        },
        Tree::Entries(keys, values) => {
            lemma_entry_at(line, ci, keys[0], values[0]);
            lemma_read_entries(m, keys, values, l, c);
        },
        Tree::Text(_) => {},
    }
}

/// The reader reads the first element of a sequence, whose indicator is at
/// column `c` of line `l`, back as the element.
proof fn lemma_read_item(m: TextModel, x: Tree, l: int, c: nat)
    requires
        tree_ok(x),
        0 <= l,
        l + 1 + render(x, c + 2).1.len() <= m.lines.len(),
        c <= m.lines[l].len(),
        m.lines[l].skip(c as int) == seq!['-', ' '] + render(x, c + 2).0,
        forall|j: int|
            0 <= j < render(x, c + 2).1.len() ==> m.lines[l + 1 + j] == #[trigger] render(
                x,
                c + 2,
            ).1[j],
        ends_at(m, l + 1 + render(x, c + 2).1.len(), c as int + 2),
    ensures
        sequence_item(m, l, c as int) matches Ok((n, e)) && e == l + 1 + render(x, c + 2).1.len()
            && same_tree(n, x),
    decreases x, 2nat,
{
    let ci = c as int;
    let line = m.lines[l];
    let fx = render(x, c + 2).0;
    let rx = render(x, c + 2).1;
    let u = line.skip(ci);
    assert(u == seq!['-', ' '] + fx);
    assert(line.skip(ci + 2) =~= fx) by {
        assert(u.skip(2) =~= line.skip(ci + 2));
    }
    assert(line[ci + 1] == u[1]);
    match x {
        Tree::Text(s) => {
            lemma_scalar_at(line, ci + 2, s);
            assert(node_at(m, l, ci + 2, ci + 1) == Ok::<(NodeModel, int), ScanError>(
                (NodeModel::Scalar(s, mark_at(m, l, ci + 2)), l + 1),
            ));
        },
        _ => {
            lemma_render_first(x, c + 2);
            assert(line[ci + 2] == fx[0]);
            lemma_read_tree(m, x, l, c + 2, ci + 1);
        },
    }
    assert(skip_spaces(line, ci + 2) == ci + 2);
    assert(skip_spaces(line, ci + 1) == ci + 2);
    assert(line[ci + 2] != '#');
    assert(sequence_item(m, l, ci) == node_at(m, l, ci + 2, ci + 1));
}

/// The reader reads the text of the elements of a sequence back as them.
proof fn lemma_read_items(m: TextModel, items: Seq<Tree>, l: int, c: nat)
    requires
        items.len() > 0,
        items_ok(items),
        placed(m, l, c, render_items(items, c).0, render_items(items, c).1),
    ensures
        sequence_items(m, l, c as int) matches Ok((ns, e)) && e == l + 1 + render_items(
            items,
            c,
        ).1.len() && same_items(ns, items),
    decreases items, 0nat,
{
    let ci = c as int;
    let x = items[0];
    let rx = render(x, c + 2).1;
    let r = render_items(items, c).1;
    let next = l + 1 + rx.len();
    assert forall|j: int| 0 <= j < rx.len() implies m.lines[l + 1 + j] == rx[j] by {
        assert(r[j] == rx[j]);
    }
    if items.len() > 1 {
        let rest = items.drop_first();
        let f1 = render_items(rest, c).0;
        let r1 = render_items(rest, c).1;
        assert(r == rx + seq![spaces(c) + f1] + r1);
        assert(r[rx.len() as int] == spaces(c) + f1);
        assert(m.lines[next] == spaces(c) + f1);
        lemma_indented_line(c, f1);
        assert(ends_at(m, next, ci + 2));
    } else {
        assert(r == rx);
    }
    lemma_read_item(m, x, l, c);
    let (nx, e0) = sequence_item(m, l, ci)->Ok_0;
    assert(e0 == next);
    lemma_next_content_at(m, next, ci + 2);
    if items.len() > 1 {
        let rest = items.drop_first();
        let f1 = render_items(rest, c).0;
        let r1 = render_items(rest, c).1;
        let line1 = m.lines[next];
        assert(line1.skip(ci) == f1);
        assert(dash_at(line1, ci)) by {
            assert(line1[ci] == f1[0]);
            assert(line1[ci + 1] == f1[1]);
        }
        assert(indent(line1) == ci);
        assert forall|j: int| 0 <= j < r1.len() implies m.lines[next + 1 + j] == r1[j] by {
            assert(r[rx.len() + 1 + j] == r1[j]);
        }
        lemma_read_items(m, rest, next, c);
        let (ns1, e1) = sequence_items(m, next, ci)->Ok_0;
        assert(sequence_items(m, l, ci) == Ok::<(Seq<NodeModel>, int), ScanError>(
            (seq![nx] + ns1, e1),
        ));
        assert(r == rx + seq![spaces(c) + f1] + r1);
        let ns = seq![nx] + ns1;
        assert(ns.drop_first() =~= ns1);
        assert(ns[0] == nx);
        assert(same_items(ns, items));
    } else {
        assert(sequence_items(m, l, ci) == Ok::<(Seq<NodeModel>, int), ScanError>(
            (seq![nx], next),
        ));
        assert(r == rx);
        assert(seq![nx].drop_first() =~= Seq::<NodeModel>::empty());
        assert(items.drop_first().len() == 0);
        assert(same_items(seq![nx].drop_first(), items.drop_first()));
        assert(seq![nx][0] == nx);
        assert(same_items(seq![nx], items));
    }
}

/// The reader reads the value of the first entry of a mapping, whose key is
/// at column `c` of line `l`, back as the value.
#[verifier::rlimit(60)]
proof fn lemma_read_value(m: TextModel, k: Seq<char>, x: Tree, l: int, c: nat)
    requires
        tree_ok(x),
        0 <= l,
        l + 1 + entry_below(x, c).len() <= m.lines.len(),
        c <= m.lines[l].len(),
        m.lines[l].skip(c as int) == entry_first(k, x),
        forall|j: int|
            0 <= j < entry_below(x, c).len() ==> m.lines[l + 1 + j] == #[trigger] entry_below(
                x,
                c,
            )[j],
        ends_at(m, l + 1 + entry_below(x, c).len(), c as int + 2),
    ensures
        ({
            let after = c as int + scalar_text(k).len() + 1;
            mapping_value(m, l, c as int, skip_spaces(m.lines[l], after)) matches Ok((n, e)) && e
                == l + 1 + entry_below(x, c).len() && same_tree(n, x)
        }),
    decreases x, 2nat,
{
    let ci = c as int;
    let line = m.lines[l];
    let after = ci + scalar_text(k).len() + 1;
    lemma_entry_at(line, ci, k, x);
    match x {
        Tree::Text(s) => {
            assert(mapping_value(m, l, ci, skip_spaces(line, after)) == Ok::<
                (NodeModel, int),
                ScanError,
            >((NodeModel::Scalar(s, mark_at(m, l, after + 1)), l + 1)));
        },
        _ => {
            let fx = render(x, c + 2).0;
            let rx = render(x, c + 2).1;
            let below = entry_below(x, c);
            lemma_skip_spaces_grows(line, after);
            assert(skip_spaces(line, after) == line.len());
            lemma_render_first(x, c + 2);
            assert(below == seq![spaces(c + 2) + fx] + rx);
            assert(below[0] == spaces(c + 2) + fx);
            assert(m.lines[l + 1] == spaces(c + 2) + fx);
            lemma_indented_line(c + 2, fx);
            assert(next_content(m, l + 1) == l + 1);
            assert forall|j: int| 0 <= j < rx.len() implies m.lines[l + 1 + 1 + j] == rx[j] by {
                assert(below[1 + j] == rx[j]);
            }
            lemma_read_tree(m, x, l + 1, c + 2, ci + 1);
        },
    }
}

/// The reader reads the text of the entries of a mapping back as them.
#[verifier::rlimit(60)]
proof fn lemma_read_entries(m: TextModel, keys: Seq<Seq<char>>, values: Seq<Tree>, l: int, c: nat)
    requires
        keys.len() > 0,
        keys.len() == values.len(),
        items_ok(values),
        placed(m, l, c, render_entries(keys, values, c).0, render_entries(keys, values, c).1),
    ensures
        mapping_entries(m, l, c as int) matches Ok((es, e)) && e == l + 1 + render_entries(
            keys,
            values,
            c,
        ).1.len() && same_entries(es, keys, values),
    decreases values, 0nat,
{
    let ci = c as int;
    let line = m.lines[l];
    let k = keys[0];
    let x = values[0];
    let below = entry_below(x, c);
    let r = render_entries(keys, values, c).1;
    let next = l + 1 + below.len();
    assert forall|j: int| 0 <= j < below.len() implies m.lines[l + 1 + j] == below[j] by {
        assert(r[j] == below[j]);
    }
    if keys.len() > 1 {
        let ks = keys.drop_first();
        let vs = values.drop_first();
        let f1 = render_entries(ks, vs, c).0;
        assert(r == below + seq![spaces(c) + f1] + render_entries(ks, vs, c).1);
        assert(r[below.len() as int] == spaces(c) + f1);
        assert(m.lines[next] == spaces(c) + f1);
        lemma_entry_first_start(ks[0], vs[0]);
        lemma_indented_line(c, f1);
        assert(ends_at(m, next, ci + 2));
    } else {
        assert(r == below);
        assert(ends_at(m, next, ci + 2));
    }
    lemma_entry_at(line, ci, k, x);
    lemma_read_value(m, k, x, l, c);
    let vr = mapping_value(m, l, ci, skip_spaces(line, ci + scalar_text(k).len() + 1));
    let value = vr->Ok_0.0;
    let entry = EntryModel { key: k, key_mark: mark_at(m, l, ci), value };
    lemma_next_content_at(m, next, ci + 2);
    if keys.len() > 1 {
        let ks = keys.drop_first();
        let vs = values.drop_first();
        let f1 = render_entries(ks, vs, c).0;
        let r1 = render_entries(ks, vs, c).1;
        let line1 = m.lines[next];
        assert(line1.skip(ci) == f1);
        lemma_entry_at(line1, ci, ks[0], vs[0]);
        assert(indent(line1) == ci);
        assert forall|j: int| 0 <= j < r1.len() implies m.lines[next + 1 + j] == r1[j] by {
            assert(r[below.len() + 1 + j] == r1[j]);
        }
        lemma_read_entries(m, ks, vs, next, c);
        let (es1, e1) = mapping_entries(m, next, ci)->Ok_0;
        assert(mapping_entries(m, l, ci) == Ok::<(Seq<EntryModel>, int), ScanError>(
            (seq![entry] + es1, e1),
        ));
        assert(r == below + seq![spaces(c) + f1] + r1);
        let es = seq![entry] + es1;
        assert(es.drop_first() =~= es1);
        assert(es[0] == entry);
        assert(same_entries(es, keys, values));
    } else {
        assert(mapping_entries(m, l, ci) == Ok::<(Seq<EntryModel>, int), ScanError>(
            (seq![entry], next),
        ));
        assert(r == below);
        assert(seq![entry].drop_first() =~= Seq::<EntryModel>::empty());
        assert(values.drop_first().len() == 0);
        assert(same_entries(seq![entry].drop_first(), keys.drop_first(), values.drop_first()));
        assert(seq![entry][0] == entry);
        assert(same_entries(seq![entry], keys, values));
    }
}

/// How the first line of a mapping entry starts: with its key.
proof fn lemma_entry_first_start(k: Seq<char>, x: Tree)
    ensures
        entry_first(k, x).len() >= 2,
        entry_first(k, x)[0] == scalar_text(k)[0],
        entry_first(k, x)[0] != ' ' && entry_first(k, x)[0] != '#',
        entry_first(k, x)[0] != '-' && entry_first(k, x)[0] != '.',
{
    lemma_scalar_text_start(k);
    match x {
        Tree::Text(_) => {},
        _ => {},
    }
}

/// A document holding a tree of strings, sequences and mappings, with a
/// collection at its root and no empty collection, written by the
/// serializer, reads back as one document whose root holds the same tree.
#[verifier::rlimit(50)]
pub proof fn law_tree_round_trip(t: Tree)
    requires
        tree_ok(t),
        !(t is Text),
    ensures
        ({
            let docs = text_documents(write_tree(started(), t).output);
            &&& docs.1 is None
            &&& docs.0.len() == 1
            &&& same_tree(docs.0[0].root, t)
        }),
{
    reveal_strlit("---");
    lemma_write_tree(started(), t);
    let text = write_tree(started(), t).output;
    let f = render(t, 0).0;
    let r = render(t, 0).1;
    let ls = seq![f] + r;
    assert(lead(started(), 0) =~= seq!['\n']);
    lemma_lines_text_append(seq![f], r);
    lemma_lines_text_one(f);
    assert(text =~= "---"@ + lines_text(ls));
    lemma_render_clean(t, 0);
    assert forall|i: int| 0 <= i < ls.len() implies clean_line(#[trigger] ls[i]) by {
        if i > 0 {
            assert(ls[i] == r[i - 1]);
        }
    }
    lemma_document_lines(ls);
    let raw = raw_lines(text).0;
    let m = text_model(text);
    let n = m.lines.len();
    assert(n == r.len() + 2);
    assert(m.lines[0] == "---"@) by {
        assert(raw[0] == "---"@);
    }
    assert forall|i: int| 0 <= i < ls.len() implies m.lines[i + 1] == ls[i] by {
        assert(raw[i + 1] == ls[i]);
        assert(clean_line(ls[i]));
    }
    assert(m.lines[1] == f);
    lemma_render_first(t, 0);
    lemma_indented_line(0, f);
    assert(spaces(0) + f =~= f);
    assert(m.lines[1].skip(0) =~= f);
    assert forall|j: int| 0 <= j < r.len() implies m.lines[1 + 1 + j] == r[j] by {
        assert(ls[1 + j] == r[j]);
    }
    assert(placed(m, 1, 0, f, r));
    lemma_read_tree(m, t, 1, 0, 0);
    let (root, end) = node_at(m, 1, 0, 0)->Ok_0;
    assert(end == n);
    assert(next_content(m, 0) == 0);
    assert(skip_document_ends(m, 0) == 0);
    assert(is_marker(m.lines[0], '-'));
    assert(next_content(m, 1) == 1);
    assert(next_content(m, n as int) == n);
    let doc = DocumentModel { root, start: mark_at(m, 0, 0), end: line_mark(m, n as int) };
    assert(document_at(m, 0) == Ok::<Option<(DocumentModel, int)>, ScanError>(
        Some((doc, n as int)),
    ));
    assert(skip_document_ends(m, n as int) == n);
    assert(documents_from(m, n as int) == (Seq::<DocumentModel>::empty(), None::<ScanError>));
    assert(documents_from(m, 0) == (seq![doc], None::<ScanError>)) by {
        assert(seq![doc] + Seq::<DocumentModel>::empty() =~= seq![doc]);
    }
}

/// The state after the serializer writes the fields of a struct, named
/// `keys`, with the values `values`.
pub open spec fn write_fields(v: SerializerView, keys: Seq<Seq<char>>, values: Seq<Tree>) -> SerializerView
    decreases values,
{
    if keys.len() == 0 || values.len() == 0 {
        v
    } else {
        write_fields(
            write_tree(after_field_key(v, keys[0]), values[0]),
            keys.drop_first(),
            values.drop_first(),
        )
    }
}

/// At the top level, the fields of a struct are written as the entries of a
/// mapping.
proof fn lemma_fields_as_entries(v: SerializerView, keys: Seq<Seq<char>>, values: Seq<Tree>)
    requires
        v.level == 0,
        keys.len() == values.len(),
        items_ok(values),
    ensures
        write_fields(v, keys, values) == write_entries(v, keys, values),
    decreases values,
{
    if keys.len() > 0 {
        let k = keys[0];
        let v1 = after_line_start(v);
        assert(v1.output + crate::ser::indent_text(v1.level) =~= v1.output);
        assert(after_field_key(v, k) == after_key_end(after_scalar(after_line_start(v), k)));
        let w = write_tree(after_field_key(v, k), values[0]);
        match values[0] {
            Tree::Text(_) => {},
            _ => {
                lemma_write_tree(after_field_key(v, k), values[0]);
            },
        }
        assert(w.level == 0);
        lemma_fields_as_entries(w, keys.drop_first(), values.drop_first());
    }
}

/// A document holding a struct whose fields hold strings, sequences and
/// mappings, none of them empty, written by the serializer, reads back as
/// one document whose root is a mapping from the fields' names to the same
/// trees.
pub proof fn law_struct_round_trip(keys: Seq<Seq<char>>, values: Seq<Tree>, len: Option<usize>)
    requires
        tree_ok(Tree::Entries(keys, values)),
        len != Some(0usize),
    ensures
        ({
            let written = after_end(
                write_fields(after_collection_start(started(), len, "{}"@), keys, values),
            );
            let docs = text_documents(written.output);
            &&& docs.1 is None
            &&& docs.0.len() == 1
            &&& same_tree(docs.0[0].root, Tree::Entries(keys, values))
        }),
{
    let v1 = after_collection_start(started(), len, "{}"@);
    assert(v1 == after_collection_start(started(), None, "{}"@));
    lemma_fields_as_entries(v1, keys, values);
    law_tree_round_trip(Tree::Entries(keys, values));
}

/// Whether every tree of `trees` is well formed and a collection: what the
/// serializer writes as a document that reads back.
pub open spec fn documents_ok(trees: Seq<Tree>) -> bool {
    forall|i: int| 0 <= i < trees.len() ==> tree_ok(#[trigger] trees[i]) && !(trees[i] is Text)
}

/// The text of the documents `trees`, each written by the serializer on its
/// own, one after the other on lines of their own.
pub open spec fn written_documents(trees: Seq<Tree>) -> Seq<char>
    decreases trees.len(),
{
    if trees.len() == 0 {
        Seq::empty()
    } else if trees.len() == 1 {
        write_tree(started(), trees[0]).output
    } else {
        write_tree(started(), trees[0]).output + seq!['\n'] + written_documents(
            trees.drop_first(),
        )
    }
}

/// The lines of the document of the collection `t` below its start marker.
spec fn document_body(t: Tree) -> Seq<Seq<char>> {
    seq![render(t, 0).0] + render(t, 0).1
}

/// The lines of the documents `trees` below the first start marker: each
/// document's lines, and a start marker before each but the first.
spec fn stream_body(trees: Seq<Tree>) -> Seq<Seq<char>>
    decreases trees.len(),
{
    if trees.len() == 0 {
        Seq::empty()
    } else if trees.len() == 1 {
        document_body(trees[0])
    } else {
        document_body(trees[0]) + seq!["---"@] + stream_body(trees.drop_first())
    }
}

/// The serializer writes a document as its start marker and its lines.
proof fn lemma_written_document(t: Tree)
    requires
        tree_ok(t),
        !(t is Text),
    ensures
        write_tree(started(), t).output == "---"@ + lines_text(document_body(t)),
{
    reveal_strlit("---");
    lemma_write_tree(started(), t);
    let f = render(t, 0).0;
    let r = render(t, 0).1;
    assert(lead(started(), 0) =~= seq!['\n']);
    lemma_lines_text_append(seq![f], r);
    lemma_lines_text_one(f);
    assert(write_tree(started(), t).output =~= "---"@ + lines_text(document_body(t)));
}

proof fn lemma_written_documents(trees: Seq<Tree>)
    requires
        trees.len() > 0,
        documents_ok(trees),
    ensures
        written_documents(trees) == "---"@ + lines_text(stream_body(trees)),
        forall|j: int|
            0 <= j < stream_body(trees).len() ==> clean_line(#[trigger] stream_body(trees)[j]),
    decreases trees.len(),
{
    reveal_strlit("---");
    let t = trees[0];
    assert(tree_ok(t) && !(t is Text));
    lemma_written_document(t);
    let d = document_body(t);
    lemma_render_clean(t, 0);
    assert forall|j: int| 0 <= j < d.len() implies clean_line(#[trigger] d[j]) by {
        if j > 0 {
            assert(d[j] == render(t, 0).1[j - 1]);
        }
    }
    if trees.len() > 1 {
        let rest = trees.drop_first();
        assert forall|i: int| 0 <= i < rest.len() implies tree_ok(#[trigger] rest[i]) && !(
        rest[i] is Text) by {
            assert(rest[i] == trees[i + 1]);
        }
        lemma_written_documents(rest);
        let b = stream_body(rest);
        lemma_lines_text_append(d, seq!["---"@]);
        lemma_lines_text_append(d + seq!["---"@], b);
        lemma_lines_text_one("---"@);
        assert(written_documents(trees) =~= "---"@ + lines_text(stream_body(trees)));
        let sb = stream_body(trees);
        assert forall|j: int| 0 <= j < sb.len() implies clean_line(#[trigger] sb[j]) by {
            if j < d.len() {
                assert(sb[j] == d[j]);
            } else if j == d.len() {
                assert(sb[j] == "---"@);
            } else {
                assert(sb[j] == b[j - d.len() - 1]);
            }
        }
    }
}

/// The reader reads the first document of a stream, from its start marker
/// on line `k`, back as the tree it was written from; the next start marker,
/// if any, follows it.
#[verifier::rlimit(60)]
proof fn lemma_read_stream_document(m: TextModel, trees: Seq<Tree>, k: int)
    requires
        trees.len() > 0,
        documents_ok(trees),
        0 <= k,
        m.lines.len() == k + 1 + stream_body(trees).len(),
        m.lines[k] == "---"@,
        forall|j: int|
            0 <= j < stream_body(trees).len() ==> m.lines[k + 1 + j] == #[trigger] stream_body(
                trees,
            )[j],
    ensures
        ({
            let e = k + 1 + document_body(trees[0]).len();
            &&& document_at(m, k) matches Ok(Some((d, next))) && next == e && same_tree(
                d.root,
                trees[0],
            )
            &&& trees.len() == 1 ==> e == m.lines.len()
            &&& trees.len() > 1 ==> m.lines[e] == "---"@ && m.lines.len() == e + 1 + stream_body(
                trees.drop_first(),
            ).len() && forall|j: int|
                0 <= j < stream_body(trees.drop_first()).len() ==> m.lines[e + 1 + j]
                    == #[trigger] stream_body(trees.drop_first())[j]
        }),
{
    reveal_strlit("---");
    let t = trees[0];
    assert(tree_ok(t) && !(t is Text));
    let f = render(t, 0).0;
    let r = render(t, 0).1;
    let d = document_body(t);
    let sb = stream_body(trees);
    let e = k + 2 + r.len();
    assert(forall|j: int| 0 <= j < d.len() ==> sb[j] == d[j]);
    assert(m.lines[k + 1] == f) by {
        assert(sb[0] == d[0]);
    }
    assert forall|j: int| 0 <= j < r.len() implies m.lines[k + 1 + 1 + j] == r[j] by {
        assert(sb[1 + j] == d[1 + j]);
    }
    if trees.len() > 1 {
        let b = stream_body(trees.drop_first());
        assert(sb == d + seq!["---"@] + b);
        assert(sb[d.len() as int] == "---"@);
        assert(m.lines[e] == "---"@);
        assert(is_marker(m.lines[e], '-'));
        assert(!blank_or_comment(m.lines[e]));
        assert forall|j: int| 0 <= j < b.len() implies m.lines[e + 1 + j] == #[trigger] b[j] by {
            assert(sb[d.len() + 1 + j] == b[j]);
        }
    } else {
        assert(sb == d);
    }
    assert(ends_at(m, e, 0));
    lemma_render_first(t, 0);
    lemma_indented_line(0, f);
    assert(spaces(0) + f =~= f);
    assert(m.lines[k + 1].skip(0) =~= f);
    assert(placed(m, k + 1, 0, f, r));
    lemma_read_tree(m, t, k + 1, 0, 0);
    assert(next_content(m, k) == k);
    assert(skip_document_ends(m, k) == k);
    assert(is_marker(m.lines[k], '-'));
    assert(next_content(m, k + 1) == k + 1);
    lemma_next_content_at(m, e, 0);
}

/// The reader reads the documents of a stream, from the start marker on line
/// `k` on, back as the trees they were written from, in order.
proof fn lemma_read_stream(m: TextModel, trees: Seq<Tree>, k: int)
    requires
        trees.len() > 0,
        documents_ok(trees),
        0 <= k,
        m.lines.len() == k + 1 + stream_body(trees).len(),
        m.lines[k] == "---"@,
        forall|j: int|
            0 <= j < stream_body(trees).len() ==> m.lines[k + 1 + j] == #[trigger] stream_body(
                trees,
            )[j],
    ensures
        documents_from(m, k).1 is None,
        documents_from(m, k).0.len() == trees.len(),
        forall|i: int|
            0 <= i < trees.len() ==> same_tree(#[trigger] documents_from(m, k).0[i].root, trees[i]),
    decreases trees.len(),
{
    lemma_read_stream_document(m, trees, k);
    let (doc, e) = document_at(m, k)->Ok_0->Some_0;
    let n = m.lines.len() as int;
    if trees.len() > 1 {
        let rest = trees.drop_first();
        assert forall|i: int| 0 <= i < rest.len() implies tree_ok(#[trigger] rest[i]) && !(
        rest[i] is Text) by {
            assert(rest[i] == trees[i + 1]);
        }
        lemma_read_stream(m, rest, e);
        let ds = documents_from(m, e).0;
        assert(documents_from(m, k) == (seq![doc] + ds, None::<ScanError>));
        assert forall|i: int| 0 <= i < trees.len() implies same_tree(
            #[trigger] documents_from(m, k).0[i].root,
            trees[i],
        ) by {
            if i > 0 {
                assert((seq![doc] + ds)[i] == ds[i - 1]);
                assert(trees[i] == rest[i - 1]);
            }
        }
    } else {
        assert(e == n);
        assert(next_content(m, n) == n);
        assert(skip_document_ends(m, n) == n);
        assert(documents_from(m, n) == (Seq::<DocumentModel>::empty(), None::<ScanError>));
        assert(documents_from(m, k) == (seq![doc], None::<ScanError>)) by {
            assert(seq![doc] + Seq::<DocumentModel>::empty() =~= seq![doc]);
        }
    }
}

/// A stream of documents, each holding a tree of strings, sequences and
/// mappings with a collection at its root and no empty collection, each
/// written by the serializer and put one after the other, reads back as one
/// document for each, in the same order, each with the same tree as that
/// document read on its own.
pub proof fn law_documents_round_trip(trees: Seq<Tree>)
    requires
        documents_ok(trees),
    ensures
        ({
            let docs = text_documents(written_documents(trees));
            &&& docs.1 is None
            &&& docs.0.len() == trees.len()
            &&& forall|i: int|
                0 <= i < trees.len() ==> same_tree(#[trigger] docs.0[i].root, trees[i])
                    && same_tree(text_documents(write_tree(started(), trees[i]).output).0[0].root, trees[i])
        }),
{
    reveal_strlit("---");
    let text = written_documents(trees);
    let m = text_model(text);
    if trees.len() == 0 {
        assert(text =~= Seq::<char>::empty());
        assert(raw_lines(text).0 =~= seq![Seq::<char>::empty()]);
        assert(m.lines =~= seq![Seq::<char>::empty()]);
        assert(next_content(m, 1) == 1);
        assert(next_content(m, 0) == 1);
        assert(skip_document_ends(m, 0) == 1);
        assert(documents_from(m, 0) == (Seq::<DocumentModel>::empty(), None::<ScanError>));
    } else {
        lemma_written_documents(trees);
        let sb = stream_body(trees);
        assert forall|i: int, j: int| 0 <= i < sb.len() && 0 <= j < sb[i].len() implies sb[i][j]
            != '\n' by {
            assert(clean_line(sb[i]));
        }
        lemma_document_lines(sb);
        let raw = raw_lines(text).0;
        assert(m.lines.len() == sb.len() + 1);
        assert(m.lines[0] == "---"@) by {
            assert(raw[0] == "---"@);
        }
        assert forall|j: int| 0 <= j < sb.len() implies m.lines[0 + 1 + j] == #[trigger] sb[j] by {
            assert(raw[j + 1] == sb[j]);
            assert(clean_line(sb[j]));
        }
        lemma_read_stream(m, trees, 0);
    }
    assert forall|i: int| 0 <= i < trees.len() implies same_tree(
        text_documents(write_tree(started(), trees[i]).output).0[0].root,
        trees[i],
    ) by {
        law_tree_round_trip(trees[i]);
    }
}

} // verus!
