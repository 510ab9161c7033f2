use crate::equal::{keyed, lemma_same_reflexive, same};
use crate::grammar::{
    after_statement, at, block_at, comment_at, document, extend_at, has_at, import_at,
    import_word, item_at, keep, more_items, more_statements, pair_at, statement_at,
    statements_at, Construct, Item,
};
use crate::render::{render, render_entry, render_from};
use crate::text::{is_space, lemma_scan, lemma_scan_is, scan, trim, Until};
use crate::tree::{distinct_keys, lemma_find_key, put, Entries, Node};
use crate::wellformed::lemma_after;
use vstd::prelude::*;

verus! {

/// Whether `x` is not empty and neither begins nor ends with a blank.
pub open spec fn tidy(x: Seq<char>) -> bool {
    x.len() > 0 && !is_space(x[0]) && !is_space(x.last())
}

/// Whether no character of `x` is one that `u` hits.
pub open spec fn free_of(x: Seq<char>, u: Until) -> bool {
    forall|i: int| 0 <= i < x.len() ==> !u.hits(#[trigger] x[i])
}

/// Whether `k` can be written as the key of a property and read back: it is
/// tidy, holds no `:`, `{` or `}`, and is not read as a placeholder.
pub open spec fn plain_key(k: Seq<char>) -> bool {
    tidy(k) && free_of(k, Until::KeyEnd) && !(k[0] == '?' && k.len() >= 2 && k[1] != ';')
}

/// Whether `v` can be written as the value of a property and read back: it is
/// tidy and holds no `;`, `{` or `}`.
pub open spec fn plain_value(v: Seq<char>) -> bool {
    tidy(v) && free_of(v, Until::ValueEnd)
}

/// Whether `k` can be written as a selector and read back: it is tidy and
/// holds no `{` or `}`.
pub open spec fn plain_selector(k: Seq<char>) -> bool {
    tidy(k) && free_of(k, Until::SelectorEnd)
}

/// A text without blanks at its ends is its own `trim`, and so is it after
/// any blanks.
proof fn lemma_trim_padded(x: Seq<char>, a: int)
    requires
        0 <= a < x.len(),
        forall|j: int| 0 <= j < a ==> is_space(#[trigger] x[j]),
        !is_space(x[a]),
        !is_space(x.last()),
    ensures
        trim(x) == x.skip(a),
    decreases a,
{
    if a == 0 {
        assert(x.skip(0) =~= x);
    } else {
        let y = x.drop_first();
        assert forall|j: int| 0 <= j < a - 1 implies is_space(#[trigger] y[j]) by {
            assert(y[j] == x[j + 1]);
        }
        lemma_trim_padded(y, a - 1);
        assert(y.skip(a - 1) =~= x.skip(a));
    }
}

/// A text in which `a` followed by `b` stands at `i` has `a` at `i` and `b`
/// right after it.
proof fn lemma_has_at_parts(s: Seq<char>, i: int, a: Seq<char>, b: Seq<char>)
    requires
        has_at(s, i, a + b),
    ensures
        has_at(s, i, a),
        has_at(s, i + a.len(), b),
{
    let w = s.subrange(i, i + (a + b).len());
    assert(s.subrange(i, i + a.len()) =~= a) by {
        assert forall|j: int| 0 <= j < a.len() implies s.subrange(i, i + a.len())[j] == a[j] by {
            assert(w[j] == (a + b)[j]);
        }
    }
    assert(s.subrange(i + a.len(), i + a.len() + b.len()) =~= b) by {
        assert forall|j: int| 0 <= j < b.len() implies s.subrange(
            i + a.len(),
            i + a.len() + b.len(),
        )[j] == b[j] by {
            assert(w[j + a.len()] == (a + b)[j + a.len()]);
        }
    }
}

/// The characters of a text that stands at `i`.
proof fn lemma_has_at_chars(s: Seq<char>, i: int, w: Seq<char>)
    requires
        has_at(s, i, w),
    ensures
        forall|j: int| 0 <= j < w.len() ==> s[i + j] == #[trigger] w[j],
{
    assert forall|j: int| 0 <= j < w.len() implies s[i + j] == #[trigger] w[j] by {
        assert(s.subrange(i, i + w.len())[j] == w[j]);
    }
}

/// Where the parts of a rendered property stand.
proof fn lemma_leaf_layout(s: Seq<char>, i: int, k: Seq<char>, v: Seq<char>)
    requires
        has_at(s, i, render_entry(k, Node::Leaf(v))),
    ensures
        render_entry(k, Node::Leaf(v)).len() == k.len() + v.len() + 3,
        has_at(s, i, k),
        at(s, i + k.len(), ':'),
        has_at(s, i + k.len() + 1, v),
        at(s, i + k.len() + 1 + v.len(), ';'),
        at(s, i + k.len() + 2 + v.len(), '\n'),
{
    let tail = seq![';', '\n'];
    lemma_has_at_parts(s, i, k + seq![':'] + v, tail);
    lemma_has_at_parts(s, i, k + seq![':'], v);
    lemma_has_at_parts(s, i, k, seq![':']);
    lemma_has_at_chars(s, i + k.len(), seq![':']);
    lemma_has_at_chars(s, i + k.len() + 1 + v.len(), tail);
    assert(seq![':'][0] == ':');
    assert(tail[0] == ';' && tail[1] == '\n');
}

/// A rendered property is read back as it was written, also after blanks.
proof fn lemma_property(s: Seq<char>, a: int, i: int, k: Seq<char>, v: Seq<char>)
    requires
        0 <= a <= i,
        forall|j: int| a <= j < i ==> is_space(#[trigger] s[j]),
        plain_key(k),
        plain_value(v),
        has_at(s, i, render_entry(k, Node::Leaf(v))),
    ensures
        statement_at(s, a) == Some(
            (after_statement(s, i + k.len() + 1 + v.len()), (k, Node::Leaf(v))),
        ),
{
    lemma_leaf_layout(s, i, k, v);
    lemma_has_at_chars(s, i, k);
    lemma_has_at_chars(s, i + k.len() + 1, v);
    let c = i + k.len();
    let e = c + 1 + v.len();
    assert(s[i] == k[0]);
    lemma_scan_is(s, a, i, Until::Solid);
    assert(extend_at(s, a) is None) by {
        if k[0] == '?' {
            if k.len() >= 2 {
                assert(s[i + 1] == k[1]);
            }
            lemma_scan_is(s, i + 1, i + 1, Until::NameEnd);
        }
    }
    assert forall|j: int| a <= j < c implies !Until::KeyEnd.hits(#[trigger] s[j]) by {
        if j >= i {
            assert(s[j] == k[j - i]);
        }
    }
    lemma_scan_is(s, a, c, Until::KeyEnd);
    assert forall|j: int| c + 1 <= j < e implies !Until::ValueEnd.hits(#[trigger] s[j]) by {
        assert(s[j] == v[j - (c + 1)]);
    }
    lemma_scan_is(s, c + 1, e, Until::ValueEnd);
    let x = s.subrange(a, c);
    assert(x.last() == k.last()) by {
        assert(s[c - 1] == k[k.len() - 1]);
    }
    lemma_trim_padded(x, i - a);
    assert(x.skip(i - a) =~= k);
    let y = s.subrange(c + 1, e);
    assert(y =~= v);
    lemma_trim_padded(v, 0);
    assert(v.skip(0) =~= v);
}

/// Whether `k` can be written as the name of a placeholder and read back: it
/// is tidy and holds no `:`, `;` or `}`.
pub open spec fn plain_name(k: Seq<char>) -> bool {
    tidy(k) && free_of(k, Until::NameEnd)
}

/// Whether the entry can be written as a statement and read back: it is a
/// property with a plain key and a plain value, or a placeholder under its
/// own plain name.
pub open spec fn plain_statement(e: (Seq<char>, Node)) -> bool {
    match e.1 {
        Node::Leaf(v) => plain_key(e.0) && plain_value(v),
        Node::ExtendMarker(x) => x == e.0 && plain_name(e.0),
        _ => false,
    }
}

/// Whether the entries can be written as the statements of a block and read
/// back: there is one at least, their keys differ, and each is a plain
/// statement.
pub open spec fn statements_body(es: Entries) -> bool {
    es.len() > 0 && distinct_keys(es) && forall|i: int|
        0 <= i < es.len() ==> plain_statement(#[trigger] es[i])
}

/// Where the parts of a rendered placeholder stand.
proof fn lemma_placeholder_layout(s: Seq<char>, i: int, k: Seq<char>, x: Seq<char>)
    requires
        has_at(s, i, render_entry(k, Node::ExtendMarker(x))),
    ensures
        render_entry(k, Node::ExtendMarker(x)).len() == k.len() + 3,
        at(s, i, '?'),
        has_at(s, i + 1, k),
        at(s, i + 1 + k.len(), ';'),
        at(s, i + 2 + k.len(), '\n'),
{
    let tail = seq![';', '\n'];
    lemma_has_at_parts(s, i, seq!['?'] + k, tail);
    lemma_has_at_parts(s, i, seq!['?'], k);
    lemma_has_at_chars(s, i, seq!['?']);
    lemma_has_at_chars(s, i + 1 + k.len(), tail);
    assert(seq!['?'][0] == '?');
    assert(tail[0] == ';' && tail[1] == '\n');
}

/// A rendered placeholder is read back as it was written, also after blanks.
proof fn lemma_placeholder(s: Seq<char>, a: int, i: int, k: Seq<char>)
    requires
        0 <= a <= i,
        forall|j: int| a <= j < i ==> is_space(#[trigger] s[j]),
        plain_name(k),
        has_at(s, i, render_entry(k, Node::ExtendMarker(k))),
    ensures
        statement_at(s, a) == Some((after_statement(s, i + 1 + k.len()), (k, Node::ExtendMarker(k)))),
{
    lemma_placeholder_layout(s, i, k, k);
    lemma_has_at_chars(s, i + 1, k);
    let e = i + 1 + k.len();
    lemma_scan_is(s, a, i, Until::Solid);
    assert forall|j: int| i + 1 <= j < e implies !Until::NameEnd.hits(#[trigger] s[j]) by {
        assert(s[j] == k[j - (i + 1)]);
    }
    lemma_scan_is(s, i + 1, e, Until::NameEnd);
    assert(s.subrange(i + 1, e) =~= k);
    lemma_trim_padded(k, 0);
    assert(k.skip(0) =~= k);
}

/// A rendered statement is read back as it was written, also after blanks.
/// It begins with a character that is neither a blank nor a closing brace,
/// and ends with `;` and a line feed.
proof fn lemma_statement(s: Seq<char>, a: int, i: int, e: (Seq<char>, Node))
    requires
        0 <= a <= i,
        forall|j: int| a <= j < i ==> is_space(#[trigger] s[j]),
        plain_statement(e),
        has_at(s, i, render_entry(e.0, e.1)),
    ensures
        render_entry(e.0, e.1).len() >= 3,
        statement_at(s, a) == Some((after_statement(s, i + render_entry(e.0, e.1).len() - 2), e)),
        at(s, i + render_entry(e.0, e.1).len() - 2, ';'),
        at(s, i + render_entry(e.0, e.1).len() - 1, '\n'),
        i < s.len() && !is_space(s[i]) && s[i] != '}',
{
    match e.1 {
        Node::Leaf(v) => {
            lemma_leaf_layout(s, i, e.0, v);
            lemma_has_at_chars(s, i, e.0);
            assert(s[i] == e.0[0]);
            lemma_property(s, a, i, e.0, v);
        },
        Node::ExtendMarker(x) => {
            lemma_placeholder_layout(s, i, e.0, x);
            lemma_placeholder(s, a, i, e.0);
        },
        _ => {},
    }
}

/// A key that no entry has comes last.
proof fn lemma_put_new(acc: Entries, k: Seq<char>, v: Node)
    requires
        forall|j: int| 0 <= j < acc.len() ==> (#[trigger] acc[j]).0 != k,
    ensures
        put(acc, k, v) == acc.push((k, v)),
{
    lemma_find_key(acc, k, 0);
}

/// The first of the entries from the `n`-th on stands where they stand, the
/// others right after it.
proof fn lemma_list_layout(s: Seq<char>, i: int, es: Entries, n: int)
    requires
        0 <= n < es.len(),
        has_at(s, i, render_from(es, n)),
    ensures
        has_at(s, i, render_entry(es[n].0, es[n].1)),
        has_at(s, i + render_entry(es[n].0, es[n].1).len(), render_from(es, n + 1)),
        render_from(es, n).len() == render_entry(es[n].0, es[n].1).len() + render_from(
            es,
            n + 1,
        ).len(),
{
    lemma_has_at_parts(s, i, render_entry(es[n].0, es[n].1), render_from(es, n + 1));
}

/// After the first `n` rendered statements of a block, the others are read
/// back in order, up to the closing brace.
proof fn lemma_more_statements(s: Seq<char>, e: int, es: Entries, n: int)
    requires
        statements_body(es),
        1 <= n <= es.len(),
        at(s, e, ';'),
        at(s, e + 1, '\n'),
        has_at(s, e + 2, render_from(es, n)),
        at(s, e + 2 + render_from(es, n).len(), '}'),
    ensures
        more_statements(s, after_statement(s, e), es.take(n)) == (
            e + 2 + render_from(es, n).len(),
            es,
        ),
    decreases es.len() - n,
{
    let i = e + 2;
    if n == es.len() {
        lemma_scan_is(s, e + 1, i, Until::Solid);
        assert(es.take(n) =~= es);
    } else {
        lemma_list_layout(s, i, es, n);
        assert forall|j: int| e + 1 <= j < i implies is_space(#[trigger] s[j]) by {}
        lemma_statement(s, e + 1, i, es[n]);
        lemma_scan_is(s, e + 1, i, Until::Solid);
        assert(after_statement(s, e) == e);
        let next = i + render_entry(es[n].0, es[n].1).len() - 2;
        lemma_after(s, next);
        let acc = es.take(n);
        lemma_put_new(acc, es[n].0, es[n].1);
        assert(acc.push(es[n]) =~= es.take(n + 1));
        lemma_more_statements(s, next, es, n + 1);
    }
}

/// The rendered statements of a block are read back in order, up to the
/// closing brace.
proof fn lemma_statements(s: Seq<char>, i: int, es: Entries)
    requires
        statements_body(es),
        has_at(s, i, render_from(es, 0)),
        at(s, i + render_from(es, 0).len(), '}'),
    ensures
        statements_at(s, i) == Some((i + render_from(es, 0).len(), es)),
{
    lemma_list_layout(s, i, es, 0);
    lemma_statement(s, i, i, es[0]);
    let e = i + render_entry(es[0].0, es[0].1).len() - 2;
    assert(seq![es[0]] =~= es.take(1));
    lemma_more_statements(s, e, es, 1);
}

/// Whether `k` begins with `w`.
pub open spec fn starts_with(k: Seq<char>, w: Seq<char>) -> bool {
    k.len() >= w.len() && k.take(w.len() as int) == w
}

/// Whether `k` can be written as the first selector inside a block and read
/// back: it is a plain selector, and with the brace that follows it is taken
/// neither for a placeholder nor for a property. A `?` at its beginning is
/// followed by `:` or `;`; and its first `:`, if it has one, stands at its
/// beginning, at its end, or before a `;`.
pub open spec fn leading_selector(k: Seq<char>) -> bool {
    let c = scan(k, 0, Until::KeyEnd);
    plain_selector(k) && (k[0] == '?' ==> k.len() >= 2 && (k[1] == ':' || k[1] == ';')) && (c
        == k.len() || c == 0 || c + 1 == k.len() || k[c + 1] == ';')
}

/// Whether `k` can be written as a selector at the outermost level and read
/// back, as far as that depends on `k` alone: it is a plain selector that
/// does not begin like a comment.
pub open spec fn outer_selector(k: Seq<char>) -> bool {
    plain_selector(k) && !starts_with(k, seq!['/', '/'])
}

/// Whether none of the entries is taken for an import directive when the
/// entries are written: the text of the entries from any of them on is not
/// read as one at its beginning.
pub open spec fn no_import_read(es: Entries) -> bool {
    forall|i: int| 0 <= i < es.len() ==> import_at(#[trigger] render_from(es, i), 0) is None
}

/// Whether `k` can be written as a selector at this level and read back.
pub open spec fn fit(k: Seq<char>, outer: bool) -> bool {
    if outer {
        outer_selector(k)
    } else {
        plain_selector(k)
    }
}

/// Whether the tree can be written as the body of a block and read back: it
/// is a mapping of plain statements with different keys, or a mapping of one
/// or more blocks with different plain selectors, the first of them a leading
/// one, whose bodies are of this kind again.
pub open spec fn printable_body(n: Node) -> bool
    decreases n,
{
    n is Mapping && (statements_body(n->Mapping_0) || (n->Mapping_0.len() > 0 && distinct_keys(
        n->Mapping_0,
    ) && leading_selector(n->Mapping_0[0].0) && forall|i: int|
        0 <= i < n->Mapping_0.len() ==> plain_selector((#[trigger] n->Mapping_0[i]).0)
            && printable_body(n->Mapping_0[i].1)))
}

/// Whether the tree can be written as a document and read back: it is a
/// mapping of one or more blocks with different outer selectors and printable
/// bodies, none of which is taken for an import directive.
pub open spec fn printable(n: Node) -> bool {
    n is Mapping && n->Mapping_0.len() > 0 && distinct_keys(n->Mapping_0) && no_import_read(
        n->Mapping_0,
    ) && forall|i: int|
        0 <= i < n->Mapping_0.len() ==> outer_selector((#[trigger] n->Mapping_0[i]).0)
            && printable_body(n->Mapping_0[i].1)
}

/// In a text that ends with `w`, a scan within `w` finds what it finds in
/// `w` alone.
proof fn lemma_scan_suffix(s: Seq<char>, i: int, w: Seq<char>, d: int, u: Until)
    requires
        i + w.len() == s.len(),
        has_at(s, i, w),
        0 <= d,
    ensures
        scan(s, i + d, u) == i + scan(w, d, u),
    decreases w.len() - d,
{
    if d < w.len() {
        lemma_has_at_chars(s, i, w);
        assert(s[i + d] == w[d]);
        if !u.hits(w[d]) {
            lemma_scan_suffix(s, i, w, d + 1, u);
        }
    }
}

/// In a text that ends with `w`, an import directive is read where `w`
/// begins if and only if one is read at the beginning of `w` alone.
proof fn lemma_import_suffix(s: Seq<char>, i: int, w: Seq<char>)
    requires
        i + w.len() == s.len(),
        has_at(s, i, w),
    ensures
        import_at(s, i) is None <==> import_at(w, 0) is None,
{
    if w.len() >= 8 {
        lemma_has_at_chars(s, i, w);
        let p = scan(w, 8, Until::ParenClose);
        lemma_scan(w, 8, Until::ParenClose);
        lemma_scan_suffix(s, i, w, 8, Until::ParenClose);
        lemma_scan_suffix(s, i, w, p + 1, Until::Solid);
        let q = scan(w, p + 1, Until::Solid);
        assert(s.subrange(i, i + 8) =~= w.subrange(0, 8));
        if p < w.len() {
            assert(s[i + p] == w[p]);
            lemma_scan(w, p + 1, Until::Solid);
            if q < w.len() {
                assert(s[i + q] == w[q]);
            }
        }
    }
}

/// Where the parts of a rendered block stand.
proof fn lemma_block_layout(s: Seq<char>, i: int, k: Seq<char>, es: Entries)
    requires
        has_at(s, i, render_entry(k, Node::Mapping(es))),
    ensures
        render_entry(k, Node::Mapping(es)).len() == k.len() + render_from(es, 0).len() + 4,
        has_at(s, i, k),
        at(s, i + k.len(), '{'),
        at(s, i + k.len() + 1, '\n'),
        has_at(s, i + k.len() + 2, render_from(es, 0)),
        at(s, i + k.len() + 2 + render_from(es, 0).len(), '}'),
        at(s, i + k.len() + 3 + render_from(es, 0).len(), '\n'),
{
    let open = seq!['{', '\n'];
    let close = seq!['}', '\n'];
    let inner = render_from(es, 0);
    lemma_has_at_parts(s, i, k + open + inner, close);
    lemma_has_at_parts(s, i, k + open, inner);
    lemma_has_at_parts(s, i, k, open);
    lemma_has_at_chars(s, i + k.len(), open);
    lemma_has_at_chars(s, i + k.len() + 2 + inner.len(), close);
    assert(open[0] == '{' && open[1] == '\n');
    assert(close[0] == '}' && close[1] == '\n');
}

/// A rendered block is read back as it was written.
proof fn lemma_block(s: Seq<char>, i: int, k: Seq<char>, body: Node)
    requires
        plain_selector(k),
        printable_body(body),
        has_at(s, i, render_entry(k, body)),
    ensures
        block_at(s, i) == Ok::<Item, Construct>((i + render_entry(k, body).len() - 1, (k, body))),
    decreases body, 0int,
{
    reveal_with_fuel(printable_body, 2);
    let es = body->Mapping_0;
    assert(body == Node::Mapping(es));
    lemma_block_layout(s, i, k, es);
    lemma_has_at_chars(s, i, k);
    let j = i + k.len();
    let b = j + 2;
    let x = b + render_from(es, 0).len();
    assert forall|c: int| i <= c < j implies !Until::SelectorEnd.hits(#[trigger] s[c]) by {
        assert(s[c] == k[c - i]);
    }
    lemma_scan_is(s, i, j, Until::SelectorEnd);
    assert(s.subrange(i, j) =~= k);
    lemma_trim_padded(k, 0);
    assert(k.skip(0) =~= k);
    let k0 = es[0].0;
    lemma_list_layout(s, b, es, 0);
    assert(b < s.len() && !is_space(s[b])) by {
        if statements_body(es) {
            lemma_statement(s, b, b, es[0]);
        } else {
            lemma_block_layout(s, b, k0, es[0].1->Mapping_0);
            lemma_has_at_chars(s, b, k0);
            assert(s[b] == k0[0]);
        }
    }
    lemma_scan_is(s, j + 1, b, Until::Solid);
    lemma_scan_is(s, x, x, Until::Solid);
    if statements_body(es) {
        lemma_statements(s, b, es);
    } else {
        let first = es[0].1;
        assert(first == Node::Mapping(first->Mapping_0));
        lemma_block_layout(s, b, k0, first->Mapping_0);
        lemma_has_at_chars(s, b, k0);
        let c = scan(k0, 0, Until::KeyEnd);
        lemma_scan(k0, 0, Until::KeyEnd);
        assert forall|d: int| b <= d < b + c implies !Until::KeyEnd.hits(#[trigger] s[d]) by {
            assert(s[d] == k0[d - b]);
        }
        if c < k0.len() {
            assert(s[b + c] == k0[c]);
            if c + 1 < k0.len() {
                assert(s[b + c + 1] == k0[c + 1]);
            }
        }
        lemma_scan_is(s, b, b + c, Until::KeyEnd);
        lemma_scan_is(s, b, b, Until::Solid);
        if 0 < c < k0.len() {
            lemma_scan_is(s, b + c + 1, b + c + 1, Until::ValueEnd);
        }
        assert(pair_at(s, b) is None);
        if k0[0] == '?' {
            assert(s[b + 1] == k0[1]);
            lemma_scan_is(s, b + 1, b + 1, Until::NameEnd);
        }
        assert(extend_at(s, b) is None);
        assert(statement_at(s, b) is None);
        lemma_item(s, b, k0, first, false);
        let p = b + render_entry(k0, first).len() - 1;
        lemma_put_new(Seq::empty(), k0, first);
        assert(keep(Seq::empty(), k0, first) =~= es.take(1));
        assert(p + 1 + render_from(es, 1).len() == x);
        lemma_more_items(s, p, es, 1, false);
    }
}

/// A rendered block is read back as an item of its level.
proof fn lemma_item(s: Seq<char>, i: int, k: Seq<char>, body: Node, outer: bool)
    requires
        fit(k, outer),
        printable_body(body),
        has_at(s, i, render_entry(k, body)),
        outer ==> import_at(s, i) is None,
    ensures
        item_at(s, i, outer) == Ok::<Item, Construct>(
            (i + render_entry(k, body).len() - 1, (k, body)),
        ),
        i < i + render_entry(k, body).len() - 1 < s.len(),
        at(s, i + render_entry(k, body).len() - 1, '\n'),
    decreases body, 1int,
{
    let es = body->Mapping_0;
    assert(body == Node::Mapping(es));
    lemma_block_layout(s, i, k, es);
    lemma_has_at_chars(s, i, k);
    lemma_block(s, i, k, body);
    if outer {
        assert(comment_at(s, i) is None) by {
            if at(s, i, '/') && at(s, i + 1, '/') {
                assert(s[i] == k[0]);
                if k.len() >= 2 {
                    assert(s[i + 1] == k[1]);
                    assert(k.take(2) =~= seq!['/', '/']);
                }
            }
        }
    }
}

/// After the first `n` rendered blocks of a list, the others are read back in
/// order, up to the closing brace or the end of the text.
proof fn lemma_more_items(s: Seq<char>, p: int, es: Entries, n: int, outer: bool)
    requires
        1 <= n <= es.len(),
        distinct_keys(es),
        forall|i: int|
            0 <= i < es.len() ==> fit((#[trigger] es[i]).0, outer) && printable_body(es[i].1),
        at(s, p, '\n'),
        has_at(s, p + 1, render_from(es, n)),
        if outer {
            no_import_read(es) && p + 1 + render_from(es, n).len() == s.len()
        } else {
            at(s, p + 1 + render_from(es, n).len(), '}')
        },
    ensures
        more_items(s, p, es.take(n), outer) == (p + 1 + render_from(es, n).len(), es),
    decreases es, es.len() - n,
{
    let i = p + 1;
    if n == es.len() {
        lemma_scan_is(s, p, i, Until::Solid);
        lemma_scan_is(s, i, i, Until::SelectorEnd);
        assert(block_at(s, i) is Err);
        assert(comment_at(s, i) is None);
        assert(import_at(s, i) is None) by {
            let w = import_word();
            if has_at(s, i, w) {
                lemma_has_at_chars(s, i, w);
                assert(s[i + 0] == w[0]);
            }
        }
        assert(es.take(n) =~= es);
    } else {
        let k = es[n].0;
        let child = es[n].1;
        lemma_list_layout(s, i, es, n);
        assert(child == Node::Mapping(child->Mapping_0));
        lemma_block_layout(s, i, k, child->Mapping_0);
        lemma_has_at_chars(s, i, k);
        assert(s[i] == k[0]);
        lemma_scan_is(s, p, i, Until::Solid);
        if outer {
            lemma_import_suffix(s, i, render_from(es, n));
        }
        lemma_item(s, i, k, child, outer);
        let q = i + render_entry(k, child).len() - 1;
        let acc = es.take(n);
        lemma_put_new(acc, k, child);
        assert(acc.push((k, child)) =~= es.take(n + 1));
        lemma_more_items(s, q, es, n + 1, outer);
    }
}

/// In a tree that can be written as a body no mapping has a key twice.
proof fn lemma_body_is_keyed(n: Node)
    requires
        printable_body(n),
    ensures
        keyed(n),
    decreases n,
{
    let es = n->Mapping_0;
    assert forall|i: int| 0 <= i < es.len() implies keyed((#[trigger] es[i]).1) by {
        if !statements_body(es) {
            lemma_body_is_keyed(es[i].1);
        }
    }
}

/// The text of a printable tree parses to this tree, entry by entry in the
/// same order, and nothing of the text is left unread. So what it parses to
/// is the same as the tree, whatever the order of the entries.
pub proof fn lemma_round_trip(t: Node)
    requires
        printable(t),
    ensures
        document(render(t)) == Ok::<(int, Node), Construct>((render(t).len() as int, t)),
        same(document(render(t))->Ok_0.1, t),
{
    assert(keyed(t)) by {
        assert forall|i: int| 0 <= i < t->Mapping_0.len() implies keyed(
            (#[trigger] t->Mapping_0[i]).1,
        ) by {
            lemma_body_is_keyed(t->Mapping_0[i].1);
        }
    }
    lemma_same_reflexive(t);
    let es = t->Mapping_0;
    let s = render(t);
    assert(t == Node::Mapping(es));
    assert(s.subrange(0, s.len() as int) =~= s);
    let k = es[0].0;
    let child = es[0].1;
    lemma_list_layout(s, 0, es, 0);
    assert(child == Node::Mapping(child->Mapping_0));
    lemma_block_layout(s, 0, k, child->Mapping_0);
    lemma_has_at_chars(s, 0, k);
    assert(s[0] == k[0]);
    lemma_scan_is(s, 0, 0, Until::Solid);
    lemma_import_suffix(s, 0, render_from(es, 0));
    lemma_item(s, 0, k, child, true);
    let p = render_entry(k, child).len() - 1;
    lemma_put_new(Seq::empty(), k, child);
    assert(keep(Seq::empty(), k, child) =~= es.take(1));
    lemma_more_items(s, p, es, 1, true);
}

} // verus!
