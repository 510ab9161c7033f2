use crate::grammar::{
    at, block_at, body_at, comment_at, document, extend_at, import_at, item_at, items_at, keep,
    more_items, more_statements, pair_at, statement_at, statements_at,
};
use crate::roundtrip::{
    free_of, leading_selector, lemma_round_trip, no_import_read, plain_selector,
    plain_statement, printable, printable_body, starts_with, statements_body, tidy,
};
use crate::render::render;
use crate::text::{is_space, lemma_scan, lemma_scan_is, scan, trim, Until};
use crate::tree::{distinct_keys, put, Entries, Node};
use crate::wellformed::lemma_put;
use vstd::prelude::*;

verus! {

/// Whether `x` is empty or tidy.
pub open spec fn trimmed(x: Seq<char>) -> bool {
    x.len() == 0 || tidy(x)
}

/// What `trim` keeps of a text: the part from its first character that is no
/// blank to its last one. The lemma gives the bounds of that part.
pub proof fn lemma_trim(x: Seq<char>) -> (r: (int, int))
    ensures
        0 <= r.0 <= r.1 <= x.len(),
        trim(x) == x.subrange(r.0, r.1),
        trimmed(trim(x)),
        r.0 == scan(x, 0, Until::Solid),
        r.0 < x.len() ==> r.0 < r.1,
        forall|j: int| r.1 <= j < x.len() ==> is_space(#[trigger] x[j]),
    decreases x.len(),
{
    if x.len() == 0 {
        assert(x.subrange(0, 0) =~= x);
        (0, 0)
    } else if is_space(x[0]) {
        let y = x.drop_first();
        let (a, b) = lemma_trim(y);
        lemma_scan(y, 0, Until::Solid);
        assert forall|k: int| 0 <= k < a + 1 implies !Until::Solid.hits(#[trigger] x[k]) by {
            if k > 0 {
                assert(x[k] == y[k - 1]);
            }
        }
        if a + 1 < x.len() {
            assert(x[a + 1] == y[a]);
        }
        lemma_scan_is(x, 0, a + 1, Until::Solid);
        assert(x.subrange(a + 1, b + 1) =~= y.subrange(a, b));
        assert forall|j: int| b + 1 <= j < x.len() implies is_space(#[trigger] x[j]) by {
            assert(x[j] == y[j - 1]);
        }
        (a + 1, b + 1)
    } else if is_space(x.last()) {
        let y = x.drop_last();
        let (a, b) = lemma_trim(y);
        assert(y[0] == x[0]);
        assert(x.subrange(a, b) =~= y.subrange(a, b));
        assert forall|j: int| b <= j < x.len() implies is_space(#[trigger] x[j]) by {
            if j < y.len() {
                assert(x[j] == y[j]);
            }
        }
        (a, b)
    } else {
        assert(x.subrange(0, x.len() as int) =~= x);
        (0, x.len() as int)
    }
}

/// What is trimmed of a part of the text that `u` does not hit is trimmed and
/// free of what `u` hits.
proof fn lemma_token(s: Seq<char>, i: int, u: Until)
    requires
        0 <= i <= s.len(),
    ensures
        trimmed(trim(s.subrange(i, scan(s, i, u)))),
        free_of(trim(s.subrange(i, scan(s, i, u))), u),
{
    lemma_scan(s, i, u);
    let x = s.subrange(i, scan(s, i, u));
    let (a, b) = lemma_trim(x);
    assert forall|j: int| 0 <= j < trim(x).len() implies !u.hits(#[trigger] trim(x)[j]) by {
        assert(trim(x)[j] == x[a + j]);
        assert(x[a + j] == s[i + a + j]);
    }
}

/// Whether the entry is what a statement gives: a property whose key and
/// value are trimmed and free of the characters that end them, and whose key
/// is not read as a placeholder; or a placeholder under its own name, which
/// is trimmed and free of the characters that end it.
pub open spec fn parsed_statement(e: (Seq<char>, Node)) -> bool {
    match e.1 {
        Node::Leaf(v) => trimmed(e.0) && free_of(e.0, Until::KeyEnd) && !(e.0.len() >= 2 && e.0[0]
            == '?' && e.0[1] != ';') && trimmed(v) && free_of(v, Until::ValueEnd),
        Node::ExtendMarker(x) => x == e.0 && trimmed(x) && free_of(x, Until::NameEnd),
        _ => false,
    }
}

/// Whether the tree is what the body of a block gives: a mapping with at
/// least one entry and no key twice, of parsed statements, or of blocks with
/// plain selectors, the first a leading one, and bodies of this kind.
pub open spec fn parsed_body(n: Node) -> bool
    decreases n,
{
    n is Mapping && n->Mapping_0.len() > 0 && distinct_keys(n->Mapping_0) && ((forall|i: int|
        0 <= i < n->Mapping_0.len() ==> parsed_statement(#[trigger] n->Mapping_0[i])) || (
    leading_selector(n->Mapping_0[0].0) && forall|i: int|
        0 <= i < n->Mapping_0.len() ==> plain_selector((#[trigger] n->Mapping_0[i]).0)
            && parsed_body(n->Mapping_0[i].1)))
}

/// Whether the entry is what an item of a level gives: an import under its
/// path, at the outermost level, or a block with a plain selector, which at
/// the outermost level does not begin like a comment, and a parsed body.
pub open spec fn parsed_item(e: (Seq<char>, Node), outer: bool) -> bool {
    (outer && e.1 == Node::ImportRef(e.0)) || (plain_selector(e.0) && (outer ==> !starts_with(
        e.0,
        seq!['/', '/'],
    )) && parsed_body(e.1))
}

/// Whether all the entries are what items of a level give.
pub open spec fn all_parsed(es: Entries, outer: bool) -> bool {
    forall|i: int| 0 <= i < es.len() ==> parsed_item(#[trigger] es[i], outer)
}

/// Whether no key and no value in the tree is empty.
pub open spec fn filled(n: Node) -> bool
    decreases n,
{
    match n {
        Node::Mapping(es) => forall|i: int|
            0 <= i < es.len() ==> (#[trigger] es[i]).0.len() > 0 && filled(es[i].1),
        Node::Leaf(v) => v.len() > 0,
        _ => true,
    }
}

/// Whether the document has an entry, no import, and neither an empty key
/// nor an empty value, and none of its entries is taken for an import
/// directive when it is written.
pub open spec fn clean(n: Node) -> bool {
    n is Mapping && n->Mapping_0.len() > 0 && no_import_read(n->Mapping_0) && forall|i: int|
        0 <= i < n->Mapping_0.len() ==> !((#[trigger] n->Mapping_0[i]).1 is ImportRef) && filled(
            n->Mapping_0[i].1,
        )
}

/// A statement that is read is a parsed statement.
proof fn lemma_statement(s: Seq<char>, i: int)
    requires
        0 <= i <= s.len(),
        statement_at(s, i) is Some,
    ensures
        parsed_statement(statement_at(s, i)->Some_0.1),
        i < statement_at(s, i)->Some_0.0 <= s.len(),
{
    crate::wellformed::lemma_statement(s, i);
    let a = scan(s, i, Until::Solid);
    lemma_scan(s, i, Until::Solid);
    if extend_at(s, i) is Some {
        lemma_token(s, a + 1, Until::NameEnd);
    } else {
        let j = scan(s, i, Until::KeyEnd);
        lemma_scan(s, i, Until::KeyEnd);
        lemma_token(s, i, Until::KeyEnd);
        lemma_token(s, j + 1, Until::ValueEnd);
        let raw = s.subrange(i, j);
        let k = trim(raw);
        if k.len() >= 2 && k[0] == '?' && k[1] != ';' {
            let (lo, hi) = lemma_trim(raw);
            lemma_scan(raw, 0, Until::Solid);
            assert(k[0] == raw[lo] && k[1] == raw[lo + 1]);
            assert(raw[lo] == s[i + lo] && raw[lo + 1] == s[i + lo + 1]);
            assert forall|c: int| i <= c < i + lo implies !Until::Solid.hits(#[trigger] s[c]) by {
                assert(s[c] == raw[c - i]);
            }
            lemma_scan_is(s, i, i + lo, Until::Solid);
            lemma_scan(s, i + lo + 2, Until::NameEnd);
            assert(false);
        }
    }
}

/// The statements that follow are declared among parsed statements, and
/// leave parsed statements with different keys.
proof fn lemma_more_statements(s: Seq<char>, p: int, acc: Entries)
    requires
        0 <= p <= s.len(),
        acc.len() > 0,
        distinct_keys(acc),
        forall|i: int| 0 <= i < acc.len() ==> parsed_statement(#[trigger] acc[i]),
    ensures
        more_statements(s, p, acc).1.len() > 0,
        distinct_keys(more_statements(s, p, acc).1),
        forall|i: int|
            0 <= i < more_statements(s, p, acc).1.len() ==> parsed_statement(
                #[trigger] more_statements(s, p, acc).1[i],
            ),
    decreases s.len() - p,
{
    if at(s, p, ';') {
        match statement_at(s, p + 1) {
            Some((q, (k, v))) => {
                if p < q <= s.len() {
                    lemma_statement(s, p + 1);
                    lemma_put(acc, k, v);
                    lemma_more_statements(s, q, put(acc, k, v));
                }
            },
            None => {},
        }
    }
}

/// The selector of a block that begins with a character that is no blank:
/// it is plain, and it is the text from the block's beginning, which only
/// blanks part from the opening brace.
proof fn lemma_selector(s: Seq<char>, i: int)
    requires
        0 <= i < s.len(),
        !is_space(s[i]),
        block_at(s, i) is Ok,
    ensures
        ({
            let k = block_at(s, i)->Ok_0.1.0;
            let j = scan(s, i, Until::SelectorEnd);
            &&& plain_selector(k)
            &&& i + k.len() <= j < s.len()
            &&& k == s.subrange(i, i + k.len())
            &&& s[j] == '{'
            &&& forall|c: int| i + k.len() <= c < j ==> is_space(#[trigger] s[c])
            &&& forall|c: int| i <= c < j ==> !Until::SelectorEnd.hits(#[trigger] s[c])
        }),
{
    let j = scan(s, i, Until::SelectorEnd);
    lemma_scan(s, i, Until::SelectorEnd);
    lemma_token(s, i, Until::SelectorEnd);
    let raw = s.subrange(i, j);
    let (lo, hi) = lemma_trim(raw);
    assert(raw[0] == s[i]);
    assert(lo == 0);
    assert(trim(raw) =~= s.subrange(i, i + hi));
    assert forall|c: int| i + hi <= c < j implies is_space(#[trigger] s[c]) by {
        assert(s[c] == raw[c - i]);
    }
}

/// The first selector inside a block is a leading one: where no statement is
/// read, but a block.
proof fn lemma_leading(s: Seq<char>, i: int)
    requires
        0 <= i < s.len(),
        !is_space(s[i]),
        block_at(s, i) is Ok,
        statement_at(s, i) is None,
    ensures
        leading_selector(block_at(s, i)->Ok_0.1.0),
{
    lemma_selector(s, i);
    let k = block_at(s, i)->Ok_0.1.0;
    let j = scan(s, i, Until::SelectorEnd);
    let n = k.len() as int;
    assert forall|c: int| 0 <= c < n implies k[c] == s[i + c] by {
        assert(s.subrange(i, i + n)[c] == s[i + c]);
    }
    lemma_scan_is(s, i, i, Until::Solid);
    if k[0] == '?' {
        assert(s[i] == k[0]);
        assert(extend_at(s, i) is None);
        lemma_scan(s, i + 2, Until::NameEnd);
        assert(Until::NameEnd.hits(s[i + 1]));
        assert(!Until::SelectorEnd.hits(s[i + 1]));
        assert(!is_space(s[i + 1]));
        assert(k[1] == s[i + 1]);
    }
    let c = scan(k, 0, Until::KeyEnd);
    lemma_scan(k, 0, Until::KeyEnd);
    if 0 < c < n {
        assert forall|d: int| i <= d < i + c implies !Until::KeyEnd.hits(#[trigger] s[d]) by {
            assert(s[d] == k[d - i]);
        }
        assert(s[i + c] == k[c]);
        lemma_scan_is(s, i, i + c, Until::KeyEnd);
        assert(pair_at(s, i) is None);
        assert(s[i + c] == ':');
        lemma_scan(s, i + c + 2, Until::ValueEnd);
        assert(Until::ValueEnd.hits(s[i + c + 1]));
        if c + 1 < n {
            assert(k[c + 1] == s[i + c + 1]);
        }
    }
}

/// A selector at the outermost level does not begin like a comment: where
/// no comment is read, but a block.
proof fn lemma_no_comment(s: Seq<char>, i: int)
    requires
        0 <= i < s.len(),
        !is_space(s[i]),
        block_at(s, i) is Ok,
        comment_at(s, i) is None,
    ensures
        !starts_with(block_at(s, i)->Ok_0.1.0, seq!['/', '/']),
{
    lemma_selector(s, i);
    let k = block_at(s, i)->Ok_0.1.0;
    if starts_with(k, seq!['/', '/']) {
        let w = k.take(2);
        assert(w[0] == '/' && w[1] == '/');
        assert(k[0] == w[0] && k[1] == w[1]);
        assert(s.subrange(i, i + k.len())[0] == s[i]);
        assert(s.subrange(i, i + k.len())[1] == s[i + 1]);
    }
}

/// A block that is read has a parsed body.
proof fn lemma_block(s: Seq<char>, i: int)
    requires
        0 <= i <= s.len(),
        block_at(s, i) is Ok,
    ensures
        parsed_body(block_at(s, i)->Ok_0.1.1),
    decreases s.len() - i, 0int,
{
    let j = scan(s, i, Until::SelectorEnd);
    lemma_scan(s, i, Until::SelectorEnd);
    lemma_body(s, j + 1);
}

/// An item that is read is a parsed item of its level or has no key.
proof fn lemma_item(s: Seq<char>, i: int, outer: bool)
    requires
        0 <= i <= s.len(),
        item_at(s, i, outer) is Ok,
        i < s.len() ==> !is_space(s[i]),
    ensures
        ({
            let e = item_at(s, i, outer)->Ok_0.1;
            e.0.len() == 0 || parsed_item(e, outer)
        }),
        i < item_at(s, i, outer)->Ok_0.0 <= s.len(),
    decreases s.len() - i, 1int,
{
    crate::wellformed::lemma_item(s, i, outer);
    if outer && comment_at(s, i) is Some {
    } else if outer && import_at(s, i) is Some {
    } else {
        lemma_block(s, i);
        lemma_selector(s, i);
        if outer {
            lemma_no_comment(s, i);
        }
    }
}

/// The items that follow are declared among parsed items of their level, and
/// leave such items with different keys, the first key first.
proof fn lemma_more_items(s: Seq<char>, p: int, acc: Entries, outer: bool)
    requires
        0 <= p <= s.len(),
        distinct_keys(acc),
        all_parsed(acc, outer),
    ensures
        distinct_keys(more_items(s, p, acc, outer).1),
        all_parsed(more_items(s, p, acc, outer).1, outer),
        acc.len() > 0 ==> more_items(s, p, acc, outer).1.len() > 0 && more_items(
            s,
            p,
            acc,
            outer,
        ).1[0].0 == acc[0].0,
    decreases s.len() - p, 2int,
{
    let m = scan(s, p, Until::Solid);
    lemma_scan(s, p, Until::Solid);
    if p < m <= s.len() {
        match item_at(s, m, outer) {
            Ok((q, (k, v))) => {
                lemma_item(s, m, outer);
                if m < q <= s.len() {
                    if k.len() > 0 {
                        lemma_put(acc, k, v);
                    }
                    lemma_more_items(s, q, keep(acc, k, v), outer);
                }
            },
            Err(_) => {},
        }
    }
}

/// The items that are read are parsed items of their level with different
/// keys. Inside a block the first of them is the first block that was read.
proof fn lemma_items(s: Seq<char>, i: int, outer: bool)
    requires
        0 <= i <= s.len(),
        items_at(s, i, outer) is Ok,
    ensures
        distinct_keys(items_at(s, i, outer)->Ok_0.1),
        all_parsed(items_at(s, i, outer)->Ok_0.1, outer),
        !outer ==> items_at(s, i, outer)->Ok_0.1.len() > 0 && items_at(s, i, outer)->Ok_0.1[0].0
            == block_at(s, scan(s, i, Until::Solid))->Ok_0.1.0,
    decreases s.len() - i, 2int,
{
    let a = scan(s, i, Until::Solid);
    lemma_scan(s, i, Until::Solid);
    let first = item_at(s, a, outer)->Ok_0;
    lemma_item(s, a, outer);
    let k = first.1.0;
    let v = first.1.1;
    let none: Entries = Seq::empty();
    if k.len() > 0 {
        lemma_put(none, k, v);
    }
    if !outer {
        lemma_selector(s, a);
    }
    lemma_more_items(s, first.0, keep(none, k, v), outer);
}

/// The body that is read is a parsed body.
proof fn lemma_body(s: Seq<char>, i: int)
    requires
        0 <= i <= s.len(),
        body_at(s, i) is Some,
    ensures
        parsed_body(body_at(s, i)->Some_0.1),
    decreases s.len() - i, 3int,
{
    let a = scan(s, i, Until::Solid);
    lemma_scan(s, i, Until::Solid);
    match statements_at(s, a) {
        Some((p, es)) => {
            let first = statement_at(s, a)->Some_0;
            lemma_statement(s, a);
            let start: Entries = seq![first.1];
            assert(parsed_statement(start[0]));
            lemma_more_statements(s, first.0, start);
        },
        None => {
            lemma_items(s, i, false);
            lemma_leading(s, a);
        },
    }
}

/// A parsed body with neither an empty key nor an empty value can be
/// written as a body and read back.
proof fn lemma_body_is_printable(n: Node)
    requires
        parsed_body(n),
        filled(n),
    ensures
        printable_body(n),
    decreases n,
{
    let es = n->Mapping_0;
    if forall|i: int| 0 <= i < es.len() ==> parsed_statement(#[trigger] es[i]) {
        assert forall|i: int| 0 <= i < es.len() implies plain_statement(#[trigger] es[i]) by {
            assert(parsed_statement(es[i]));
            assert(es[i].0.len() > 0 && filled(es[i].1));
        }
        assert(statements_body(es));
    } else {
        assert forall|i: int| 0 <= i < es.len() implies plain_selector((#[trigger] es[i]).0)
            && printable_body(es[i].1) by {
            assert(es[i].0.len() > 0 && filled(es[i].1));
            lemma_body_is_printable(es[i].1);
        }
    }
}

/// What a text parses to, if it is clean, is read back from its own text:
/// that text parses to the same tree, entry by entry, and nothing of it is
/// left unread.
pub proof fn lemma_parsed_round_trip(s: Seq<char>)
    requires
        document(s) is Ok,
        clean(document(s)->Ok_0.1),
    ensures
        printable(document(s)->Ok_0.1),
        document(render(document(s)->Ok_0.1)) == Ok::<(int, Node), crate::grammar::Construct>(
            (render(document(s)->Ok_0.1).len() as int, document(s)->Ok_0.1),
        ),
{
    let t = document(s)->Ok_0.1;
    let es = t->Mapping_0;
    lemma_items(s, 0, true);
    assert forall|i: int| 0 <= i < es.len() implies crate::roundtrip::outer_selector(
        (#[trigger] es[i]).0,
    ) && printable_body(es[i].1) by {
        assert(parsed_item(es[i], true));
        lemma_body_is_printable(es[i].1);
    }
    lemma_round_trip(t);
}

} // verus!
