use crate::grammar::{
    after_statement, at, block_at, body_at, comment_at, document, extend_at, import_at, item_at,
    items_at, keep, more_items, more_statements, statement_at, statements_at,
};
use crate::text::{is_space, lemma_scan, scan, trim, Until};
use crate::tree::{distinct_keys, lemma_find_key, put, Entries, Node};
use vstd::prelude::*;

verus! {

/// Whether the entry is what a statement gives: a property, or a placeholder
/// under its own name.
pub open spec fn is_statement(e: (Seq<char>, Node)) -> bool {
    e.1 is Leaf || e.1 == Node::ExtendMarker(e.0)
}

/// Whether all the entries are what statements give.
pub open spec fn all_statements(es: Entries) -> bool {
    forall|i: int| 0 <= i < es.len() ==> is_statement(#[trigger] es[i])
}

/// Whether the tree is the body of a block: a mapping with at least one
/// entry and no key twice, whose entries are either all statements or all
/// blocks with a key and a body of this kind. It holds neither an import nor
/// a comment.
pub open spec fn well_formed_body(n: Node) -> bool
    decreases n,
{
    n is Mapping && n->Mapping_0.len() > 0 && distinct_keys(n->Mapping_0) && (all_statements(
        n->Mapping_0,
    ) || forall|i: int|
        0 <= i < n->Mapping_0.len() ==> (#[trigger] n->Mapping_0[i]).0.len() > 0
            && well_formed_body(n->Mapping_0[i].1))
}

/// Whether the entry is what an item of a level gives: a block with a key and
/// a well-formed body or, at the outermost level, an import under its path.
pub open spec fn is_item(e: (Seq<char>, Node), outer: bool) -> bool {
    e.0.len() > 0 && (well_formed_body(e.1) || (outer && e.1 == Node::ImportRef(e.0)))
}

/// Whether all the entries are what items of a level give.
pub open spec fn all_items(es: Entries, outer: bool) -> bool {
    forall|i: int| 0 <= i < es.len() ==> is_item(#[trigger] es[i], outer)
}

/// Whether the tree is a document: a mapping without a key twice, whose
/// entries are blocks with a key and a well-formed body, or imports under
/// their paths. Imports stand nowhere else in it, and comments nowhere.
pub open spec fn well_formed(n: Node) -> bool {
    n is Mapping && distinct_keys(n->Mapping_0) && all_items(n->Mapping_0, true)
}

/// Declaring a key keeps the keys different and the first key first; what
/// was there stays or gives way to the new entry.
pub(crate) proof fn lemma_put(acc: Entries, k: Seq<char>, v: Node)
    requires
        distinct_keys(acc),
    ensures
        distinct_keys(put(acc, k, v)),
        put(acc, k, v).len() > 0,
        put(acc, k, v)[0].0 == if acc.len() > 0 {
            acc[0].0
        } else {
            k
        },
        forall|j: int|
            0 <= j < put(acc, k, v).len() ==> #[trigger] put(acc, k, v)[j] == (k, v) || (j
                < acc.len() && put(acc, k, v)[j] == acc[j]),
{
    lemma_find_key(acc, k, 0);
}

/// A text that begins with a character that is no blank keeps it when it is
/// trimmed.
proof fn lemma_trim_keeps_head(x: Seq<char>)
    requires
        x.len() > 0,
        !is_space(x[0]),
    ensures
        trim(x).len() > 0,
    decreases x.len(),
{
    if is_space(x.last()) {
        lemma_trim_keeps_head(x.drop_last());
    }
}

/// The statements that follow are declared among statements, and leave
/// statements with different keys. They end within the text.
proof fn lemma_more_statements(s: Seq<char>, p: int, acc: Entries)
    requires
        0 <= p <= s.len(),
        acc.len() > 0,
        distinct_keys(acc),
        all_statements(acc),
    ensures
        more_statements(s, p, acc).1.len() > 0,
        distinct_keys(more_statements(s, p, acc).1),
        all_statements(more_statements(s, p, acc).1),
        p <= more_statements(s, p, acc).0 <= s.len(),
    decreases s.len() - p,
{
    if at(s, p, ';') {
        match statement_at(s, p + 1) {
            Some((q, (k, v))) => {
                if p < q <= s.len() {
                    lemma_put(acc, k, v);
                    assert(is_statement((k, v)));
                    lemma_more_statements(s, q, put(acc, k, v));
                }
            },
            None => {},
        }
    }
}

/// A block that is read has a well-formed body, and ends after its
/// beginning within the text.
proof fn lemma_block(s: Seq<char>, i: int)
    requires
        0 <= i <= s.len(),
        block_at(s, i) is Ok,
    ensures
        well_formed_body(block_at(s, i)->Ok_0.1.1),
        i < block_at(s, i)->Ok_0.0 <= s.len(),
        i < s.len() && !is_space(s[i]) ==> block_at(s, i)->Ok_0.1.0.len() > 0,
    decreases s.len() - i, 0int,
{
    let j = scan(s, i, Until::SelectorEnd);
    lemma_scan(s, i, Until::SelectorEnd);
    lemma_body(s, j + 1);
    if !is_space(s[i]) {
        lemma_trim_keeps_head(s.subrange(i, j));
    }
}

/// An item that is read is an item of its level or has no key, and ends
/// after its beginning within the text.
pub(crate) proof fn lemma_item(s: Seq<char>, i: int, outer: bool)
    requires
        0 <= i <= s.len(),
        item_at(s, i, outer) is Ok,
        i < s.len() ==> !is_space(s[i]),
    ensures
        ({
            let e = item_at(s, i, outer)->Ok_0.1;
            e.0.len() == 0 || is_item(e, outer)
        }),
        i < item_at(s, i, outer)->Ok_0.0 <= s.len(),
    decreases s.len() - i, 1int,
{
    if outer && comment_at(s, i) is Some {
        lemma_scan(s, i, Until::LineEnd);
    } else if outer && import_at(s, i) is Some {
        lemma_scan(s, i + 8, Until::ParenClose);
        lemma_scan(s, scan(s, i + 8, Until::ParenClose) + 1, Until::Solid);
    } else {
        lemma_block(s, i);
    }
}

/// The items that follow are declared among items of their level, and leave
/// such items with different keys. They end within the text.
proof fn lemma_more_items(s: Seq<char>, p: int, acc: Entries, outer: bool)
    requires
        0 <= p <= s.len(),
        distinct_keys(acc),
        all_items(acc, outer),
    ensures
        distinct_keys(more_items(s, p, acc, outer).1),
        all_items(more_items(s, p, acc, outer).1, outer),
        acc.len() > 0 ==> more_items(s, p, acc, outer).1.len() > 0,
        p <= more_items(s, p, acc, outer).0 <= s.len(),
    decreases s.len() - p, 2int,
{
    let m = scan(s, p, Until::Solid);
    lemma_scan(s, p, Until::Solid);
    if p < m <= s.len() {
        match item_at(s, m, outer) {
            Ok((q, (k, v))) => {
                lemma_item(s, m, outer);
                if m < q <= s.len() {
                    if k.len() > 0 {
                        lemma_put(acc, k, v);
                    }
                    lemma_more_items(s, q, keep(acc, k, v), outer);
                }
            },
            Err(_) => {},
        }
    }
}

/// The items that are read are items of their level with different keys,
/// and end within the text. Inside a block there is one at least.
proof fn lemma_items(s: Seq<char>, i: int, outer: bool)
    requires
        0 <= i <= s.len(),
        items_at(s, i, outer) is Ok,
    ensures
        distinct_keys(items_at(s, i, outer)->Ok_0.1),
        all_items(items_at(s, i, outer)->Ok_0.1, outer),
        !outer ==> items_at(s, i, outer)->Ok_0.1.len() > 0,
        i <= items_at(s, i, outer)->Ok_0.0 <= s.len(),
    decreases s.len() - i, 2int,
{
    let a = scan(s, i, Until::Solid);
    lemma_scan(s, i, Until::Solid);
    let first = item_at(s, a, outer)->Ok_0;
    lemma_item(s, a, outer);
    let k = first.1.0;
    let v = first.1.1;
    let none: Entries = Seq::empty();
    if k.len() > 0 {
        lemma_put(none, k, v);
    }
    if !outer {
        lemma_block(s, a);
    }
    lemma_more_items(s, first.0, keep(none, k, v), outer);
}

/// The body that is read is well formed, and ends within the text.
proof fn lemma_body(s: Seq<char>, i: int)
    requires
        0 <= i <= s.len(),
        body_at(s, i) is Some,
    ensures
        well_formed_body(body_at(s, i)->Some_0.1),
        i <= body_at(s, i)->Some_0.0 <= s.len(),
    decreases s.len() - i, 3int,
{
    let a = scan(s, i, Until::Solid);
    lemma_scan(s, i, Until::Solid);
    match statements_at(s, a) {
        Some((p, es)) => {
            let first = statement_at(s, a)->Some_0;
            lemma_statement(s, a);
            let start: Entries = seq![first.1];
            assert(is_statement(start[0]));
            lemma_more_statements(s, first.0, start);
            lemma_scan(s, p, Until::Solid);
        },
        None => {
            lemma_items(s, i, false);
        },
    }
}

/// A statement that is read is a property or a placeholder under its own
/// name, and ends after its beginning within the text.
pub(crate) proof fn lemma_statement(s: Seq<char>, i: int)
    requires
        0 <= i <= s.len(),
        statement_at(s, i) is Some,
    ensures
        is_statement(statement_at(s, i)->Some_0.1),
        i < statement_at(s, i)->Some_0.0 <= s.len(),
{
    let a = scan(s, i, Until::Solid);
    lemma_scan(s, i, Until::Solid);
    if extend_at(s, i) is Some {
        let j = scan(s, a + 1, Until::NameEnd);
        lemma_scan(s, a + 1, Until::NameEnd);
        lemma_after(s, j);
    } else {
        let j = scan(s, i, Until::KeyEnd);
        lemma_scan(s, i, Until::KeyEnd);
        let e = scan(s, j + 1, Until::ValueEnd);
        lemma_scan(s, j + 1, Until::ValueEnd);
        lemma_after(s, e);
    }
}

/// Where the text goes on after a statement: not before its end, and within
/// the text.
pub(crate) proof fn lemma_after(s: Seq<char>, j: int)
    requires
        0 <= j <= s.len(),
    ensures
        j <= after_statement(s, j) <= s.len(),
{
    if j < s.len() {
        lemma_scan(s, j + 1, Until::Solid);
    }
}

/// Whether no node of the tree is an import.
pub open spec fn import_free(n: Node) -> bool
    decreases n,
{
    match n {
        Node::Mapping(es) => forall|i: int| 0 <= i < es.len() ==> import_free((#[trigger] es[i]).1),
        Node::ImportRef(_) => false,
        _ => true,
    }
}

/// The body of a block holds no import.
pub proof fn lemma_body_is_import_free(n: Node)
    requires
        well_formed_body(n),
    ensures
        import_free(n),
    decreases n,
{
    let es = n->Mapping_0;
    assert forall|i: int| 0 <= i < es.len() implies import_free((#[trigger] es[i]).1) by {
        if all_statements(es) {
            assert(is_statement(es[i]));
        } else {
            lemma_body_is_import_free(es[i].1);
        }
    }
}

/// A document none of whose direct children is an import holds no import at
/// all.
pub proof fn lemma_document_is_import_free(n: Node)
    requires
        well_formed(n),
        forall|i: int| 0 <= i < n->Mapping_0.len() ==> !((#[trigger] n->Mapping_0[i]).1 is ImportRef),
    ensures
        import_free(n),
{
    let es = n->Mapping_0;
    assert forall|i: int| 0 <= i < es.len() implies import_free((#[trigger] es[i]).1) by {
        assert(is_item(es[i], true));
        lemma_body_is_import_free(es[i].1);
    }
}

/// What a text parses to is a well-formed document, and the unread rest
/// begins within the text.
pub proof fn lemma_parsed_is_well_formed(s: Seq<char>)
    requires
        document(s) is Ok,
    ensures
        well_formed(document(s)->Ok_0.1),
        0 <= document(s)->Ok_0.0 <= s.len(),
{
    lemma_items(s, 0, true);
}

} // verus!
