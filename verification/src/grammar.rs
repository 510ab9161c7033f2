use crate::text::{scan, trim, Until};
use crate::tree::{put, Entries, Node};
use vstd::prelude::*;

verus! {

/// The construct that the text failed to match.
#[derive(Clone, Copy, Debug, PartialEq, Eq, Structural)]
pub enum Construct {
    /// No selector stands where a block has to begin.
    Selector,
    /// The body of a block is neither a list of statements nor a list of
    /// blocks.
    Object,
    /// The braces of a block do not match.
    Node,
}

/// Whether the character at `i` is `c`.
pub open spec fn at(s: Seq<char>, i: int, c: char) -> bool {
    0 <= i < s.len() && s[i] == c
}

/// Whether `w` stands in `s` at `i`.
pub open spec fn has_at(s: Seq<char>, i: int, w: Seq<char>) -> bool {
    0 <= i && i + w.len() <= s.len() && s.subrange(i, i + w.len()) == w
}

/// The word that opens an import directive.
pub open spec fn import_word() -> Seq<char> {
    seq!['@', 'i', 'm', 'p', 'o', 'r', 't', '(']
}

/// A parsed item: where the text goes on, and the key with its child.
pub type Item = (int, (Seq<char>, Node));

/// Where the text goes on after a statement that ends at `j`: a `;` that
/// only blanks part from the closing brace belongs to the statement.
pub open spec fn after_statement(s: Seq<char>, j: int) -> int {
    let m = scan(s, j + 1, Until::Solid);
    if at(s, j, ';') && at(s, m, '}') {
        m
    } else {
        j
    }
}

/// A placeholder statement at `i`: blanks, `?`, and a name of at least one
/// character.
pub open spec fn extend_at(s: Seq<char>, i: int) -> Option<Item> {
    let a = scan(s, i, Until::Solid);
    let j = scan(s, a + 1, Until::NameEnd);
    if at(s, a, '?') && j > a + 1 {
        let name = trim(s.subrange(a + 1, j));
        Some((after_statement(s, j), (name, Node::ExtendMarker(name))))
    } else {
        None
    }
}

/// A property at `i`: a key of at least one character, `:`, and a value of at
/// least one character.
pub open spec fn pair_at(s: Seq<char>, i: int) -> Option<Item> {
    let j = scan(s, i, Until::KeyEnd);
    let e = scan(s, j + 1, Until::ValueEnd);
    if j > i && at(s, j, ':') && e > j + 1 {
        Some(
            (
                after_statement(s, e),
                (trim(s.subrange(i, j)), Node::Leaf(trim(s.subrange(j + 1, e)))),
            ),
        )
    } else {
        None
    }
}

/// A statement at `i`: a placeholder, or else a property.
pub open spec fn statement_at(s: Seq<char>, i: int) -> Option<Item> {
    match extend_at(s, i) {
        Some(r) => Some(r),
        None => pair_at(s, i),
    }
}

/// The statements that follow at `p`, each after a `;`, declared in turn
/// among `acc`. A `;` that no statement follows is left where it is.
pub open spec fn more_statements(s: Seq<char>, p: int, acc: Entries) -> (int, Entries)
    decreases s.len() - p,
{
    if at(s, p, ';') {
        match statement_at(s, p + 1) {
            Some((q, (k, v))) => if p < q <= s.len() {
                more_statements(s, q, put(acc, k, v))
            } else {
                (p, acc)
            },
            None => (p, acc),
        }
    } else {
        (p, acc)
    }
}

/// One or more statements at `i`, `;` between them.
pub open spec fn statements_at(s: Seq<char>, i: int) -> Option<(int, Entries)> {
    match statement_at(s, i) {
        Some((p, (k, v))) => Some(more_statements(s, p, seq![(k, v)])),
        None => None,
    }
}

/// A comment at `i`: a line that begins with `//`, up to its end.
pub open spec fn comment_at(s: Seq<char>, i: int) -> Option<Item> {
    let j = scan(s, i, Until::LineEnd);
    if at(s, i, '/') && at(s, i + 1, '/') {
        Some((j, (Seq::empty(), Node::CommentLine(trim(s.subrange(i, j))))))
    } else {
        None
    }
}

/// An import directive at `i`: `@import(`, a path of at least one character
/// without `)`, `)`, and after any blanks `;`.
pub open spec fn import_at(s: Seq<char>, i: int) -> Option<Item> {
    let a = i + 8;
    let p = scan(s, a, Until::ParenClose);
    let q = scan(s, p + 1, Until::Solid);
    if has_at(s, i, import_word()) && p > a && at(s, p, ')') && at(s, q, ';') {
        let path = trim(s.subrange(a, p));
        Some((q + 1, (path, Node::ImportRef(path))))
    } else {
        None
    }
}

/// The entries after an item with the key `k`: an item without a key leaves
/// them as they are.
pub open spec fn keep(acc: Entries, k: Seq<char>, v: Node) -> Entries {
    if k.len() == 0 {
        acc
    } else {
        put(acc, k, v)
    }
}

/// A selector block at `i`: a selector of at least one character, `{`, a
/// body, `}`.
pub open spec fn block_at(s: Seq<char>, i: int) -> Result<Item, Construct>
    decreases s.len() - i, 0int,
{
    let j = scan(s, i, Until::SelectorEnd);
    if j <= i {
        Err(Construct::Selector)
    } else if !at(s, j, '{') {
        Err(Construct::Node)
    } else {
        match body_at(s, j + 1) {
            None => Err(Construct::Object),
            Some((e, n)) => if at(s, e, '}') {
                Ok((e + 1, (trim(s.subrange(i, j)), n)))
            } else {
                Err(Construct::Node)
            },
        }
    }
}

/// An item at `i`. At the outermost level it is a comment, else an import
/// directive, else a selector block; inside a block it is a selector block.
pub open spec fn item_at(s: Seq<char>, i: int, outer: bool) -> Result<Item, Construct>
    decreases s.len() - i, 1int,
{
    if outer && comment_at(s, i) is Some {
        Ok(comment_at(s, i)->0)
    } else if outer && import_at(s, i) is Some {
        Ok(import_at(s, i)->0)
    } else {
        block_at(s, i)
    }
}

/// The items that follow at `p`, each after at least one blank, declared in
/// turn among `acc`; then the blanks that follow the last of them.
pub open spec fn more_items(s: Seq<char>, p: int, acc: Entries, outer: bool) -> (int, Entries)
    decreases s.len() - p, 2int,
{
    let m = scan(s, p, Until::Solid);
    if p < m <= s.len() {
        match item_at(s, m, outer) {
            Ok((q, (k, v))) => if m < q <= s.len() {
                more_items(s, q, keep(acc, k, v), outer)
            } else {
                (m, acc)
            },
            Err(_) => (m, acc),
        }
    } else {
        (m, acc)
    }
}

/// One or more items from `i` on, blanks around and between them.
pub open spec fn items_at(s: Seq<char>, i: int, outer: bool) -> Result<(int, Entries), Construct>
    decreases s.len() - i, 2int,
{
    let a = scan(s, i, Until::Solid);
    if i <= a <= s.len() {
        match item_at(s, a, outer) {
            Ok((p, (k, v))) => if a < p <= s.len() {
                Ok(more_items(s, p, keep(Seq::empty(), k, v), outer))
            } else {
                Err(Construct::Node)
            },
            Err(c) => Err(c),
        }
    } else {
        Err(Construct::Node)
    }
}

/// The body of a block at `i`: a list of statements, or else a list of
/// blocks, with blanks around it.
pub open spec fn body_at(s: Seq<char>, i: int) -> Option<(int, Node)>
    decreases s.len() - i, 3int,
{
    match statements_at(s, scan(s, i, Until::Solid)) {
        Some((p, es)) => Some((scan(s, p, Until::Solid), Node::Mapping(es))),
        None => match items_at(s, i, false) {
            Ok((e, es)) => Some((e, Node::Mapping(es))),
            Err(_) => None,
        },
    }
}

/// What a whole text parses to: the position where the unread rest begins and
/// the document's tree, or the construct that the text failed to match.
pub open spec fn document(s: Seq<char>) -> Result<(int, Node), Construct> {
    match items_at(s, 0, true) {
        Ok((e, es)) => Ok((e, Node::Mapping(es))),
        Err(c) => Err(c),
    }
}

/// Whether or not a `;` stands between the last statement and the closing
/// brace, the statements end at the brace, and nothing more is declared:
/// where the statement ends at the brace itself, and where it ends at a `;`
/// that only blanks part from the brace.
pub proof fn lemma_last_semicolon(s: Seq<char>, j: int, acc: Entries)
    requires
        at(s, j, '}') || (at(s, j, ';') && at(s, scan(s, j + 1, Until::Solid), '}')),
    ensures
        at(s, after_statement(s, j), '}'),
        more_statements(s, after_statement(s, j), acc) == (after_statement(s, j), acc),
{
}

/// A comment is an item of the outermost level that declares nothing.
pub proof fn lemma_comment_declares_nothing(s: Seq<char>, i: int, acc: Entries)
    requires
        comment_at(s, i) is Some,
    ensures
        item_at(s, i, true) is Ok,
        item_at(s, i, true)->Ok_0.1.1 is CommentLine,
        keep(acc, item_at(s, i, true)->Ok_0.1.0, item_at(s, i, true)->Ok_0.1.1) == acc,
{
}

} // verus!
