use vstd::prelude::*;

verus! {

/// The mathematical tree that a `CSS` value stands for.
pub ghost enum Node {
    /// Keyed children, in the order in which their keys first came.
    Mapping(Seq<(Seq<char>, Node)>),
    /// A property's literal value.
    Leaf(Seq<char>),
    /// A placeholder that is kept as written.
    ExtendMarker(Seq<char>),
    /// A reference to a text that is still to be spliced in.
    ImportRef(Seq<char>),
    /// A comment line.
    CommentLine(Seq<char>),
}

/// A node of a parsed document.
#[derive(Debug)]
pub enum CSS {
    /// Keyed children, in the order in which their keys first came.
    Object(Vec<(String, CSS)>),
    /// A property's literal value.
    Value(String),
    /// A placeholder that is kept as written: its name.
    ExtendValue(String),
    /// A reference to a text that is still to be spliced in: its path.
    Import(String),
    /// A comment line: its text.
    Comment(String),
}

/// The keyed children of a mapping, in order.
pub type Entries = Seq<(Seq<char>, Node)>;

/// The tree that `c` stands for.
pub open spec fn node_of(c: CSS) -> Node
    decreases c,
{
    match c {
        CSS::Object(d) => Node::Mapping(entries_view(d@)),
        CSS::Value(v) => Node::Leaf(v@),
        CSS::ExtendValue(v) => Node::ExtendMarker(v@),
        CSS::Import(v) => Node::ImportRef(v@),
        CSS::Comment(v) => Node::CommentLine(v@),
    }
}

/// What the entries of an `Object` stand for: each key with its child's tree.
pub open spec fn entries_view(d: Seq<(String, CSS)>) -> Entries
    decreases d,
{
    if d.len() == 0 {
        Seq::empty()
    } else {
        entries_view(d.drop_last()).push((d.last().0@, node_of(d.last().1)))
    }
}

impl View for CSS {
    type V = Node;

    open spec fn view(&self) -> Node {
        node_of(*self)
    }
}


/// The children of a tree: its entries if it is a mapping, else none.
pub open spec fn children(n: Node) -> Entries {
    match n {
        Node::Mapping(es) => es,
        _ => Seq::empty(),
    }
}

/// The first position at or after `i` whose entry has the key `k`, or the
/// number of entries if there is none.
pub open spec fn find_key(es: Entries, k: Seq<char>, i: int) -> int
    decreases es.len() - i,
{
    if 0 <= i < es.len() && es[i].0 != k {
        find_key(es, k, i + 1)
    } else {
        i
    }
}

/// Whether some entry has the key `k`.
pub open spec fn has_key(es: Entries, k: Seq<char>) -> bool {
    exists|i: int| 0 <= i < es.len() && #[trigger] es[i].0 == k
}

/// Whether no two entries share a key.
pub open spec fn distinct_keys(es: Entries) -> bool {
    forall|i: int, j: int|
        0 <= i < j < es.len() ==> #[trigger] es[i].0 != #[trigger] es[j].0
}

/// The entries after `k` was declared with the child `v`: a key that was
/// there keeps its place and gets the new child, a new key comes last.
pub open spec fn put(es: Entries, k: Seq<char>, v: Node) -> Entries {
    let i = find_key(es, k, 0);
    if 0 <= i < es.len() {
        es.update(i, (k, v))
    } else {
        es.push((k, v))
    }
}

/// `find_key` stays within the entries, passes no entry with the key and
/// stops at one that has it.
pub proof fn lemma_find_key(es: Entries, k: Seq<char>, i: int)
    requires
        0 <= i <= es.len(),
    ensures
        i <= find_key(es, k, i) <= es.len(),
        forall|j: int| i <= j < find_key(es, k, i) ==> (#[trigger] es[j]).0 != k,
        find_key(es, k, i) < es.len() ==> es[find_key(es, k, i)].0 == k,
    decreases es.len() - i,
{
    if i < es.len() && es[i].0 != k {
        lemma_find_key(es, k, i + 1);
    }
}

/// `entries_view` keeps the length and maps each entry by itself.
pub proof fn lemma_entries_view(d: Seq<(String, CSS)>)
    ensures
        entries_view(d).len() == d.len(),
        forall|i: int|
            0 <= i < d.len() ==> #[trigger] entries_view(d)[i] == (d[i].0@, d[i].1@),
    decreases d.len(),
{
    if d.len() > 0 {
        lemma_entries_view(d.drop_last());
    }
}

/// Declares `k` with the child `v` among the entries `d`.
pub fn put_entry(d: &mut Vec<(String, CSS)>, k: String, v: CSS)
    ensures
        entries_view(final(d)@) == put(entries_view(old(d)@), k@, v@),
{
    let ghost es = entries_view(d@);
    proof {
        lemma_entries_view(d@);
    }
    let mut i: usize = 0;
    while i < d.len() && !(d[i].0 == k)
        invariant
            i <= d.len(),
            *d == *old(d),
            es == entries_view(d@),
            es.len() == d.len(),
            forall|j: int| 0 <= j < d.len() ==> #[trigger] es[j] == (d@[j].0@, d@[j].1@),
            find_key(es, k@, 0) == find_key(es, k@, i as int),
        decreases d.len() - i,
    {
        i = i + 1;
    }
    if i < d.len() {
        d.set(i, (k, v));
        proof {
            lemma_entries_view(d@);
        }
        assert(entries_view(d@) =~= es.update(i as int, (k@, v@)));
    } else {
        d.push((k, v));
        proof {
            lemma_entries_view(d@);
        }
        assert(entries_view(d@) =~= es.push((k@, v@)));
    }
}

} // verus!
