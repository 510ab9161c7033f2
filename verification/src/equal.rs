use crate::tree::{
    distinct_keys, entries_view, find_key, lemma_entries_view, lemma_find_key, Entries, Node, CSS,
};
use vstd::prelude::*;
use vstd::std_specs::cmp::PartialEqSpecImpl;

verus! {

/// Whether two trees are the same but for the order of their entries: two
/// mappings are, if they have as many entries and each key of the first has
/// in the second a child that is the same as its own; two other nodes are,
/// if they are of one kind and hold the same text.
pub open spec fn same(a: Node, b: Node) -> bool
    decreases a, 0int,
{
    match a {
        Node::Mapping(xs) => b is Mapping && xs.len() == b->Mapping_0.len() && forall|i: int|
            0 <= i < xs.len() ==> same_child(#[trigger] xs[i], b->Mapping_0),
        Node::Leaf(x) => b == Node::Leaf(x),
        Node::ExtendMarker(x) => b == Node::ExtendMarker(x),
        Node::ImportRef(x) => b == Node::ImportRef(x),
        Node::CommentLine(x) => b == Node::CommentLine(x),
    }
}

/// Whether the key of the entry `e` has among `ys` a child that is the same
/// as that of `e`.
pub open spec fn same_child(e: (Seq<char>, Node), ys: Entries) -> bool
    decreases e.1, 1int,
{
    let j = find_key(ys, e.0, 0);
    0 <= j < ys.len() && same(e.1, ys[j].1)
}

/// Whether no mapping in the tree has a key twice.
pub open spec fn keyed(n: Node) -> bool
    decreases n,
{
    n is Mapping ==> distinct_keys(n->Mapping_0) && forall|i: int|
        0 <= i < n->Mapping_0.len() ==> keyed((#[trigger] n->Mapping_0[i]).1)
}

/// The keys of the entries, in order.
pub open spec fn key_list(es: Entries) -> Seq<Seq<char>> {
    Seq::new(es.len(), |i: int| es[i].0)
}

/// Among entries with different keys, the key of an entry is found where the
/// entry stands.
proof fn lemma_find_own(es: Entries, i: int)
    requires
        distinct_keys(es),
        0 <= i < es.len(),
    ensures
        find_key(es, es[i].0, 0) == i,
{
    lemma_find_key(es, es[i].0, 0);
}

/// A tree in which no mapping has a key twice is the same as itself.
pub proof fn lemma_same_reflexive(a: Node)
    requires
        keyed(a),
    ensures
        same(a, a),
    decreases a,
{
    if a is Mapping {
        let xs = a->Mapping_0;
        assert forall|i: int| 0 <= i < xs.len() implies same_child(#[trigger] xs[i], xs) by {
            lemma_find_own(xs, i);
            lemma_same_reflexive(xs[i].1);
        }
    }
}

/// Of two mappings with as many entries and no key twice, the second has
/// each key of the first only if the first has each key of the second.
proof fn lemma_keys_match(xs: Entries, ys: Entries, j: int)
    requires
        distinct_keys(xs),
        distinct_keys(ys),
        xs.len() == ys.len(),
        forall|i: int| 0 <= i < xs.len() ==> find_key(ys, (#[trigger] xs[i]).0, 0) < ys.len(),
        0 <= j < ys.len(),
    ensures
        find_key(xs, ys[j].0, 0) < xs.len(),
{
    let a = key_list(xs);
    let b = key_list(ys);
    assert(a.no_duplicates());
    assert(b.no_duplicates());
    assert forall|k: Seq<char>| a.to_set().contains(k) implies b.to_set().contains(k) by {
        let i = choose|i: int| 0 <= i < a.len() && a[i] == k;
        assert(xs[i].0 == k);
        lemma_find_key(ys, k, 0);
        assert(b[find_key(ys, k, 0)] == k);
    }
    a.unique_seq_to_set();
    b.unique_seq_to_set();
    vstd::seq_lib::seq_to_set_is_finite(a);
    vstd::seq_lib::seq_to_set_is_finite(b);
    vstd::set_lib::lemma_subset_equality(a.to_set(), b.to_set());
    assert(b[j] == ys[j].0);
    assert(b.to_set().contains(ys[j].0));
    assert(a.to_set().contains(ys[j].0));
    let i = choose|i: int| 0 <= i < a.len() && a[i] == ys[j].0;
    assert(xs[i].0 == ys[j].0);
    lemma_find_key(xs, ys[j].0, 0);
}

/// Between trees in which no mapping has a key twice, being the same does
/// not depend on which of the two comes first.
pub proof fn lemma_same_symmetric(a: Node, b: Node)
    requires
        keyed(a),
        keyed(b),
        same(a, b),
    ensures
        same(b, a),
    decreases a,
{
    if a is Mapping {
        let xs = a->Mapping_0;
        let ys = b->Mapping_0;
        assert forall|i: int| 0 <= i < xs.len() implies find_key(ys, (#[trigger] xs[i]).0, 0)
            < ys.len() by {
            assert(same_child(xs[i], ys));
        }
        assert forall|j: int| 0 <= j < ys.len() implies same_child(#[trigger] ys[j], xs) by {
            lemma_keys_match(xs, ys, j);
            let i = find_key(xs, ys[j].0, 0);
            lemma_find_key(xs, ys[j].0, 0);
            assert(same_child(xs[i], ys));
            lemma_find_own(ys, j);
            lemma_same_symmetric(xs[i].1, ys[j].1);
        }
    }
}

impl CSS {
    /// Whether this tree and `other` are the same but for the order of their
    /// entries.
    pub fn same_as(&self, other: &CSS) -> (r: bool)
        ensures
            r == same(self@, other@),
        decreases self,
    {
        match (self, other) {
            (CSS::Value(x), CSS::Value(y)) => *x == *y,
            (CSS::ExtendValue(x), CSS::ExtendValue(y)) => *x == *y,
            (CSS::Import(x), CSS::Import(y)) => *x == *y,
            (CSS::Comment(x), CSS::Comment(y)) => *x == *y,
            (CSS::Object(d), CSS::Object(o)) => {
                let ghost xs = entries_view(d@);
                let ghost ys = entries_view(o@);
                proof {
                    lemma_entries_view(d@);
                    lemma_entries_view(o@);
                }
                if d.len() != o.len() {
                    return false;
                }
                let mut i: usize = 0;
                while i < d.len()
                    invariant
                        i <= d.len(),
                        *self == CSS::Object(*d),
                        self@ == Node::Mapping(xs),
                        other@ == Node::Mapping(ys),
                        xs == entries_view(d@),
                        ys == entries_view(o@),
                        xs.len() == d.len(),
                        ys.len() == o.len(),
                        forall|j: int|
                            0 <= j < d.len() ==> #[trigger] xs[j] == (d@[j].0@, d@[j].1@),
                        forall|j: int|
                            0 <= j < o.len() ==> #[trigger] ys[j] == (o@[j].0@, o@[j].1@),
                        forall|j: int| 0 <= j < i ==> same_child(#[trigger] xs[j], ys),
                    decreases d.len() - i,
                {
                    let mut j: usize = 0;
                    while j < o.len() && !(o[j].0 == d[i].0)
                        invariant
                            j <= o.len(),
                            i < d.len(),
                            xs.len() == d.len(),
                            ys == entries_view(o@),
                            ys.len() == o.len(),
                            xs[i as int].0 == d@[i as int].0@,
                            forall|j: int|
                                0 <= j < o.len() ==> #[trigger] ys[j] == (o@[j].0@, o@[j].1@),
                            find_key(ys, xs[i as int].0, 0) == find_key(
                                ys,
                                xs[i as int].0,
                                j as int,
                            ),
                        decreases o.len() - j,
                    {
                        j = j + 1;
                    }
                    if j >= o.len() {
                        assert(!same_child(xs[i as int], ys));
                        return false;
                    }
                    proof {
                        assert(decreases_to!(*d => d[i as int]));
                        assert(decreases_to!(d[i as int] => d[i as int].1));
                        assert(decreases_to!(*self => self->Object_0));
                    }
                    if !d[i].1.same_as(&o[j].1) {
                        assert(!same_child(xs[i as int], ys));
                        return false;
                    }
                    i = i + 1;
                }
                true
            },
            _ => false,
        }
    }
}

impl PartialEq for CSS {
    fn eq(&self, other: &Self) -> (r: bool) {
        self.same_as(other)
    }
}

impl PartialEqSpecImpl for CSS {
    open spec fn obeys_eq_spec() -> bool {
        true
    }

    open spec fn eq_spec(&self, other: &Self) -> bool {
        same(self@, other@)
    }
}

} // verus!
