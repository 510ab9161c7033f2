use crate::error::CssError;
use crate::grammar::import_word;
use crate::tree::{entries_view, lemma_entries_view, Entries, Node, CSS};
use vstd::prelude::*;
use vstd::string::StringExecFns;

verus! {

/// The text of the child `v` under the key `k`:
/// a property as `k:v;`, a placeholder as `?k;`, an import as `@import(p)`,
/// anything else as a block `k{ .. }`; each ends its line.
pub open spec fn render_entry(k: Seq<char>, v: Node) -> Seq<char>
    decreases v, 0int,
{
    match v {
        Node::Leaf(x) => k + seq![':'] + x + seq![';', '\n'],
        Node::ExtendMarker(_) => seq!['?'] + k + seq![';', '\n'],
        Node::ImportRef(p) => import_word() + p + seq![')', '\n'],
        Node::Mapping(es) => k + seq!['{', '\n'] + render_from(es, 0) + seq!['}', '\n'],
        Node::CommentLine(_) => k + seq!['{', '\n'] + seq!['}', '\n'],
    }
}

/// The text of the entries from the `i`-th on, in order.
pub open spec fn render_from(es: Entries, i: int) -> Seq<char>
    decreases es, es.len() - i,
{
    if 0 <= i < es.len() {
        render_entry(es[i].0, es[i].1) + render_from(es, i + 1)
    } else {
        Seq::empty()
    }
}

/// The text of a tree: that of its entries if it is a mapping, else nothing.
pub open spec fn render(n: Node) -> Seq<char> {
    match n {
        Node::Mapping(es) => render_from(es, 0),
        _ => Seq::empty(),
    }
}

/// Appends to `out` the text of the child `c` under the key `k`.
pub fn write_entry(out: &mut String, k: &str, c: &CSS)
    ensures
        final(out)@ == old(out)@ + render_entry(k@, c@),
    decreases c, 1int,
{
    proof {
        reveal_strlit(":");
        reveal_strlit(";\n");
        reveal_strlit("?");
        reveal_strlit("@import(");
        reveal_strlit(")\n");
        reveal_strlit("{\n");
        reveal_strlit("}\n");
        assert(":"@ =~= seq![':']);
        assert(";\n"@ =~= seq![';', '\n']);
        assert("?"@ =~= seq!['?']);
        assert("@import("@ =~= import_word());
        assert(")\n"@ =~= seq![')', '\n']);
        assert("{\n"@ =~= seq!['{', '\n']);
        assert("}\n"@ =~= seq!['}', '\n']);
    }
    match c {
        CSS::Value(x) => {
            out.append(k);
            out.append(":");
            out.append(x.as_str());
            out.append(";\n");
        },
        CSS::ExtendValue(_) => {
            out.append("?");
            out.append(k);
            out.append(";\n");
        },
        CSS::Import(p) => {
            out.append("@import(");
            out.append(p.as_str());
            out.append(")\n");
        },
        CSS::Object(_) => {
            let inner = c.to_string();
            out.append(k);
            out.append("{\n");
            match inner {
                Ok(t) => {
                    out.append(t.as_str());
                },
                Err(_) => {},
            }
            out.append("}\n");
        },
        CSS::Comment(_) => {
            out.append(k);
            out.append("{\n");
            out.append("}\n");
        },
    }
    assert(out@ =~= old(out)@ + render_entry(k@, c@));
}

impl CSS {
    /// The text of this tree, its entries in their order.
    pub fn to_string(&self) -> (r: Result<String, CssError>)
        ensures
            r is Ok,
            r->Ok_0@ == render(self@),
        decreases self, 0int,
    {
        let mut out = String::new();
        match self {
            CSS::Object(d) => {
                let ghost es = entries_view(d@);
                proof {
                    lemma_entries_view(d@);
                }
                let mut i: usize = 0;
                while i < d.len()
                    invariant
                        i <= d.len(),
                        *self == CSS::Object(*d),
                        es == entries_view(d@),
                        es.len() == d.len(),
                        forall|j: int|
                            0 <= j < d.len() ==> #[trigger] es[j] == (d@[j].0@, d@[j].1@),
                        out@ + render_from(es, i as int) == render_from(es, 0),
                    decreases d.len() - i,
                {
                    let ghost before = out@;
                    proof {
                        assert(decreases_to!(*self => self->Object_0));
                        assert(decreases_to!(*d => d[i as int]));
                    }
                    write_entry(&mut out, d[i].0.as_str(), &d[i].1);
                    proof {
                        assert(out@ + render_from(es, i + 1) =~= before + render_from(
                            es,
                            i as int,
                        ));
                    }
                    i = i + 1;
                }
                assert(out@ =~= render_from(es, 0));
            },
            _ => {},
        }
        Ok(out)
    }
}

} // verus!
