use crate::error::{CssError, Failure};
use crate::grammar::document;
use crate::parser::parse;
use crate::render::{render_entry, write_entry};
use crate::text::{listed, texts};
use crate::tree::{children, entries_view, lemma_entries_view, Entries, Node, CSS};
use crate::wellformed::{
    import_free, lemma_document_is_import_free, lemma_parsed_is_well_formed, well_formed,
};
use vstd::prelude::*;
use vstd::string::StringExecFns;

verus! {

/// The texts that imports can name: each path with the text that is read
/// under it.
pub type Library = Seq<(Seq<char>, Seq<char>)>;

/// What the files stand for.
pub open spec fn library(files: Seq<(String, String)>) -> Library {
    Seq::new(files.len(), |i: int| (files[i].0@, files[i].1@))
}

/// The first position at or after `i` whose file has the path `p`, or the
/// number of files if there is none.
pub open spec fn find_file(lib: Library, p: Seq<char>, i: int) -> int
    decreases lib.len() - i,
{
    if 0 <= i < lib.len() && lib[i].0 != p {
        find_file(lib, p, i + 1)
    } else {
        i
    }
}

/// The text that is read under the path `p`: that of the first file with this
/// path, if there is one.
pub open spec fn read(lib: Library, p: Seq<char>) -> Option<Seq<char>> {
    let i = find_file(lib, p, 0);
    if 0 <= i < lib.len() {
        Some(lib[i].1)
    } else {
        None
    }
}

/// Whether a direct child of the tree is an import.
pub open spec fn has_import(n: Node) -> bool {
    n is Mapping && exists|i: int|
        0 <= i < n->Mapping_0.len() && (#[trigger] n->Mapping_0[i]).1 is ImportRef
}

/// What one pass over a tree's children has gathered: the imported texts, the
/// text of the other children, and the paths spliced in so far.
pub ghost struct Gathered {
    pub imported: Seq<char>,
    pub body: Seq<char>,
    pub loaded: Seq<Seq<char>>,
}

/// The imported texts after the text `t` was read: two blanks, what was
/// there, two blanks, the text, and a line feed.
pub open spec fn spliced(imported: Seq<char>, t: Seq<char>) -> Seq<char> {
    seq![' ', ' '] + imported + seq![' ', ' '] + t + seq!['\n']
}

/// One pass over the entries from the `i`-th on. An import whose path was
/// spliced in before fails as a cycle, one whose path cannot be read fails as
/// unreadable; any other import has its text added to the imported texts and
/// its path to the loaded ones. Every other child adds its text to the body.
pub open spec fn gather(es: Entries, i: int, lib: Library, g: Gathered) -> Result<
    Gathered,
    Failure,
>
    decreases es.len() - i,
{
    if 0 <= i < es.len() {
        match es[i].1 {
            Node::ImportRef(p) => if g.loaded.contains(p) {
                Err(Failure::ImportCycle(p))
            } else {
                match read(lib, p) {
                    None => Err(Failure::Io(p)),
                    Some(t) => gather(
                        es,
                        i + 1,
                        lib,
                        Gathered {
                            imported: spliced(g.imported, t),
                            body: g.body,
                            loaded: g.loaded.push(p),
                        },
                    ),
                }
            },
            _ => gather(
                es,
                i + 1,
                lib,
                Gathered {
                    imported: g.imported,
                    body: g.body + render_entry(es[i].0, es[i].1),
                    loaded: g.loaded,
                },
            ),
        }
    } else {
        Ok(g)
    }
}

/// The paths spliced in when a pass over the entries from the `i`-th on ends,
/// be it at the last entry or at the import that makes it fail.
pub open spec fn loaded_after(es: Entries, i: int, lib: Library, loaded: Seq<Seq<char>>) -> Seq<
    Seq<char>,
>
    decreases es.len() - i,
{
    if 0 <= i < es.len() {
        match es[i].1 {
            Node::ImportRef(p) => if loaded.contains(p) || read(lib, p) is None {
                loaded
            } else {
                loaded_after(es, i + 1, lib, loaded.push(p))
            },
            _ => loaded_after(es, i + 1, lib, loaded),
        }
    } else {
        loaded
    }
}

/// One round of resolution: the text that replaces the tree, which is the
/// imported texts followed by the text of the other children, and the paths
/// loaded after it.
pub open spec fn round(n: Node, lib: Library, loaded: Seq<Seq<char>>) -> Result<
    (Seq<char>, Seq<Seq<char>>),
    Failure,
> {
    match gather(
        children(n),
        0,
        lib,
        Gathered { imported: Seq::empty(), body: Seq::empty(), loaded },
    ) {
        Ok(g) => Ok((g.imported + g.body, g.loaded)),
        Err(f) => Err(f),
    }
}

/// Resolution from the tree `n` with the paths `loaded` spliced in so far:
/// the tree that is left, and the failure that stopped it, if one did.
/// While a direct child is an import, a round replaces the tree by what its
/// text parses to. A failure leaves the tree of the last round that went
/// well.
pub open spec fn resolve(n: Node, lib: Library, loaded: Seq<Seq<char>>) -> (Node, Option<Failure>)
    decreases lib.len() - loaded.len(),
{
    if !has_import(n) {
        (n, None)
    } else {
        match round(n, lib, loaded) {
            Err(f) => (n, Some(f)),
            Ok((text, next)) => match document(text) {
                Err(c) => (n, Some(Failure::Syntax(c))),
                Ok((_, t)) => if loaded.len() < next.len() <= lib.len() {
                    resolve(t, lib, next)
                } else {
                    (t, None)
                },
            },
        }
    }
}

/// The paths of the files, in order.
pub open spec fn paths(lib: Library) -> Seq<Seq<char>> {
    Seq::new(lib.len(), |i: int| lib[i].0)
}

/// Whether the loaded paths are all different and each can be read.
pub open spec fn known(lib: Library, loaded: Seq<Seq<char>>) -> bool {
    loaded.no_duplicates() && forall|i: int|
        0 <= i < loaded.len() ==> read(lib, #[trigger] loaded[i]) is Some
}

/// `find_file` stays within the files, passes no file with the path and stops
/// at one that has it.
proof fn lemma_find_file(lib: Library, p: Seq<char>, i: int)
    requires
        0 <= i <= lib.len(),
    ensures
        i <= find_file(lib, p, i) <= lib.len(),
        forall|j: int| i <= j < find_file(lib, p, i) ==> (#[trigger] lib[j]).0 != p,
        find_file(lib, p, i) < lib.len() ==> lib[find_file(lib, p, i)].0 == p,
    decreases lib.len() - i,
{
    if i < lib.len() && lib[i].0 != p {
        lemma_find_file(lib, p, i + 1);
    }
}

/// Paths that are all different and can each be read are no more than the
/// files.
pub proof fn lemma_known_bound(lib: Library, loaded: Seq<Seq<char>>)
    requires
        known(lib, loaded),
    ensures
        loaded.len() <= lib.len(),
{
    let ps = paths(lib);
    assert forall|p: Seq<char>| loaded.to_set().contains(p) implies ps.to_set().contains(p) by {
        let i = choose|i: int| 0 <= i < loaded.len() && loaded[i] == p;
        assert(read(lib, loaded[i]) is Some);
        lemma_find_file(lib, p, 0);
        let j = find_file(lib, p, 0);
        assert(ps[j] == p);
    }
    loaded.unique_seq_to_set();
    vstd::seq_lib::seq_to_set_is_finite(ps);
    vstd::set_lib::lemma_len_subset(loaded.to_set(), ps.to_set());
    ps.lemma_cardinality_of_set();
}

/// A pass that goes well keeps the loaded paths different and readable, drops
/// none of them, and adds one for each import that it meets.
pub proof fn lemma_gather_grows(es: Entries, i: int, lib: Library, g: Gathered)
    requires
        0 <= i <= es.len(),
        known(lib, g.loaded),
        gather(es, i, lib, g) is Ok,
    ensures
        known(lib, gather(es, i, lib, g)->Ok_0.loaded),
        g.loaded.len() <= gather(es, i, lib, g)->Ok_0.loaded.len(),
        (exists|j: int| i <= j < es.len() && (#[trigger] es[j]).1 is ImportRef) ==> g.loaded.len()
            < gather(es, i, lib, g)->Ok_0.loaded.len(),
    decreases es.len() - i,
{
    if i < es.len() {
        match es[i].1 {
            Node::ImportRef(p) => {
                let t = read(lib, p)->0;
                let next = Gathered {
                    imported: spliced(g.imported, t),
                    body: g.body,
                    loaded: g.loaded.push(p),
                };
                assert(known(lib, next.loaded)) by {
                    assert forall|a: int, b: int|
                        0 <= a < next.loaded.len() && 0 <= b < next.loaded.len() && a
                            != b implies next.loaded[a] != next.loaded[b] by {
                        if a < g.loaded.len() {
                            assert(g.loaded.contains(g.loaded[a]));
                        }
                        if b < g.loaded.len() {
                            assert(g.loaded.contains(g.loaded[b]));
                        }
                    }
                }
                lemma_gather_grows(es, i + 1, lib, next);
            },
            _ => {
                let next = Gathered {
                    imported: g.imported,
                    body: g.body + render_entry(es[i].0, es[i].1),
                    loaded: g.loaded,
                };
                lemma_gather_grows(es, i + 1, lib, next);
                assert forall|j: int| i <= j < es.len() && (#[trigger] es[j]).1 is ImportRef implies i
                    + 1 <= j by {}
            },
        }
    }
}

/// A pass that meets an import of a loaded path fails; it fails as a cycle on
/// that path if no other import precedes it.
proof fn lemma_gather_repeat(es: Entries, from: int, lib: Library, g: Gathered, i: int)
    requires
        0 <= from <= i < es.len(),
        es[i].1 is ImportRef,
        g.loaded.contains(es[i].1->ImportRef_0),
    ensures
        gather(es, from, lib, g) is Err,
        (forall|j: int| from <= j < i ==> !((#[trigger] es[j]).1 is ImportRef)) ==> gather(
            es,
            from,
            lib,
            g,
        ) == Err::<Gathered, Failure>(Failure::ImportCycle(es[i].1->ImportRef_0)),
    decreases i - from,
{
    let p = es[i].1->ImportRef_0;
    if from < i {
        match es[from].1 {
            Node::ImportRef(q) => {
                if !g.loaded.contains(q) && read(lib, q) is Some {
                    let next = Gathered {
                        imported: spliced(g.imported, read(lib, q)->0),
                        body: g.body,
                        loaded: g.loaded.push(q),
                    };
                    let at = choose|at: int| 0 <= at < g.loaded.len() && g.loaded[at] == p;
                    assert(next.loaded[at] == p);
                    lemma_gather_repeat(es, from + 1, lib, next, i);
                }
            },
            _ => {
                let next = Gathered {
                    imported: g.imported,
                    body: g.body + render_entry(es[from].0, es[from].1),
                    loaded: g.loaded,
                };
                lemma_gather_repeat(es, from + 1, lib, next, i);
            },
        }
    }
}

/// A tree with an import of a path that was spliced in before does not
/// resolve: resolution fails and leaves the tree as it is. Where no other
/// import precedes that one, it fails as a cycle on its path.
pub proof fn lemma_repeated_import_fails(n: Node, lib: Library, loaded: Seq<Seq<char>>, i: int)
    requires
        n is Mapping,
        0 <= i < n->Mapping_0.len(),
        n->Mapping_0[i].1 is ImportRef,
        loaded.contains(n->Mapping_0[i].1->ImportRef_0),
    ensures
        resolve(n, lib, loaded).0 == n,
        resolve(n, lib, loaded).1 is Some,
        (forall|j: int| 0 <= j < i ==> !((#[trigger] n->Mapping_0[j]).1 is ImportRef)) ==> resolve(
            n,
            lib,
            loaded,
        ).1 == Some(Failure::ImportCycle(n->Mapping_0[i].1->ImportRef_0)),
{
    let g = Gathered { imported: Seq::empty(), body: Seq::empty(), loaded };
    lemma_gather_repeat(n->Mapping_0, 0, lib, g, i);
}

/// An import of a text that imports its own path fails as a cycle on that
/// path: where the text read under `p` parses to a tree whose first import
/// is one of `p`, resolving a tree that holds only an import of `p` fails so,
/// and leaves what that text parsed to.
pub proof fn lemma_import_of_itself_fails(lib: Library, k: Seq<char>, p: Seq<char>, i: int)
    requires
        read(lib, p) is Some,
        document(spliced(Seq::empty(), read(lib, p)->0)) is Ok,
        ({
            let es = children(document(spliced(Seq::empty(), read(lib, p)->0))->Ok_0.1);
            0 <= i < es.len() && es[i].1 == Node::ImportRef(p) && forall|j: int|
                0 <= j < i ==> !((#[trigger] es[j]).1 is ImportRef)
        }),
    ensures
        resolve(Node::Mapping(seq![(k, Node::ImportRef(p))]), lib, Seq::empty()) == (
            document(spliced(Seq::empty(), read(lib, p)->0))->Ok_0.1,
            Some(Failure::ImportCycle(p)),
        ),
{
    let n = Node::Mapping(seq![(k, Node::ImportRef(p))]);
    let es = n->Mapping_0;
    let text = spliced(Seq::empty(), read(lib, p)->0);
    let t = document(text)->Ok_0.1;
    let g0 = Gathered { imported: Seq::empty(), body: Seq::empty(), loaded: Seq::empty() };
    let g1 = Gathered { imported: text, body: Seq::empty(), loaded: Seq::<Seq<char>>::empty().push(p) };
    assert(es[0].1 is ImportRef);
    assert(has_import(n));
    assert(gather(es, 1, lib, g1) == Ok::<Gathered, Failure>(g1));
    assert(gather(es, 0, lib, g0) == Ok::<Gathered, Failure>(g1));
    assert(g1.imported + g1.body =~= text);
    lemma_find_file(lib, p, 0);
    assert(g1.loaded[0] == p);
    assert(t is Mapping);
    lemma_repeated_import_fails(t, lib, g1.loaded, i);
}

/// Resolution that ends without a failure leaves a tree none of whose direct
/// children is an import, and resolution of a well-formed document leaves a
/// well-formed document: so one that holds no import at all.
pub proof fn lemma_resolved(n: Node, lib: Library, loaded: Seq<Seq<char>>)
    requires
        known(lib, loaded),
    ensures
        resolve(n, lib, loaded).1 is None ==> !has_import(resolve(n, lib, loaded).0),
        well_formed(n) ==> well_formed(resolve(n, lib, loaded).0),
        well_formed(n) && resolve(n, lib, loaded).1 is None ==> import_free(
            resolve(n, lib, loaded).0,
        ),
    decreases lib.len() - loaded.len(),
{
    if has_import(n) {
        match round(n, lib, loaded) {
            Ok((text, next)) => match document(text) {
                Ok((_, t)) => {
                    let g = Gathered { imported: Seq::empty(), body: Seq::empty(), loaded };
                    lemma_gather_grows(children(n), 0, lib, g);
                    lemma_known_bound(lib, next);
                    lemma_parsed_is_well_formed(text);
                    lemma_resolved(t, lib, next);
                },
                Err(_) => {},
            },
            Err(_) => {},
        }
    }
    let r = resolve(n, lib, loaded).0;
    if well_formed(n) && resolve(n, lib, loaded).1 is None {
        lemma_document_is_import_free(r);
    }
}

/// A tree none of whose direct children is an import is resolved as it is.
pub proof fn lemma_resolved_is_fixed(n: Node, lib: Library, loaded: Seq<Seq<char>>)
    requires
        !has_import(n),
    ensures
        resolve(n, lib, loaded) == (n, None::<Failure>),
{
}

/// The position of the first file with the path `p`, if there is one.
fn locate(files: &Vec<(String, String)>, p: &String) -> (r: Option<usize>)
    ensures
        match r {
            Some(i) => i < files.len() && read(library(files@), p@) == Some(files@[i as int].1@),
            None => read(library(files@), p@) is None,
        },
{
    let ghost lib = library(files@);
    let mut i: usize = 0;
    while i < files.len() && !(files[i].0 == *p)
        invariant
            i <= files.len(),
            lib == library(files@),
            find_file(lib, p@, 0) == find_file(lib, p@, i as int),
        decreases files.len() - i,
    {
        i = i + 1;
    }
    if i < files.len() {
        Some(i)
    } else {
        None
    }
}

impl CSS {
    /// Whether a direct child of this tree is an import.
    pub fn have_import(&self) -> (r: bool)
        ensures
            r == has_import(self@),
    {
        match self {
            CSS::Object(d) => {
                proof {
                    lemma_entries_view(d@);
                }
                let mut i: usize = 0;
                while i < d.len()
                    invariant
                        i <= d.len(),
                        self@ == Node::Mapping(entries_view(d@)),
                        entries_view(d@).len() == d.len(),
                        forall|j: int|
                            0 <= j < d.len() ==> #[trigger] entries_view(d@)[j] == (
                                d@[j].0@,
                                d@[j].1@,
                            ),
                        forall|j: int| 0 <= j < i ==> !((#[trigger] entries_view(d@)[j]).1 is ImportRef),
                    decreases d.len() - i,
                {
                    match &d[i].1 {
                        CSS::Import(_) => {
                            assert(entries_view(d@)[i as int].1 is ImportRef);
                            return true;
                        },
                        _ => {},
                    }
                    i = i + 1;
                }
                false
            },
            _ => false,
        }
    }

    /// One round of resolution: the text that is to replace this tree. The
    /// paths that it splices in are added to `loaded`.
    pub fn get_import_css_str(
        &self,
        files: &Vec<(String, String)>,
        loaded: &mut Vec<String>,
    ) -> (r: Result<String, CssError>)
        ensures
            match r {
                Ok(t) => round(self@, library(files@), texts(old(loaded)@)) == Ok::<
                    (Seq<char>, Seq<Seq<char>>),
                    Failure,
                >((t@, texts(final(loaded)@))),
                Err(e) => round(self@, library(files@), texts(old(loaded)@)) == Err::<
                    (Seq<char>, Seq<Seq<char>>),
                    Failure,
                >(e@),
            },
            texts(final(loaded)@) == loaded_after(
                children(self@),
                0,
                library(files@),
                texts(old(loaded)@),
            ),
    {
        let mut body = String::new();
        let mut imported = String::new();
        let ghost lib = library(files@);
        let ghost start = Gathered {
            imported: Seq::empty(),
            body: Seq::empty(),
            loaded: texts(loaded@),
        };
        match self {
            CSS::Object(d) => {
                let ghost es = entries_view(d@);
                proof {
                    lemma_entries_view(d@);
                }
                let mut i: usize = 0;
                while i < d.len()
                    invariant
                        i <= d.len(),
                        lib == library(files@),
                        es == entries_view(d@),
                        children(self@) == es,
                        start == (Gathered {
                            imported: Seq::empty(),
                            body: Seq::empty(),
                            loaded: texts(old(loaded)@),
                        }),
                        es.len() == d.len(),
                        forall|j: int|
                            0 <= j < d.len() ==> #[trigger] es[j] == (d@[j].0@, d@[j].1@),
                        gather(
                            es,
                            i as int,
                            lib,
                            Gathered {
                                imported: imported@,
                                body: body@,
                                loaded: texts(loaded@),
                            },
                        ) == gather(es, 0, lib, start),
                        loaded_after(es, i as int, lib, texts(loaded@)) == loaded_after(
                            es,
                            0,
                            lib,
                            start.loaded,
                        ),
                    decreases d.len() - i,
                {
                    match &d[i].1 {
                        CSS::Import(p) => {
                            assert(es[i as int].1 == Node::ImportRef(p@));
                            if listed(loaded, p) {
                                return Err(CssError::ImportCycle(p.clone()));
                            }
                            match locate(files, p) {
                                None => {
                                    return Err(CssError::Io(p.clone()));
                                },
                                Some(at) => {
                                    let ghost before = imported@;
                                    let ghost had = texts(loaded@);
                                    let mut joined = String::from_str("  ");
                                    joined.append(imported.as_str());
                                    joined.append("  ");
                                    joined.append(files[at].1.as_str());
                                    joined.append("\n");
                                    imported = joined;
                                    loaded.push(p.clone());
                                    proof {
                                        reveal_strlit("  ");
                                        reveal_strlit("\n");
                                        assert("  "@ =~= seq![' ', ' ']);
                                        assert("\n"@ =~= seq!['\n']);
                                        assert(imported@ =~= spliced(before, files@[at as int].1@));
                                        assert(texts(loaded@) =~= had.push(p@));
                                    }
                                },
                            }
                        },
                        _ => {
                            write_entry(&mut body, d[i].0.as_str(), &d[i].1);
                        },
                    }
                    i = i + 1;
                }
            },
            _ => {},
        }
        let mut text = imported;
        text.append(body.as_str());
        Ok(text)
    }

    /// Splices in the texts that imports name, round by round, until no
    /// direct child is an import. `files` holds the texts that can be read. On
    /// a failure this tree is that of the last round that went well.
    pub fn extend_import(&mut self, files: &Vec<(String, String)>) -> (r: Result<(), CssError>)
        ensures
            resolve(old(self)@, library(files@), Seq::empty()) == (
                final(self)@,
                match r {
                    Ok(_) => None::<Failure>,
                    Err(e) => Some(e@),
                },
            ),
            !has_import(old(self)@) ==> r is Ok && *final(self) == *old(self),
            r is Ok ==> !has_import(final(self)@),
            well_formed(old(self)@) ==> well_formed(final(self)@),
            well_formed(old(self)@) && r is Ok ==> import_free(final(self)@),
    {
        let mut loaded: Vec<String> = Vec::new();
        let ghost lib = library(files@);
        let ghost goal = resolve(self@, lib, Seq::empty());
        assert(texts(loaded@) =~= Seq::empty());
        proof {
            lemma_resolved(self@, lib, Seq::empty());
        }
        while self.have_import()
            invariant
                lib == library(files@),
                lib.len() == files.len(),
                known(lib, texts(loaded@)),
                resolve(self@, lib, texts(loaded@)) == goal,
                goal == resolve(old(self)@, lib, Seq::empty()),
                well_formed(old(self)@) ==> well_formed(goal.0),
                well_formed(old(self)@) && goal.1 is None ==> import_free(goal.0),
                !has_import(old(self)@) ==> *self == *old(self),
            decreases files.len() - loaded.len(),
        {
            let ghost had = texts(loaded@);
            proof {
                lemma_known_bound(lib, had);
            }
            match self.get_import_css_str(files, &mut loaded) {
                Err(e) => {
                    assert(round(self@, lib, had) is Err);
                    assert(resolve(self@, lib, had) == (self@, Some(e@)));
                    return Err(e);
                },
                Ok(text) => {
                    proof {
                        let g0 = Gathered {
                            imported: Seq::empty(),
                            body: Seq::empty(),
                            loaded: had,
                        };
                        lemma_gather_grows(children(self@), 0, lib, g0);
                        lemma_known_bound(lib, texts(loaded@));
                    }
                    match parse(text.as_str()) {
                        Err(e) => {
                            assert(resolve(self@, lib, had) == (self@, Some(e@)));
                            return Err(e);
                        },
                        Ok((_, data)) => {
                            *self = data;
                        },
                    }
                },
            }
        }
        Ok(())
    }
}

} // verus!
