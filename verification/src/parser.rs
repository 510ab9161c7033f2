use crate::error::{CssError, Failure};
use crate::grammar::{
    after_statement, at, block_at, body_at, comment_at, document, extend_at, has_at, import_at,
    import_word, item_at, items_at, keep, more_items, more_statements, pair_at, statement_at,
    statements_at, Construct, Item,
};
use crate::text::{chars_of, scan_from, trim, trim_bounds, Until};
use crate::tree::{entries_view, lemma_entries_view, put_entry, Entries, Node, CSS};
use crate::wellformed::{lemma_parsed_is_well_formed, well_formed};
use vstd::prelude::*;
use vstd::string::StrSliceExecFns;

verus! {

/// A parsed item as the parser holds it: where the text goes on, the key and
/// the child.
pub type Parsed = (usize, String, CSS);

/// Whether the parser's optional item is what the grammar gives at `i`, and
/// lies after `i` within the text.
pub open spec fn found(r: Option<Parsed>, g: Option<Item>, i: usize, len: usize) -> bool {
    match r {
        Some(t) => g == Some((t.0 as int, (t.1@, t.2@))) && i < t.0 <= len,
        None => g is None,
    }
}

/// Whether the parser's item or failure is what the grammar gives at `i`.
pub open spec fn found_or(
    r: Result<Parsed, Construct>,
    g: Result<Item, Construct>,
    i: usize,
    len: usize,
) -> bool {
    match r {
        Ok(t) => g == Ok::<Item, Construct>((t.0 as int, (t.1@, t.2@))) && i < t.0 <= len,
        Err(c) => g == Err::<Item, Construct>(c),
    }
}

/// The part of the text from `a` to `b` without the blanks at its ends.
fn word(text: &str, v: &Vec<char>, a: usize, b: usize) -> (r: String)
    requires
        v@ == text@,
        a <= b <= v.len(),
    ensures
        r@ == trim(v@.subrange(a as int, b as int)),
{
    let (lo, hi) = trim_bounds(v, a, b);
    text.substring_char(lo, hi).to_owned()
}

/// Where the text goes on after a statement that ends at `j`.
fn statement_end(v: &Vec<char>, j: usize) -> (m: usize)
    requires
        j <= v.len(),
    ensures
        m == after_statement(v@, j as int),
        j <= m <= v.len(),
{
    if j < v.len() && v[j] == ';' {
        let m = scan_from(v, j + 1, Until::Solid);
        if m < v.len() && v[m] == '}' {
            m
        } else {
            j
        }
    } else {
        j
    }
}

/// A placeholder statement at `i`.
fn extend(text: &str, v: &Vec<char>, i: usize) -> (r: Option<Parsed>)
    requires
        v@ == text@,
        i <= v.len(),
    ensures
        found(r, extend_at(v@, i as int), i, v.len()),
{
    let a = scan_from(v, i, Until::Solid);
    if a < v.len() && v[a] == '?' {
        let j = scan_from(v, a + 1, Until::NameEnd);
        if j > a + 1 {
            let name = word(text, v, a + 1, j);
            let key = name.clone();
            let m = statement_end(v, j);
            Some((m, key, CSS::ExtendValue(name)))
        } else {
            None
        }
    } else {
        None
    }
}

/// A property at `i`.
fn pair(text: &str, v: &Vec<char>, i: usize) -> (r: Option<Parsed>)
    requires
        v@ == text@,
        i <= v.len(),
    ensures
        found(r, pair_at(v@, i as int), i, v.len()),
{
    let j = scan_from(v, i, Until::KeyEnd);
    if j > i && j < v.len() && v[j] == ':' {
        let e = scan_from(v, j + 1, Until::ValueEnd);
        if e > j + 1 {
            let key = word(text, v, i, j);
            let value = word(text, v, j + 1, e);
            let m = statement_end(v, e);
            Some((m, key, CSS::Value(value)))
        } else {
            None
        }
    } else {
        None
    }
}

/// A statement at `i`.
fn statement(text: &str, v: &Vec<char>, i: usize) -> (r: Option<Parsed>)
    requires
        v@ == text@,
        i <= v.len(),
    ensures
        found(r, statement_at(v@, i as int), i, v.len()),
{
    match extend(text, v, i) {
        Some(t) => Some(t),
        None => pair(text, v, i),
    }
}

/// One or more statements at `i`.
fn statements(text: &str, v: &Vec<char>, i: usize) -> (r: Option<(usize, Vec<(String, CSS)>)>)
    requires
        v@ == text@,
        i <= v.len(),
    ensures
        match r {
            Some(t) => statements_at(v@, i as int) == Some((t.0 as int, entries_view(t.1@)))
                && i < t.0 <= v.len(),
            None => statements_at(v@, i as int) is None,
        },
{
    match statement(text, v, i) {
        None => None,
        Some((first, k, c)) => {
            let mut acc: Vec<(String, CSS)> = Vec::new();
            let ghost start: Entries = seq![(k@, c@)];
            acc.push((k, c));
            proof {
                lemma_entries_view(acc@);
                assert(entries_view(acc@) =~= start);
            }
            let mut p: usize = first;
            let mut open: bool = true;
            while open
                invariant
                    v@ == text@,
                    i < p <= v.len(),
                    open ==> more_statements(v@, p as int, entries_view(acc@)) == more_statements(
                        v@,
                        first as int,
                        start,
                    ),
                    !open ==> (p as int, entries_view(acc@)) == more_statements(
                        v@,
                        first as int,
                        start,
                    ),
                decreases v.len() - p, if open { 1int } else { 0int },
            {
                if p < v.len() && v[p] == ';' {
                    match statement(text, v, p + 1) {
                        Some((q, k, c)) => {
                            put_entry(&mut acc, k, c);
                            p = q;
                        },
                        None => {
                            open = false;
                        },
                    }
                } else {
                    open = false;
                }
            }
            Some((p, acc))
        },
    }
}

/// A comment at `i`.
fn comment(text: &str, v: &Vec<char>, i: usize) -> (r: Option<Parsed>)
    requires
        v@ == text@,
        i <= v.len(),
    ensures
        found(r, comment_at(v@, i as int), i, v.len()),
{
    if i < v.len() && v[i] == '/' && i + 1 < v.len() && v[i + 1] == '/' {
        let j = scan_from(v, i, Until::LineEnd);
        let body = word(text, v, i, j);
        Some((j, String::new(), CSS::Comment(body)))
    } else {
        None
    }
}

/// An import directive at `i`.
fn import(text: &str, v: &Vec<char>, i: usize) -> (r: Option<Parsed>)
    requires
        v@ == text@,
        i <= v.len(),
    ensures
        found(r, import_at(v@, i as int), i, v.len()),
{
    if v.len() - i >= 8 && v[i] == '@' && v[i + 1] == 'i' && v[i + 2] == 'm' && v[i + 3] == 'p'
        && v[i + 4] == 'o' && v[i + 5] == 'r' && v[i + 6] == 't' && v[i + 7] == '(' {
        assert(v@.subrange(i as int, i + 8) =~= import_word());
        let a = i + 8;
        let p = scan_from(v, a, Until::ParenClose);
        if p > a && p < v.len() {
            let q = scan_from(v, p + 1, Until::Solid);
            if q < v.len() && v[q] == ';' {
                let path = word(text, v, a, p);
                let key = path.clone();
                Some((q + 1, key, CSS::Import(path)))
            } else {
                None
            }
        } else {
            None
        }
    } else {
        proof {
            if has_at(v@, i as int, import_word()) {
                let w = v@.subrange(i as int, i + 8);
                assert(w[0] == '@' && w[1] == 'i' && w[2] == 'm' && w[3] == 'p' && w[4] == 'o'
                    && w[5] == 'r' && w[6] == 't' && w[7] == '(');
            }
        }
        None
    }
}

/// A selector block at `i`.
fn block(text: &str, v: &Vec<char>, i: usize) -> (r: Result<Parsed, Construct>)
    requires
        v@ == text@,
        i <= v.len(),
    ensures
        found_or(r, block_at(v@, i as int), i, v.len()),
    decreases v.len() - i, 0int,
{
    let j = scan_from(v, i, Until::SelectorEnd);
    if j <= i {
        Err(Construct::Selector)
    } else if !(j < v.len() && v[j] == '{') {
        Err(Construct::Node)
    } else {
        match body(text, v, j + 1) {
            None => Err(Construct::Object),
            Some((e, n)) => {
                if e < v.len() && v[e] == '}' {
                    let key = word(text, v, i, j);
                    Ok((e + 1, key, n))
                } else {
                    Err(Construct::Node)
                }
            },
        }
    }
}

/// An item at `i`, at the outermost level or inside a block.
fn item(text: &str, v: &Vec<char>, i: usize, outer: bool) -> (r: Result<Parsed, Construct>)
    requires
        v@ == text@,
        i <= v.len(),
    ensures
        found_or(r, item_at(v@, i as int, outer), i, v.len()),
    decreases v.len() - i, 1int,
{
    if outer {
        match comment(text, v, i) {
            Some(t) => {
                return Ok(t);
            },
            None => {},
        }
        match import(text, v, i) {
            Some(t) => {
                return Ok(t);
            },
            None => {},
        }
    }
    block(text, v, i)
}

/// One or more items from `i` on.
fn items(text: &str, v: &Vec<char>, i: usize, outer: bool) -> (r: Result<
    (usize, Vec<(String, CSS)>),
    Construct,
>)
    requires
        v@ == text@,
        i <= v.len(),
    ensures
        match r {
            Ok(t) => items_at(v@, i as int, outer) == Ok::<(int, Entries), Construct>(
                (t.0 as int, entries_view(t.1@)),
            ) && i <= t.0 <= v.len(),
            Err(c) => items_at(v@, i as int, outer) == Err::<(int, Entries), Construct>(c),
        },
    decreases v.len() - i, 2int,
{
    let a = scan_from(v, i, Until::Solid);
    match item(text, v, a, outer) {
        Err(c) => Err(c),
        Ok((first, k, c)) => {
            let mut acc: Vec<(String, CSS)> = Vec::new();
            let ghost start: Entries = keep(Seq::empty(), k@, c@);
            proof {
                lemma_entries_view(acc@);
                assert(entries_view(acc@) =~= Seq::empty());
            }
            if !k.as_str().is_empty() {
                put_entry(&mut acc, k, c);
            }
            let mut p: usize = first;
            let mut open: bool = true;
            while open
                invariant
                    v@ == text@,
                    i < p <= v.len(),
                    open ==> more_items(v@, p as int, entries_view(acc@), outer) == more_items(
                        v@,
                        first as int,
                        start,
                        outer,
                    ),
                    !open ==> (p as int, entries_view(acc@)) == more_items(
                        v@,
                        first as int,
                        start,
                        outer,
                    ),
                decreases v.len() - p, if open { 1int } else { 0int },
            {
                let m = scan_from(v, p, Until::Solid);
                if m > p {
                    match item(text, v, m, outer) {
                        Ok((q, k, c)) => {
                            if !k.as_str().is_empty() {
                                put_entry(&mut acc, k, c);
                            }
                            p = q;
                        },
                        Err(_) => {
                            p = m;
                            open = false;
                        },
                    }
                } else {
                    p = m;
                    open = false;
                }
            }
            Ok((p, acc))
        },
    }
}

/// The body of a block at `i`.
fn body(text: &str, v: &Vec<char>, i: usize) -> (r: Option<(usize, CSS)>)
    requires
        v@ == text@,
        i <= v.len(),
    ensures
        match r {
            Some(t) => body_at(v@, i as int) == Some((t.0 as int, t.1@)) && i <= t.0 <= v.len(),
            None => body_at(v@, i as int) is None,
        },
    decreases v.len() - i, 3int,
{
    let a = scan_from(v, i, Until::Solid);
    match statements(text, v, a) {
        Some((p, d)) => {
            let e = scan_from(v, p, Until::Solid);
            Some((e, CSS::Object(d)))
        },
        None => match items(text, v, i, false) {
            Ok((e, d)) => Some((e, CSS::Object(d))),
            Err(_) => None,
        },
    }
}

/// Parses a whole text. Gives the unread rest of the text and the document's
/// tree, or the construct that the text failed to match.
pub fn parse<'a>(text: &'a str) -> (r: Result<(&'a str, CSS), CssError>)
    ensures
        match r {
            Ok(t) => document(text@) == Ok::<(int, Node), Construct>(
                (text@.len() - t.0@.len(), t.1@),
            ) && t.0@ == text@.skip(text@.len() - t.0@.len()) && well_formed(t.1@),
            Err(e) => document(text@) is Err && e@ == Failure::Syntax(document(text@)->Err_0),
        },
{
    let v = chars_of(text);
    proof {
        if document(text@) is Ok {
            lemma_parsed_is_well_formed(text@);
        }
    }
    match items(text, &v, 0, true) {
        Ok((e, d)) => {
            let rest = text.substring_char(e, v.len());
            assert(rest@ =~= text@.skip(e as int));
            Ok((rest, CSS::Object(d)))
        },
        Err(c) => Err(CssError::Syntax(c)),
    }
}

} // verus!
