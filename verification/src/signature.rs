use crate::error::CssError;
use crate::text::{chars_of, listed, scan, scan_from, texts, Until};
use crate::tree::{children, entries_view, lemma_entries_view, Node, CSS};
use vstd::prelude::*;
use vstd::string::{StrSliceExecFns, StringExecFns};

verus! {

/// The decimal digit for `d`.
pub open spec fn digit(d: int) -> char {
    if d == 0 {
        '0'
    } else if d == 1 {
        '1'
    } else if d == 2 {
        '2'
    } else if d == 3 {
        '3'
    } else if d == 4 {
        '4'
    } else if d == 5 {
        '5'
    } else if d == 6 {
        '6'
    } else if d == 7 {
        '7'
    } else if d == 8 {
        '8'
    } else {
        '9'
    }
}

/// The decimal numeral of `n`.
pub open spec fn decimal(n: nat) -> Seq<char>
    decreases n,
{
    if n < 10 {
        seq![digit(n as int)]
    } else {
        decimal(n / 10).push(digit((n % 10) as int))
    }
}

/// The number of hyphens in `t`.
pub open spec fn dashes(t: Seq<char>) -> nat
    decreases t.len(),
{
    if t.len() == 0 {
        0
    } else {
        dashes(t.drop_last()) + if t.last() == '-' {
            1nat
        } else {
            0nat
        }
    }
}

/// The placeholders `-$1`, `-$2`, up to `-$n`.
pub open spec fn marks(n: nat) -> Seq<char>
    decreases n,
{
    if n == 0 {
        Seq::empty()
    } else {
        marks((n - 1) as nat) + seq!['-', '$'] + decimal(n)
    }
}

/// The shape of the name `t`: what precedes its first hyphen, and a numbered
/// placeholder in place of each segment after it.
pub open spec fn signature(t: Seq<char>) -> Seq<char> {
    t.take(scan(t, 0, Until::Dash)) + marks(dashes(t))
}

/// The words of `s` from `i` on: its longest parts without a blank.
pub open spec fn words(s: Seq<char>, i: int) -> Seq<Seq<char>>
    decreases s.len() - i,
{
    let a = scan(s, i, Until::Solid);
    let b = scan(s, a, Until::Blank);
    if i <= a < b <= s.len() {
        seq![s.subrange(a, b)] + words(s, b)
    } else {
        Seq::empty()
    }
}

/// The shapes of the words of `s` from `i` on, in order.
pub open spec fn line_signatures(s: Seq<char>, i: int) -> Seq<Seq<char>> {
    words(s, i).map_values(|t: Seq<char>| signature(t))
}

/// The shapes of the words of all the lines, in order.
pub open spec fn signatures(lines: Seq<Seq<char>>) -> Seq<Seq<char>>
    decreases lines.len(),
{
    if lines.len() == 0 {
        Seq::empty()
    } else {
        signatures(lines.drop_last()) + line_signatures(lines.last(), 0)
    }
}

/// `acc` with `x` as its last item, unless `x` is in it.
pub open spec fn with(acc: Seq<Seq<char>>, x: Seq<char>) -> Seq<Seq<char>> {
    if acc.contains(x) {
        acc
    } else {
        acc.push(x)
    }
}

/// The items of `xs` without repetitions, each where it first occurs.
pub open spec fn distinct(xs: Seq<Seq<char>>) -> Seq<Seq<char>>
    decreases xs.len(),
{
    if xs.len() == 0 {
        Seq::empty()
    } else {
        with(distinct(xs.drop_last()), xs.last())
    }
}

/// The keys of a tree's direct children, in order.
pub open spec fn keys(n: Node) -> Seq<Seq<char>> {
    Seq::new(children(n).len(), |i: int| children(n)[i].0)
}

/// `distinct` repeats nothing and holds exactly the items of its argument.
pub proof fn lemma_distinct(xs: Seq<Seq<char>>)
    ensures
        distinct(xs).no_duplicates(),
        forall|x: Seq<char>| distinct(xs).contains(x) <==> xs.contains(x),
    decreases xs.len(),
{
    if xs.len() > 0 {
        let rest = xs.drop_last();
        let d = distinct(rest);
        lemma_distinct(rest);
        assert forall|x: Seq<char>| distinct(xs).contains(x) <==> xs.contains(x) by {
            if xs.contains(x) {
                let i = choose|i: int| 0 <= i < xs.len() && xs[i] == x;
                if i < rest.len() {
                    assert(rest[i] == x);
                    assert(rest.contains(x));
                    assert(d.contains(x));
                    let j = choose|j: int| 0 <= j < d.len() && d[j] == x;
                    assert(distinct(xs)[j] == x);
                } else {
                    if d.contains(x) {
                    } else {
                        assert(distinct(xs)[d.len() as int] == x);
                    }
                }
            }
            if distinct(xs).contains(x) {
                let j = choose|j: int| 0 <= j < distinct(xs).len() && distinct(xs)[j] == x;
                if j < d.len() {
                    assert(d[j] == x);
                    assert(d.contains(x));
                    assert(rest.contains(x));
                    let i = choose|i: int| 0 <= i < rest.len() && rest[i] == x;
                    assert(xs[i] == x);
                } else {
                    assert(xs[xs.len() - 1] == x);
                }
            }
        }
    }
}

/// The numeral of one digit.
fn digit_str(d: usize) -> (r: &'static str)
    requires
        d < 10,
    ensures
        r@ == seq![digit(d as int)],
{
    proof {
        reveal_strlit("0");
        reveal_strlit("1");
        reveal_strlit("2");
        reveal_strlit("3");
        reveal_strlit("4");
        reveal_strlit("5");
        reveal_strlit("6");
        reveal_strlit("7");
        reveal_strlit("8");
        reveal_strlit("9");
        assert("0"@ =~= seq!['0']);
        assert("1"@ =~= seq!['1']);
        assert("2"@ =~= seq!['2']);
        assert("3"@ =~= seq!['3']);
        assert("4"@ =~= seq!['4']);
        assert("5"@ =~= seq!['5']);
        assert("6"@ =~= seq!['6']);
        assert("7"@ =~= seq!['7']);
        assert("8"@ =~= seq!['8']);
        assert("9"@ =~= seq!['9']);
    }
    if d == 0 {
        "0"
    } else if d == 1 {
        "1"
    } else if d == 2 {
        "2"
    } else if d == 3 {
        "3"
    } else if d == 4 {
        "4"
    } else if d == 5 {
        "5"
    } else if d == 6 {
        "6"
    } else if d == 7 {
        "7"
    } else if d == 8 {
        "8"
    } else {
        "9"
    }
}

/// The decimal numeral of `n`.
pub fn decimal_string(n: usize) -> (r: String)
    ensures
        r@ == decimal(n as nat),
    decreases n,
{
    if n < 10 {
        String::from_str(digit_str(n))
    } else {
        let mut r = decimal_string(n / 10);
        r.append(digit_str(n % 10));
        assert(r@ =~= decimal(n as nat));
        r
    }
}

/// The shape of the name `token`.
pub fn token_signature(token: &str) -> (r: String)
    ensures
        r@ == signature(token@),
{
    let v = chars_of(token);
    let d = scan_from(&v, 0, Until::Dash);
    let mut r = token.substring_char(0, d).to_owned();
    let ghost head = r@;
    let mut count: usize = 0;
    let mut i: usize = 0;
    assert(v@.take(0) =~= Seq::empty());
    while i < v.len()
        invariant
            i <= v.len(),
            count == dashes(v@.take(i as int)),
            count <= i,
            r@ == head + marks(count as nat),
        decreases v.len() - i,
    {
        assert(v@.take(i + 1).drop_last() =~= v@.take(i as int));
        if v[i] == '-' {
            count = count + 1;
            let ghost before = r@;
            r.append("-$");
            r.append(decimal_string(count).as_str());
            proof {
                reveal_strlit("-$");
                assert("-$"@ =~= seq!['-', '$']);
                assert(r@ =~= head + marks(count as nat));
            }
        }
        i = i + 1;
    }
    assert(v@.take(v.len() as int) =~= v@);
    assert(head =~= token@.take(d as int));
    r
}

/// The shapes of the names in `cls`, each once, in the order in which they
/// first occur. Every line is split at its blanks into names.
pub fn class_to_signature(cls: Vec<String>) -> (r: Result<Vec<String>, CssError>)
    ensures
        r is Ok,
        texts(r->Ok_0@) == distinct(signatures(texts(cls@))),
        texts(r->Ok_0@).no_duplicates(),
        forall|x: Seq<char>| texts(r->Ok_0@).contains(x) <==> signatures(texts(cls@)).contains(x),
{
    let mut out: Vec<String> = Vec::new();
    let ghost lines = texts(cls@);
    let ghost mut seen: Seq<Seq<char>> = Seq::empty();
    let mut n: usize = 0;
    assert(lines.take(0) =~= Seq::empty());
    assert(texts(out@) =~= Seq::empty());
    while n < cls.len()
        invariant
            n <= cls.len(),
            lines == texts(cls@),
            seen == signatures(lines.take(n as int)),
            texts(out@) == distinct(seen),
        decreases cls.len() - n,
    {
        let line = cls[n].as_str();
        let v = chars_of(line);
        let ghost s = v@;
        let ghost base = seen;
        let mut p: usize = 0;
        let mut open: bool = true;
        while open
            invariant
                p <= v.len(),
                v@ == s,
                s == line@,
                open ==> seen + line_signatures(s, p as int) == base + line_signatures(s, 0),
                !open ==> seen == base + line_signatures(s, 0),
                texts(out@) == distinct(seen),
            decreases v.len() - p, if open { 1int } else { 0int },
        {
            let a = scan_from(&v, p, Until::Solid);
            let b = scan_from(&v, a, Until::Blank);
            if a < b {
                let sig = token_signature(line.substring_char(a, b));
                proof {
                    let f = |t: Seq<char>| signature(t);
                    let rest = words(s, b as int);
                    assert(words(s, p as int) == seq![s.subrange(a as int, b as int)] + rest);
                    assert(line_signatures(s, p as int) =~= seq![sig@] + line_signatures(
                        s,
                        b as int,
                    ));
                    assert(seen.push(sig@) + line_signatures(s, b as int) =~= seen
                        + line_signatures(s, p as int));
                    assert(seen.push(sig@).drop_last() =~= seen);
                    seen = seen.push(sig@);
                }
                let ghost had = texts(out@);
                if !listed(&out, &sig) {
                    out.push(sig);
                    assert(texts(out@) =~= had.push(sig@));
                }
                p = b;
            } else {
                proof {
                    assert(line_signatures(s, p as int) =~= Seq::empty());
                    assert(seen + line_signatures(s, p as int) =~= seen);
                }
                open = false;
            }
        }
        proof {
            assert(lines.take(n + 1).drop_last() =~= lines.take(n as int));
            assert(lines.take(n + 1).last() == s);
        }
        n = n + 1;
    }
    assert(lines.take(cls.len() as int) =~= lines);
    proof {
        lemma_distinct(signatures(lines));
    }
    Ok(out)
}

impl CSS {
    /// The shapes of the names in the keys of this tree's direct children.
    pub fn get_signature(&self) -> (r: Result<Vec<String>, CssError>)
        ensures
            r is Ok,
            texts(r->Ok_0@) == distinct(signatures(keys(self@))),
            texts(r->Ok_0@).no_duplicates(),
            forall|x: Seq<char>|
                texts(r->Ok_0@).contains(x) <==> signatures(keys(self@)).contains(x),
    {
        let mut temp: Vec<String> = Vec::new();
        match self {
            CSS::Object(d) => {
                proof {
                    lemma_entries_view(d@);
                }
                let mut i: usize = 0;
                while i < d.len()
                    invariant
                        i <= d.len(),
                        self@ == Node::Mapping(entries_view(d@)),
                        entries_view(d@).len() == d.len(),
                        forall|j: int|
                            0 <= j < d.len() ==> #[trigger] entries_view(d@)[j] == (
                                d@[j].0@,
                                d@[j].1@,
                            ),
                        temp.len() == i,
                        forall|j: int| 0 <= j < i ==> (#[trigger] temp@[j])@ == d@[j].0@,
                    decreases d.len() - i,
                {
                    temp.push(d[i].0.clone());
                    i = i + 1;
                }
                assert(texts(temp@) =~= keys(self@));
            },
            _ => {
                assert(texts(temp@) =~= keys(self@));
            },
        }
        class_to_signature(temp)
    }
}

} // verus!
