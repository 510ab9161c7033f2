use vstd::prelude::*;
use vstd::std_specs::iter::IteratorSpec;

verus! {

/// Whether `c` is one of the blanks that the grammar skips between tokens:
/// a space, a tab, a line feed or a carriage return.
pub open spec fn is_space(c: char) -> bool {
    c == ' ' || c == '\t' || c == '\n' || c == '\r'
}

/// The character classes at which a token of the grammar ends.
#[derive(Clone, Copy, Debug, PartialEq, Eq, Structural)]
pub enum Until {
    /// The first character that is no blank.
    Solid,
    /// A line feed.
    LineEnd,
    /// A closing parenthesis.
    ParenClose,
    /// `:`, `;` or `}`: the end of a placeholder's name.
    NameEnd,
    /// `:`, `{` or `}`: the end of a property's key.
    KeyEnd,
    /// `;`, `{` or `}`: the end of a property's value.
    ValueEnd,
    /// `{` or `}`: the end of a selector.
    SelectorEnd,
    /// A blank: the end of a word.
    Blank,
    /// A hyphen: the end of a segment of a name.
    Dash,
}

impl Until {
    /// Whether a token that ends at this class ends before `c`.
    pub open spec fn hits(self, c: char) -> bool {
        match self {
            Until::Solid => !is_space(c),
            Until::LineEnd => c == '\n',
            Until::ParenClose => c == ')',
            Until::NameEnd => c == ':' || c == ';' || c == '}',
            Until::KeyEnd => c == ':' || c == '{' || c == '}',
            Until::ValueEnd => c == ';' || c == '{' || c == '}',
            Until::SelectorEnd => c == '{' || c == '}',
            Until::Blank => is_space(c),
            Until::Dash => c == '-',
        }
    }

    /// Whether a token that ends at this class ends before `c`.
    pub fn test(self, c: char) -> (r: bool)
        ensures
            r == self.hits(c),
    {
        match self {
            Until::Solid => !(c == ' ' || c == '\t' || c == '\n' || c == '\r'),
            Until::LineEnd => c == '\n',
            Until::ParenClose => c == ')',
            Until::NameEnd => c == ':' || c == ';' || c == '}',
            Until::KeyEnd => c == ':' || c == '{' || c == '}',
            Until::ValueEnd => c == ';' || c == '{' || c == '}',
            Until::SelectorEnd => c == '{' || c == '}',
            Until::Blank => c == ' ' || c == '\t' || c == '\n' || c == '\r',
            Until::Dash => c == '-',
        }
    }
}

/// The first position at or after `i` whose character `u` hits, or the
/// length of `s` if there is none.
pub open spec fn scan(s: Seq<char>, i: int, u: Until) -> int
    decreases s.len() - i,
{
    if 0 <= i < s.len() && !u.hits(s[i]) {
        scan(s, i + 1, u)
    } else {
        i
    }
}

/// `scan` stays within the text and stops exactly at the first hit.
pub proof fn lemma_scan(s: Seq<char>, i: int, u: Until)
    requires
        0 <= i <= s.len(),
    ensures
        i <= scan(s, i, u) <= s.len(),
        forall|k: int| i <= k < scan(s, i, u) ==> !u.hits(#[trigger] s[k]),
        scan(s, i, u) < s.len() ==> u.hits(s[scan(s, i, u)]),
    decreases s.len() - i,
{
    if i < s.len() && !u.hits(s[i]) {
        lemma_scan(s, i + 1, u);
    }
}

/// A position `j` that no hit precedes and that is a hit or the end is what
/// `scan` finds.
pub proof fn lemma_scan_is(s: Seq<char>, i: int, j: int, u: Until)
    requires
        0 <= i <= j <= s.len(),
        forall|k: int| i <= k < j ==> !u.hits(#[trigger] s[k]),
        j < s.len() ==> u.hits(s[j]),
    ensures
        scan(s, i, u) == j,
    decreases j - i,
{
    if i < j {
        lemma_scan_is(s, i + 1, j, u);
    }
}

/// The text without the blanks at its two ends.
pub open spec fn trim(x: Seq<char>) -> Seq<char>
    decreases x.len(),
{
    if x.len() == 0 {
        x
    } else if is_space(x[0]) {
        trim(x.drop_first())
    } else if is_space(x.last()) {
        trim(x.drop_last())
    } else {
        x
    }
}

/// What the strings stand for, each by itself.
pub open spec fn texts(v: Seq<String>) -> Seq<Seq<char>> {
    Seq::new(v.len(), |i: int| v[i]@)
}

/// Whether `p` is among the strings `v`.
pub fn listed(v: &Vec<String>, p: &String) -> (r: bool)
    ensures
        r == texts(v@).contains(p@),
{
    let mut i: usize = 0;
    while i < v.len()
        invariant
            i <= v.len(),
            forall|j: int| 0 <= j < i ==> texts(v@)[j] != p@,
        decreases v.len() - i,
    {
        if v[i] == *p {
            assert(texts(v@)[i as int] == p@);
            return true;
        }
        i = i + 1;
    }
    false
}

/// The characters of `text`, one by one.
pub fn chars_of(text: &str) -> (v: Vec<char>)
    ensures
        v@ == text@,
{
    let mut v: Vec<char> = Vec::new();
    for c in it: text.chars()
        invariant
            it.seq() == text@,
            v@ == text@.take(it.index() as int),
    {
        v.push(c);
        assert(v@ =~= text@.take(it.index() + 1));
    }
    assert(v@ =~= text@);
    v
}

/// The position at or after `i` that `scan` finds in `v`.
pub fn scan_from(v: &Vec<char>, i: usize, u: Until) -> (j: usize)
    requires
        i <= v.len(),
    ensures
        j == scan(v@, i as int, u),
        i <= j <= v.len(),
        forall|k: int| i <= k < j ==> !u.hits(#[trigger] v@[k]),
        j < v.len() ==> u.hits(v@[j as int]),
{
    let mut j: usize = i;
    while j < v.len() && !u.test(v[j])
        invariant
            i <= j <= v.len(),
            scan(v@, i as int, u) == scan(v@, j as int, u),
        decreases v.len() - j,
    {
        j = j + 1;
    }
    proof {
        lemma_scan(v@, i as int, u);
    }
    j
}

/// The bounds of `trim` of the part of `v` from `a` to `b`.
pub fn trim_bounds(v: &Vec<char>, a: usize, b: usize) -> (r: (usize, usize))
    requires
        a <= b <= v.len(),
    ensures
        a <= r.0 <= r.1 <= b,
        v@.subrange(r.0 as int, r.1 as int) == trim(v@.subrange(a as int, b as int)),
{
    let mut lo: usize = a;
    while lo < b && !Until::Solid.test(v[lo])
        invariant
            a <= lo <= b <= v.len(),
            trim(v@.subrange(lo as int, b as int)) == trim(v@.subrange(a as int, b as int)),
        decreases b - lo,
    {
        proof {
            let x = v@.subrange(lo as int, b as int);
            assert(x.drop_first() =~= v@.subrange(lo + 1, b as int));
        }
        lo = lo + 1;
    }
    let mut hi: usize = b;
    while lo < hi && !Until::Solid.test(v[hi - 1])
        invariant
            a <= lo <= hi <= b <= v.len(),
            lo < b ==> !is_space(v@[lo as int]),
            trim(v@.subrange(lo as int, hi as int)) == trim(v@.subrange(a as int, b as int)),
        decreases hi - lo,
    {
        proof {
            let x = v@.subrange(lo as int, hi as int);
            assert(x.drop_last() =~= v@.subrange(lo as int, hi - 1));
        }
        hi = hi - 1;
    }
    proof {
        let x = v@.subrange(lo as int, hi as int);
        if lo < hi {
            assert(x[0] == v@[lo as int]);
            assert(x.last() == v@[hi - 1]);
        }
    }
    (lo, hi)
}

} // verus!
