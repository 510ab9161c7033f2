use crate::grammar::Construct;
use vstd::prelude::*;
use vstd::string::StringExecFns;

verus! {

/// What a `CssError` stands for.
pub ghost enum Failure {
    /// The text does not match the grammar: the construct that was expected.
    Syntax(Construct),
    /// The text that an import names could not be read: the import's path.
    Io(Seq<char>),
    /// An import names a path that was spliced in before: that path.
    ImportCycle(Seq<char>),
}

/// Why a document could not be read or resolved.
#[derive(Debug)]
pub enum CssError {
    /// The text does not match the grammar: the construct that was expected.
    Syntax(Construct),
    /// The text that an import names could not be read: the import's path.
    Io(String),
    /// An import names a path that was spliced in before: that path.
    ImportCycle(String),
}

impl View for CssError {
    type V = Failure;

    open spec fn view(&self) -> Failure {
        match self {
            CssError::Syntax(c) => Failure::Syntax(*c),
            CssError::Io(p) => Failure::Io(p@),
            CssError::ImportCycle(p) => Failure::ImportCycle(p@),
        }
    }
}

/// The name of a construct of the grammar.
pub open spec fn label_of(c: Construct) -> Seq<char> {
    match c {
        Construct::Selector => seq!['s', 'e', 'l', 'e', 'c', 't', 'o', 'r'],
        Construct::Object => seq!['o', 'b', 'j', 'e', 'c', 't'],
        Construct::Node => seq!['n', 'o', 'd', 'e'],
    }
}

/// What a failure reads as: the construct that was expected, or the path
/// that could not be read or was imported again.
pub open spec fn message_of(f: Failure) -> Seq<char> {
    match f {
        Failure::Syntax(c) => seq!['e', 'x', 'p', 'e', 'c', 't', 'e', 'd', ' '] + label_of(c),
        Failure::Io(p) => seq!['c', 'a', 'n', 'n', 'o', 't', ' ', 'r', 'e', 'a', 'd', ' '] + p,
        Failure::ImportCycle(p) => p + seq![
            ' ',
            'l',
            'o',
            'o',
            'p',
            ' ',
            'i',
            'm',
            'p',
            'o',
            'r',
            't',
            ' ',
            '!',
        ],
    }
}

impl Construct {
    /// The name of this construct: `selector`, `object` or `node`.
    pub fn label(&self) -> (r: &'static str)
        ensures
            r@ == label_of(*self),
    {
        proof {
            reveal_strlit("selector");
            reveal_strlit("object");
            reveal_strlit("node");
            assert("selector"@ =~= label_of(Construct::Selector));
            assert("object"@ =~= label_of(Construct::Object));
            assert("node"@ =~= label_of(Construct::Node));
        }
        match self {
            Construct::Selector => "selector",
            Construct::Object => "object",
            Construct::Node => "node",
        }
    }
}

impl CssError {
    /// What this failure reads as.
    pub fn message(&self) -> (r: String)
        ensures
            r@ == message_of(self@),
    {
        proof {
            reveal_strlit("expected ");
            reveal_strlit("cannot read ");
            reveal_strlit(" loop import !");
            assert("expected "@ =~= seq!['e', 'x', 'p', 'e', 'c', 't', 'e', 'd', ' ']);
            assert("cannot read "@ =~= seq![
                'c',
                'a',
                'n',
                'n',
                'o',
                't',
                ' ',
                'r',
                'e',
                'a',
                'd',
                ' ',
            ]);
            assert(" loop import !"@ =~= seq![
                ' ',
                'l',
                'o',
                'o',
                'p',
                ' ',
                'i',
                'm',
                'p',
                'o',
                'r',
                't',
                ' ',
                '!',
            ]);
        }
        match self {
            CssError::Syntax(c) => {
                let mut r = String::from_str("expected ");
                r.append(c.label());
                r
            },
            CssError::Io(p) => {
                let mut r = String::from_str("cannot read ");
                r.append(p.as_str());
                r
            },
            CssError::ImportCycle(p) => {
                let mut r = p.clone();
                r.append(" loop import !");
                r
            },
        }
    }
}

} // verus!
