//! Grammatical roles.

use vstd::prelude::*;
use vstd::string::StringExecFns;

verus! {

/// How many operands a verb takes.
#[derive(Debug, PartialEq, Eq, Copy, Clone, Structural)]
pub enum Arity {
    Unary,
    Binary,
}

/// The grammatical role of an expression.
#[derive(Debug, PartialEq, Eq, Copy, Clone, Structural)]
pub enum PartOfSpeech {
    Noun,
    Verb(Arity),
    /// Input arity, output arity: turns a verb of the first into a verb of the second.
    Adverb(Arity, Arity),
}

impl PartOfSpeech {
    /// The short tag of a part of speech: `n`, `v1`, `v2`, `a1` or `a2`.
    /// An adverb is tagged by its input arity alone.
    pub open spec fn tag(self) -> Seq<char> {
        match self {
            PartOfSpeech::Noun => seq!['n'],
            PartOfSpeech::Verb(Arity::Unary) => seq!['v', '1'],
            PartOfSpeech::Verb(Arity::Binary) => seq!['v', '2'],
            PartOfSpeech::Adverb(Arity::Unary, _) => seq!['a', '1'],
            PartOfSpeech::Adverb(Arity::Binary, _) => seq!['a', '2'],
        }
    }

    /// Renders the short tag.
    pub fn to_text(&self) -> (text: String)
        ensures
            text@ == self.tag(),
    {
        proof {
            reveal_strlit("n");
            reveal_strlit("v1");
            reveal_strlit("v2");
            reveal_strlit("a1");
            reveal_strlit("a2");
        }
        let text = match self {
            PartOfSpeech::Noun => String::from_str("n"),
            PartOfSpeech::Verb(Arity::Unary) => String::from_str("v1"),
            PartOfSpeech::Verb(Arity::Binary) => String::from_str("v2"),
            PartOfSpeech::Adverb(Arity::Unary, _) => String::from_str("a1"),
            PartOfSpeech::Adverb(Arity::Binary, _) => String::from_str("a2"),
        };
        assert(text@ =~= self.tag());
        text
    }
}

} // verus!
