//! The input alphabet of the parser.

use vstd::prelude::*;

verus! {

/// One unit of input. A vector of terms arrives already tokenized, grouped by
/// brackets and parentheses, and split into statements.
#[derive(Debug, PartialEq)]
pub enum Term {
    NumericLiteral(i64),
    /// A number written directly against what follows it: a unary verb that scales by it.
    Coefficient(i64),
    /// A name whose part of speech is not yet known.
    Identifier(String),
    Parens(Vec<Term>),
    Brackets(Vec<Term>),
}

/// The model of a [`Term`].
pub enum TermModel {
    NumericLiteral(i64),
    Coefficient(i64),
    Identifier(Seq<char>),
    Parens(Seq<TermModel>),
    Brackets(Seq<TermModel>),
}

impl Term {
    /// The model of this term.
    pub open spec fn model(self) -> TermModel
        decreases self,
    {
        match self {
            Term::NumericLiteral(n) => TermModel::NumericLiteral(n),
            Term::Coefficient(n) => TermModel::Coefficient(n),
            Term::Identifier(name) => TermModel::Identifier(name@),
            Term::Parens(children) => TermModel::Parens(
                Seq::new(
                    children.len() as nat,
                    |i: int|
                        if 0 <= i < children.len() {
                            children[i].model()
                        } else {
                            arbitrary()
                        },
                ),
            ),
            Term::Brackets(children) => TermModel::Brackets(
                Seq::new(
                    children.len() as nat,
                    |i: int|
                        if 0 <= i < children.len() {
                            children[i].model()
                        } else {
                            arbitrary()
                        },
                ),
            ),
        }
    }
}

impl View for Term {
    type V = TermModel;

    open spec fn view(&self) -> TermModel {
        self.model()
    }
}

/// The models of a sequence of terms, item by item.
pub open spec fn term_models(terms: Seq<Term>) -> Seq<TermModel> {
    Seq::new(terms.len(), |i: int| terms[i]@)
}

/// The model of a parenthesized group is the sequence of the models of its terms.
pub proof fn lemma_parens_model(children: Vec<Term>)
    ensures
        Term::Parens(children)@ == TermModel::Parens(term_models(children@)),
{
    assert(Term::Parens(children)@->Parens_0 =~= term_models(children@));
}

/// The model of a bracketed group is the sequence of the models of its terms.
pub proof fn lemma_brackets_model(children: Vec<Term>)
    ensures
        Term::Brackets(children)@ == TermModel::Brackets(term_models(children@)),
{
    assert(Term::Brackets(children)@->Brackets_0 =~= term_models(children@));
}

/// How much work a term stands for: one step for the term itself, and for a
/// group the steps of opening, filling and closing its frame.
pub open spec fn term_weight(term: TermModel) -> nat
    decreases term, 1nat,
{
    match term {
        TermModel::Parens(children) => 3 + terms_weight(children),
        TermModel::Brackets(children) => 3 + terms_weight(children),
        _ => 1,
    }
}

/// The work that a sequence of terms stands for.
pub open spec fn terms_weight(terms: Seq<TermModel>) -> nat
    decreases terms, 0nat,
{
    if terms.len() == 0 {
        0
    } else {
        terms_weight(terms.drop_last()) + term_weight(terms.last())
    }
}

} // verus!
