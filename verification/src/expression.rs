//! The expression tree that parsing produces, and its mathematical model.

use vstd::prelude::*;
use vstd::std_specs::cmp::PartialEqSpecImpl;

verus! {

/// A number that names one binding. Identifiers are handed out in increasing
/// order, so comparing two of them compares the order of their allocation.
pub type Identifier = u64;

/// An identifier together with the name it was bound under. The name is
/// carried along so that a tree can be rendered without access to a scope.
#[derive(Debug)]
pub struct RichIdentifier {
    pub id: Identifier,
    pub name: String,
}

/// The model of a [`RichIdentifier`]: the identifier and the characters of the name.
pub struct RichIdentifierModel {
    pub id: Identifier,
    pub name: Seq<char>,
}

impl View for RichIdentifier {
    type V = RichIdentifierModel;

    open spec fn view(&self) -> RichIdentifierModel {
        RichIdentifierModel { id: self.id, name: self.name@ }
    }
}

impl RichIdentifier {
    pub fn new(id: Identifier, name: String) -> (rich: RichIdentifier)
        ensures
            rich@ == (RichIdentifierModel { id, name: name@ }),
    {
        RichIdentifier { id, name }
    }
}

impl Clone for RichIdentifier {
    fn clone(&self) -> (copy: RichIdentifier)
        ensures
            copy@ == self@,
    {
        RichIdentifier { id: self.id, name: self.name.clone() }
    }
}

/// Two rich identifiers are equal when their identifiers are; the name is a decoration.
impl PartialEq for RichIdentifier {
    fn eq(&self, other: &RichIdentifier) -> (equal: bool) {
        self.id == other.id
    }
}

impl PartialEqSpecImpl for RichIdentifier {
    open spec fn obeys_eq_spec() -> bool {
        true
    }

    open spec fn eq_spec(&self, other: &RichIdentifier) -> bool {
        self.id == other.id
    }
}

impl Eq for RichIdentifier {

}

/// Functions that the reducer brings into a tree although the source text names none of them.
#[derive(Debug, PartialEq, Eq, Copy, Clone, Structural)]
pub enum Builtin {
    Scale,
    Compose,
    ComposeLeft,
    ComposeRight,
    PartialApplicationLeft,
    PartialApplicationRight,
}

/// A leaf of the tree.
#[derive(Debug, PartialEq)]
pub enum Atom {
    Number(i64),
    Identifier(RichIdentifier),
}

/// The model of an [`Atom`].
pub enum AtomModel {
    Number(i64),
    Identifier(RichIdentifierModel),
}

impl View for Atom {
    type V = AtomModel;

    open spec fn view(&self) -> AtomModel {
        match self {
            Atom::Number(n) => AtomModel::Number(*n),
            Atom::Identifier(rich) => AtomModel::Identifier(rich@),
        }
    }
}

/// A parsed expression.
///
/// `Tuple` and `Brackets` hold their items in the order in which the reducer
/// gathered them. Terms are consumed from the back, so the item written last
/// in the source text comes first.
///
/// `Compound` is a block: its bindings, each under its identifier and name,
/// in the order in which they were parsed, and the expression that the
/// block bound to `_`, which is not among the bindings.
#[derive(Debug, PartialEq)]
pub enum Expression {
    Atom(Atom),
    Implicit(Builtin),
    UnaryApplication(Box<Expression>, Box<Expression>),
    BinaryApplication(Box<Expression>, Box<Expression>, Box<Expression>),
    Parens(Box<Expression>),
    Tuple(Vec<Expression>),
    Brackets(Vec<Expression>),
    Compound(Vec<(RichIdentifier, Expression)>, Box<Expression>),
}

/// The model of an [`Expression`]: the same tree over sequences.
pub enum ExpressionModel {
    Atom(AtomModel),
    Implicit(Builtin),
    UnaryApplication(Box<ExpressionModel>, Box<ExpressionModel>),
    BinaryApplication(Box<ExpressionModel>, Box<ExpressionModel>, Box<ExpressionModel>),
    Parens(Box<ExpressionModel>),
    Tuple(Seq<ExpressionModel>),
    Brackets(Seq<ExpressionModel>),
    Compound(Seq<(RichIdentifierModel, ExpressionModel)>, Box<ExpressionModel>),
}

impl Expression {
    /// The model of this expression.
    pub open spec fn model(self) -> ExpressionModel
        decreases self,
    {
        match self {
            Expression::Atom(atom) => ExpressionModel::Atom(atom@),
            Expression::Implicit(builtin) => ExpressionModel::Implicit(builtin),
            Expression::UnaryApplication(f, x) => ExpressionModel::UnaryApplication(
                Box::new(f.model()),
                Box::new(x.model()),
            ),
            Expression::BinaryApplication(f, x, y) => ExpressionModel::BinaryApplication(
                Box::new(f.model()),
                Box::new(x.model()),
                Box::new(y.model()),
            ),
            Expression::Parens(inner) => ExpressionModel::Parens(Box::new(inner.model())),
            Expression::Tuple(items) => ExpressionModel::Tuple(
                Seq::new(
                    items.len() as nat,
                    |i: int|
                        if 0 <= i < items.len() {
                            items[i].model()
                        } else {
                            arbitrary()
                        },
                ),
            ),
            Expression::Brackets(items) => ExpressionModel::Brackets(
                Seq::new(
                    items.len() as nat,
                    |i: int|
                        if 0 <= i < items.len() {
                            items[i].model()
                        } else {
                            arbitrary()
                        },
                ),
            ),
            Expression::Compound(bindings, result) => ExpressionModel::Compound(
                Seq::new(
                    bindings.len() as nat,
                    |i: int|
                        if 0 <= i < bindings.len() {
                            (bindings[i].0@, bindings[i].1.model())
                        } else {
                            arbitrary()
                        },
                ),
                Box::new(result.model()),
            ),
        }
    }

    /// A number.
    pub fn num(n: i64) -> (expr: Expression)
        ensures
            expr@ == ExpressionModel::Atom(AtomModel::Number(n)),
    {
        Expression::Atom(Atom::Number(n))
    }

    /// A reference to a binding.
    pub fn id(rich: RichIdentifier) -> (expr: Expression)
        ensures
            expr@ == ExpressionModel::Atom(AtomModel::Identifier(rich@)),
    {
        Expression::Atom(Atom::Identifier(rich))
    }

    /// `f` applied to `x`.
    pub fn unary(f: Expression, x: Expression) -> (expr: Expression)
        ensures
            expr@ == unary(f@, x@),
    {
        Expression::UnaryApplication(Box::new(f), Box::new(x))
    }

    /// `f` applied to `x` and `y`.
    pub fn binary(f: Expression, x: Expression, y: Expression) -> (expr: Expression)
        ensures
            expr@ == binary(f@, x@, y@),
    {
        Expression::BinaryApplication(Box::new(f), Box::new(x), Box::new(y))
    }

    /// A tuple of the given items.
    pub fn tuple(items: Vec<Expression>) -> (expr: Expression)
        ensures
            expr@ == ExpressionModel::Tuple(models(items@)),
    {
        let expr = Expression::Tuple(items);
        assert(expr@->Tuple_0 =~= models(items@));
        expr
    }

    /// An array literal of the given items.
    pub fn brackets(items: Vec<Expression>) -> (expr: Expression)
        ensures
            expr@ == ExpressionModel::Brackets(models(items@)),
    {
        let expr = Expression::Brackets(items);
        assert(expr@->Brackets_0 =~= models(items@));
        expr
    }

    /// A block with the given bindings and result.
    pub fn compound(bindings: Vec<(RichIdentifier, Expression)>, result: Expression) -> (expr:
        Expression)
        ensures
            expr@ == ExpressionModel::Compound(binding_models(bindings@), Box::new(result@)),
    {
        let expr = Expression::Compound(bindings, Box::new(result));
        assert(expr@->Compound_0 =~= binding_models(bindings@));
        expr
    }
}

impl View for Expression {
    type V = ExpressionModel;

    open spec fn view(&self) -> ExpressionModel {
        self.model()
    }
}

/// The models of a sequence of expressions, item by item.
pub open spec fn models(items: Seq<Expression>) -> Seq<ExpressionModel> {
    Seq::new(items.len(), |i: int| items[i]@)
}

/// The models of a sequence of bindings, item by item.
pub open spec fn binding_models(bindings: Seq<(RichIdentifier, Expression)>) -> Seq<
    (RichIdentifierModel, ExpressionModel),
> {
    Seq::new(bindings.len(), |i: int| (bindings[i].0@, bindings[i].1@))
}

/// The model of `f` applied to `x`.
pub open spec fn unary(f: ExpressionModel, x: ExpressionModel) -> ExpressionModel {
    ExpressionModel::UnaryApplication(Box::new(f), Box::new(x))
}

/// The model of `f` applied to `x` and `y`.
pub open spec fn binary(f: ExpressionModel, x: ExpressionModel, y: ExpressionModel) -> ExpressionModel {
    ExpressionModel::BinaryApplication(Box::new(f), Box::new(x), Box::new(y))
}

/// The model of a number.
pub open spec fn number(n: i64) -> ExpressionModel {
    ExpressionModel::Atom(AtomModel::Number(n))
}

/// The model of a reference to a binding.
pub open spec fn reference(rich: RichIdentifierModel) -> ExpressionModel {
    ExpressionModel::Atom(AtomModel::Identifier(rich))
}

/// The model of a tuple is the sequence of the models of its items.
pub proof fn lemma_tuple_model(items: Vec<Expression>)
    ensures
        Expression::Tuple(items)@ == ExpressionModel::Tuple(models(items@)),
{
    assert(Expression::Tuple(items)@->Tuple_0 =~= models(items@));
}

/// The model of an array literal is the sequence of the models of its items.
pub proof fn lemma_brackets_model(items: Vec<Expression>)
    ensures
        Expression::Brackets(items)@ == ExpressionModel::Brackets(models(items@)),
{
    assert(Expression::Brackets(items)@->Brackets_0 =~= models(items@));
}

/// Adding an item to a sequence adds its model to the models.
pub proof fn lemma_models_push(items: Seq<Expression>, item: Expression)
    ensures
        models(items.push(item)) == models(items).push(item@),
{
    assert(models(items.push(item)) =~= models(items).push(item@));
}

} // verus!
