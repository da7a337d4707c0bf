//! What can go wrong while parsing.

use vstd::prelude::*;
use crate::expression::{Expression, ExpressionModel, Identifier};
use crate::pos::PartOfSpeech;

verus! {

/// The ways in which an assignment or a block fails to parse.
#[derive(Debug)]
pub enum ParseError {
    /// A frame closed with more than one entry left. Holds what was left,
    /// top of the stack last.
    DidNotFullyReduce(Vec<(Expression, PartOfSpeech)>),
    /// The inside of an array literal is not a noun.
    ArrayLiteralNotNoun,
    /// The assignment depends on one that failed.
    BadReference(Identifier),
    /// A block holds an assignment that failed.
    SubAssignmentFailed,
    /// What still blocks a block are its own assignments.
    CyclicAssignments,
    /// A block binds nothing to `_`.
    BlockWithoutResult,
}

/// The model of a [`ParseError`].
pub enum ParseErrorModel {
    DidNotFullyReduce(Seq<(ExpressionModel, PartOfSpeech)>),
    ArrayLiteralNotNoun,
    BadReference(Identifier),
    SubAssignmentFailed,
    CyclicAssignments,
    BlockWithoutResult,
}

/// The models of a sequence of tagged expressions, item by item.
pub open spec fn tagged_models(entries: Seq<(Expression, PartOfSpeech)>) -> Seq<
    (ExpressionModel, PartOfSpeech),
> {
    Seq::new(entries.len(), |i: int| (entries[i].0@, entries[i].1))
}

impl View for ParseError {
    type V = ParseErrorModel;

    open spec fn view(&self) -> ParseErrorModel {
        match self {
            ParseError::DidNotFullyReduce(residual) => ParseErrorModel::DidNotFullyReduce(
                tagged_models(residual@),
            ),
            ParseError::ArrayLiteralNotNoun => ParseErrorModel::ArrayLiteralNotNoun,
            ParseError::BadReference(id) => ParseErrorModel::BadReference(*id),
            ParseError::SubAssignmentFailed => ParseErrorModel::SubAssignmentFailed,
            ParseError::CyclicAssignments => ParseErrorModel::CyclicAssignments,
            ParseError::BlockWithoutResult => ParseErrorModel::BlockWithoutResult,
        }
    }
}

} // verus!
