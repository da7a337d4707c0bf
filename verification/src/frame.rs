//! Frames: one nested parsing context each (the top level, a parenthesized
//! group, or an array literal), and the model of a parse as a machine that
//! steps over a stack of frames.

use vstd::prelude::*;
use crate::error::{tagged_models, ParseError, ParseErrorModel};
use crate::expression::{
    lemma_tuple_model,
    models,
    number,
    reference,
    unary,
    Builtin,
    Expression,
    ExpressionModel,
    Identifier,
    RichIdentifierModel,
};
use crate::pos::{Arity, PartOfSpeech};
use crate::reducer::{
    anchored,
    lemma_anchored_reduces,
    lemma_stack_model_push,
    reduce,
    reduce_stack,
    slot_model,
    stack_model,
    Slot,
    SlotModel,
};
use crate::terms::{term_models, term_weight, terms_weight, Term, TermModel};

verus! {

/// What a frame does with its expression when it closes.
#[derive(Debug, PartialEq, Eq, Copy, Clone, Structural)]
pub enum Finisher {
    /// The top level: the expression as it is.
    Identity,
    /// A parenthesized group: the expression marked as one.
    WrapParens,
    /// An array literal: the items of a noun.
    WrapBrackets,
}

/// What an array literal holds: the items of a tuple, or the one noun that is no tuple.
pub open spec fn bracketed(expr: ExpressionModel) -> ExpressionModel {
    match expr {
        ExpressionModel::Tuple(items) => ExpressionModel::Brackets(items),
        _ => ExpressionModel::Brackets(seq![expr]),
    }
}

/// What a finisher makes of the expression of a closing frame.
pub open spec fn finished(finish: Finisher, expr: ExpressionModel, pos: PartOfSpeech) -> Result<
    ExpressionModel,
    ParseErrorModel,
> {
    match finish {
        Finisher::Identity => Ok(expr),
        Finisher::WrapParens => Ok(ExpressionModel::Parens(Box::new(expr))),
        Finisher::WrapBrackets => if pos == PartOfSpeech::Noun {
            Ok(bracketed(expr))
        } else {
            Err(ParseErrorModel::ArrayLiteralNotNoun)
        },
    }
}

/// The finisher of the top level.
pub fn identity(expr: Expression, pos: PartOfSpeech) -> (result: Result<Expression, ParseError>)
    ensures
        result is Ok,
        result->Ok_0 == expr,
{
    Ok(expr)
}

/// The finisher of a parenthesized group.
pub fn wrap_parens(expr: Expression, pos: PartOfSpeech) -> (result: Result<Expression, ParseError>)
    ensures
        result is Ok,
        result->Ok_0@ == ExpressionModel::Parens(Box::new(expr@)),
{
    Ok(Expression::Parens(Box::new(expr)))
}

/// The finisher of an array literal: fails unless the inside is a noun.
pub fn wrap_brackets(expr: Expression, pos: PartOfSpeech) -> (result: Result<
    Expression,
    ParseError,
>)
    ensures
        pos == PartOfSpeech::Noun ==> result is Ok && result->Ok_0@ == bracketed(expr@),
        pos != PartOfSpeech::Noun ==> result is Err && result->Err_0@
            == ParseErrorModel::ArrayLiteralNotNoun,
{
    match pos {
        PartOfSpeech::Noun => {
            let items = match expr {
                Expression::Tuple(items) => {
                    proof {
                        lemma_tuple_model(items);
                    }
                    items
                },
                other => {
                    let items = vec![other];
                    assert(models(items@) =~= seq![other@]);
                    items
                },
            };
            Ok(Expression::brackets(items))
        },
        _ => Err(ParseError::ArrayLiteralNotNoun),
    }
}

impl Finisher {
    /// Applies the finisher.
    pub fn apply(self, expr: Expression, pos: PartOfSpeech) -> (result: Result<
        Expression,
        ParseError,
    >)
        ensures
            result_model(result) == finished(self, expr@, pos),
    {
        match self {
            Finisher::Identity => identity(expr, pos),
            Finisher::WrapParens => wrap_parens(expr, pos),
            Finisher::WrapBrackets => wrap_brackets(expr, pos),
        }
    }
}

/// The model of the result of a finisher.
pub open spec fn result_model(result: Result<Expression, ParseError>) -> Result<
    ExpressionModel,
    ParseErrorModel,
> {
    match result {
        Ok(expr) => Ok(expr@),
        Err(error) => Err(error@),
    }
}

/// One nested parsing context.
#[derive(Debug)]
pub struct ParseFrame {
    /// The reducer's stack. It stands on four sentinels, which mark the right end of the frame.
    pub stack: Vec<Slot>,
    /// The terms still to be read, from the back.
    pub input: Vec<Term>,
    /// Whether the sentinel that marks the left end of the frame has been shifted.
    pub end_reached: bool,
    pub finish: Finisher,
}

/// The model of a [`ParseFrame`].
pub struct FrameModel {
    pub stack: Seq<SlotModel>,
    pub input: Seq<TermModel>,
    pub end_reached: bool,
    pub finish: Finisher,
}

impl View for ParseFrame {
    type V = FrameModel;

    open spec fn view(&self) -> FrameModel {
        FrameModel {
            stack: stack_model(self.stack@),
            input: term_models(self.input@),
            end_reached: self.end_reached,
            finish: self.finish,
        }
    }
}

/// The frame that nothing has been read into yet.
pub open spec fn fresh_frame(input: Seq<TermModel>, finish: Finisher) -> FrameModel {
    FrameModel { stack: seq![None, None, None, None], input, end_reached: false, finish }
}

impl ParseFrame {
    /// A frame that will read `input` and close with `finish`.
    pub fn new(input: Vec<Term>, finish: Finisher) -> (frame: ParseFrame)
        ensures
            frame@ == fresh_frame(term_models(input@), finish),
    {
        let frame = ParseFrame {
            input,
            end_reached: false,
            stack: vec![None, None, None, None],
            finish,
        };
        assert(frame@.stack =~= seq![None, None, None, None]);
        frame
    }

    /// Reduces the stack of a frame that stands on its sentinels.
    pub fn reduce(&mut self)
        requires
            anchored(old(self)@.stack),
        ensures
            final(self)@ == (FrameModel {
                stack: reduce(old(self)@.stack),
                input: old(self)@.input,
                end_reached: old(self)@.end_reached,
                finish: old(self)@.finish,
            }),
            final(self).input == old(self).input,
    {
        proof {
            lemma_anchored_reduces(self@.stack);
        }
        reduce_stack(&mut self.stack);
    }

    /// Puts a slot on top of the stack.
    pub fn shift(&mut self, slot: Slot)
        ensures
            final(self)@ == with_slot(old(self)@, slot_model(slot)),
            final(self).input == old(self).input,
            final(self).end_reached == old(self).end_reached,
    {
        proof {
            lemma_stack_model_push(self.stack@, slot);
        }
        self.stack.push(slot);
    }

    /// Takes the last term of the input, if there is one.
    pub fn next_term(&mut self) -> (term: Option<Term>)
        ensures
            final(self).stack == old(self).stack,
            final(self).end_reached == old(self).end_reached,
            final(self).finish == old(self).finish,
            old(self)@.input.len() == 0 ==> term is None && final(self)@ == old(self)@,
            old(self)@.input.len() > 0 ==> term is Some && term->Some_0@ == old(self)@.input.last()
                && final(self)@.input == old(self)@.input.drop_last(),
    {
        proof {
            if self.input@.len() > 0 {
                lemma_term_models_drop_last(self.input@);
            }
        }
        self.input.pop()
    }
}

/// The models of a sequence of frames, item by item.
pub open spec fn frame_models(frames: Seq<ParseFrame>) -> Seq<FrameModel> {
    Seq::new(frames.len(), |i: int| frames[i]@)
}

/// The models of the frames with one more frame.
pub proof fn lemma_frame_models_push(frames: Seq<ParseFrame>, frame: ParseFrame)
    ensures
        frame_models(frames.push(frame)) == frame_models(frames).push(frame@),
{
    assert(frame_models(frames.push(frame)) =~= frame_models(frames).push(frame@));
}

/// The models of the frames without the last.
pub proof fn lemma_frame_models_drop_last(frames: Seq<ParseFrame>)
    requires
        frames.len() > 0,
    ensures
        frame_models(frames.drop_last()) == frame_models(frames).drop_last(),
{
    assert(frame_models(frames.drop_last()) =~= frame_models(frames).drop_last());
}

/// The models of the terms without the last.
pub proof fn lemma_term_models_drop_last(terms: Seq<Term>)
    requires
        terms.len() > 0,
    ensures
        term_models(terms.drop_last()) == term_models(terms).drop_last(),
{
    assert(term_models(terms.drop_last()) =~= term_models(terms).drop_last());
}

/// What a parse hands back when it stops without an error.
#[derive(Debug)]
pub enum ParseResult {
    /// The expression and its part of speech.
    Complete(Expression, PartOfSpeech),
    /// The parse waits for the part of speech of this name.
    PendingName(String),
    /// The parse waits for this binding of an enclosing block.
    PendingId(Identifier),
}

/// The model of a [`ParseResult`].
pub enum ParseResultModel {
    Complete(ExpressionModel, PartOfSpeech),
    PendingName(Seq<char>),
    PendingId(Identifier),
}

impl View for ParseResult {
    type V = ParseResultModel;

    open spec fn view(&self) -> ParseResultModel {
        match self {
            ParseResult::Complete(expr, pos) => ParseResultModel::Complete(expr@, *pos),
            ParseResult::PendingName(name) => ParseResultModel::PendingName(name@),
            ParseResult::PendingId(id) => ParseResultModel::PendingId(*id),
        }
    }
}

/// How a parse ends: with a result or with an error.
pub type Outcome = Result<ParseResultModel, ParseErrorModel>;

/// The model of what a parse returns.
pub open spec fn outcome_model(result: Result<ParseResult, ParseError>) -> Outcome {
    match result {
        Ok(done) => Ok(done@),
        Err(error) => Err(error@),
    }
}

/// The entries of a stack without its sentinels, lowest first.
pub open spec fn residue(stack: Seq<SlotModel>) -> Seq<(ExpressionModel, PartOfSpeech)>
    decreases stack.len(),
{
    if stack.len() == 0 {
        Seq::empty()
    } else {
        match stack.last() {
            Some(entry) => residue(stack.drop_last()).push(entry),
            None => residue(stack.drop_last()),
        }
    }
}

/// The entries of a stack without its sentinels, lowest first.
pub fn without_sentinels(stack: Vec<Slot>) -> (entries: Vec<(Expression, PartOfSpeech)>)
    ensures
        tagged_models(entries@) == residue(stack_model(stack@)),
{
    let mut entries: Vec<(Expression, PartOfSpeech)> = Vec::new();
    let ghost all = stack@;
    for slot in it: stack
        invariant
            it.seq() == all,
            tagged_models(entries@) == residue(stack_model(all.take(it.index() as int))),
    {
        proof {
            let i = it.index() as int;
            assert(all.take(i + 1).drop_last() =~= all.take(i));
            assert(stack_model(all.take(i + 1)).drop_last() =~= stack_model(all.take(i)));
        }
        match slot {
            Some(entry) => {
                proof {
                    assert(tagged_models(entries@.push(entry)) =~= tagged_models(entries@).push(
                        (entry.0@, entry.1),
                    ));
                }
                entries.push(entry);
            },
            None => {},
        }
    }
    proof {
        assert(all.take(all.len() as int) =~= all);
    }
    entries
}

/// What is left of a stack when its frame closes: the one entry, the empty
/// tuple where there is none, or an error that holds the entries.
pub open spec fn settled(stack: Seq<SlotModel>) -> Result<
    (ExpressionModel, PartOfSpeech),
    ParseErrorModel,
> {
    let entries = residue(stack);
    if entries.len() == 0 {
        Ok((ExpressionModel::Tuple(Seq::empty()), PartOfSpeech::Noun))
    } else if entries.len() == 1 {
        Ok(entries[0])
    } else {
        Err(ParseErrorModel::DidNotFullyReduce(entries))
    }
}

/// Settles the stack of a closing frame.
pub fn settle(stack: Vec<Slot>) -> (result: Result<(Expression, PartOfSpeech), ParseError>)
    ensures
        match result {
            Ok((expr, pos)) => settled(stack_model(stack@)) == Ok::<
                (ExpressionModel, PartOfSpeech),
                ParseErrorModel,
            >((expr@, pos)),
            Err(error) => settled(stack_model(stack@)) == Err::<
                (ExpressionModel, PartOfSpeech),
                ParseErrorModel,
            >(error@),
        },
{
    let mut entries = without_sentinels(stack);
    if entries.len() == 0 {
        let items: Vec<Expression> = Vec::new();
        assert(models(items@) =~= Seq::empty());
        Ok((Expression::tuple(items), PartOfSpeech::Noun))
    } else if entries.len() == 1 {
        let ghost before = entries@;
        let entry = entries.pop().unwrap();
        assert(tagged_models(before)[0] == (entry.0@, entry.1));
        Ok(entry)
    } else {
        Err(ParseError::DidNotFullyReduce(entries))
    }
}

/// What a frame with the reduced stack `stack` closes with.
pub open spec fn closed(stack: Seq<SlotModel>, finish: Finisher) -> Result<
    (ExpressionModel, PartOfSpeech),
    ParseErrorModel,
> {
    match settled(stack) {
        Err(error) => Err(error),
        Ok((expr, pos)) => match finished(finish, expr, pos) {
            Err(error) => Err(error),
            Ok(expr) => Ok((expr, pos)),
        },
    }
}

/// The frame with one more slot on its stack.
pub open spec fn with_slot(frame: FrameModel, slot: SlotModel) -> FrameModel {
    FrameModel {
        stack: frame.stack.push(slot),
        input: frame.input,
        end_reached: frame.end_reached,
        finish: frame.finish,
    }
}

/// The slot that a coefficient is shifted as: a unary verb that scales by the number.
pub open spec fn coefficient(n: i64) -> SlotModel {
    Some(
        (
            unary(ExpressionModel::Implicit(Builtin::Scale), number(n)),
            PartOfSpeech::Verb(Arity::Unary),
        ),
    )
}

/// What one step of a parse does.
pub enum Step {
    /// The parse goes on with these frames.
    Continue(Seq<FrameModel>),
    /// The parse stops with this outcome and leaves these frames.
    Stop(Outcome, Seq<FrameModel>),
}

/// One step of a parse on a stack of frames, the active frame last.
///
/// The stack of the active frame is reduced. Then the last term of its input
/// is taken. A number or a coefficient is shifted. A group opens a frame of
/// its own. A name stops the parse, which waits for its part of speech. With
/// no term left, the frame first shifts its closing sentinel; the next time
/// round it closes, and hands what its stack has settled to, finished, to the
/// frame under it, or stops with it if it is the last.
pub open spec fn step(frames: Seq<FrameModel>) -> Step {
    let rest = frames.drop_last();
    let active = frames.last();
    let stack = reduce(active.stack);
    if active.input.len() == 0 {
        if active.end_reached {
            match closed(stack, active.finish) {
                Err(error) => Step::Stop(Err(error), rest),
                Ok((expr, pos)) => if rest.len() == 0 {
                    Step::Stop(Ok(ParseResultModel::Complete(expr, pos)), rest)
                } else {
                    Step::Continue(
                        rest.drop_last().push(with_slot(rest.last(), Some((expr, pos)))),
                    )
                },
            }
        } else {
            Step::Continue(
                rest.push(
                    FrameModel {
                        stack: stack.push(None),
                        input: active.input,
                        end_reached: true,
                        finish: active.finish,
                    },
                ),
            )
        }
    } else {
        let waiting = FrameModel {
            stack,
            input: active.input.drop_last(),
            end_reached: active.end_reached,
            finish: active.finish,
        };
        match active.input.last() {
            TermModel::NumericLiteral(n) => Step::Continue(
                rest.push(with_slot(waiting, Some((number(n), PartOfSpeech::Noun)))),
            ),
            TermModel::Coefficient(n) => Step::Continue(
                rest.push(with_slot(waiting, coefficient(n))),
            ),
            TermModel::Identifier(name) => Step::Stop(
                Ok(ParseResultModel::PendingName(name)),
                rest.push(waiting),
            ),
            TermModel::Parens(children) => Step::Continue(
                rest.push(waiting).push(fresh_frame(children, Finisher::WrapParens)),
            ),
            TermModel::Brackets(children) => Step::Continue(
                rest.push(waiting).push(fresh_frame(children, Finisher::WrapBrackets)),
            ),
        }
    }
}

/// The work that a frame still stands for.
pub open spec fn frame_weight(frame: FrameModel) -> nat {
    terms_weight(frame.input) + if frame.end_reached {
        1nat
    } else {
        2nat
    }
}

/// The work that a stack of frames still stands for. Every step takes some away.
pub open spec fn frames_weight(frames: Seq<FrameModel>) -> nat
    decreases frames.len(),
{
    if frames.len() == 0 {
        0
    } else {
        frames_weight(frames.drop_last()) + frame_weight(frames.last())
    }
}

/// The weight of the frames with one more frame.
pub proof fn lemma_frames_weight_push(frames: Seq<FrameModel>, frame: FrameModel)
    ensures
        frames_weight(frames.push(frame)) == frames_weight(frames) + frame_weight(frame),
{
    assert(frames.push(frame).drop_last() =~= frames);
}

/// A step that goes on leaves less work than it found, and so does a stop for a name.
pub proof fn lemma_step_decreases(frames: Seq<FrameModel>)
    requires
        frames.len() > 0,
    ensures
        match step(frames) {
            Step::Continue(next) => next.len() > 0 && frames_weight(next) < frames_weight(frames),
            Step::Stop(outcome, left) => frames_weight(left) <= frames_weight(frames) && (
            outcome matches Ok(ParseResultModel::PendingName(_)) ==> frames_weight(left)
                < frames_weight(frames)),
        },
{
    let rest = frames.drop_last();
    let active = frames.last();
    let stack = reduce(active.stack);
    assert(frames =~= rest.push(active));
    lemma_frames_weight_push(rest, active);
    if active.input.len() == 0 {
        if active.end_reached {
            if rest.len() > 0 {
                let under = rest.last();
                assert(rest =~= rest.drop_last().push(under));
                lemma_frames_weight_push(rest.drop_last(), under);
                match closed(stack, active.finish) {
                    Ok((expr, pos)) => {
                        lemma_frames_weight_push(
                            rest.drop_last(),
                            with_slot(under, Some((expr, pos))),
                        );
                    },
                    Err(_) => {},
                }
            }
        } else {
            lemma_frames_weight_push(
                rest,
                FrameModel {
                    stack: stack.push(None),
                    input: active.input,
                    end_reached: true,
                    finish: active.finish,
                },
            );
        }
    } else {
        let waiting = FrameModel {
            stack,
            input: active.input.drop_last(),
            end_reached: active.end_reached,
            finish: active.finish,
        };
        lemma_frames_weight_push(rest, waiting);
        assert(terms_weight(active.input) == terms_weight(active.input.drop_last()) + term_weight(
            active.input.last(),
        ));
        assert(term_weight(active.input.last()) >= 1);
        match active.input.last() {
            TermModel::NumericLiteral(n) => {
                lemma_frames_weight_push(
                    rest,
                    with_slot(waiting, Some((number(n), PartOfSpeech::Noun))),
                );
            },
            TermModel::Coefficient(n) => {
                lemma_frames_weight_push(rest, with_slot(waiting, coefficient(n)));
            },
            TermModel::Identifier(name) => {},
            TermModel::Parens(children) => {
                assert(term_weight(active.input.last()) == 3 + terms_weight(children));
                lemma_frames_weight_push(
                    rest.push(waiting),
                    fresh_frame(children, Finisher::WrapParens),
                );
            },
            TermModel::Brackets(children) => {
                assert(term_weight(active.input.last()) == 3 + terms_weight(children));
                lemma_frames_weight_push(
                    rest.push(waiting),
                    fresh_frame(children, Finisher::WrapBrackets),
                );
            },
        }
    }
}

/// A parse from a stack of frames to its next stop: the outcome, and the frames that it leaves.
pub open spec fn run(frames: Seq<FrameModel>) -> (Outcome, Seq<FrameModel>)
    decreases frames_weight(frames),
    when frames.len() > 0
    via run_decreases
{
    match step(frames) {
        Step::Continue(next) => run(next),
        Step::Stop(outcome, left) => (outcome, left),
    }
}

#[via_fn]
proof fn run_decreases(frames: Seq<FrameModel>) {
    lemma_step_decreases(frames);
}

/// Whether a parse can go on from these frames: there is an active frame, and
/// every stack stands on its four sentinels.
pub open spec fn ready(frames: Seq<FrameModel>) -> bool {
    &&& frames.len() > 0
    &&& forall|i: int| 0 <= i < frames.len() ==> anchored(#[trigger] frames[i].stack)
}

/// A step keeps the frames ready, unless it stops with a result or an error.
pub proof fn lemma_step_ready(frames: Seq<FrameModel>)
    requires
        ready(frames),
    ensures
        match step(frames) {
            Step::Continue(next) => ready(next),
            Step::Stop(outcome, left) => outcome matches Ok(ParseResultModel::PendingName(_))
                ==> ready(left),
        },
{
    lemma_anchored_reduces(frames.last().stack);
}

/// The frames after the part of speech of the awaited name has been handed
/// in: the name, as a reference to its binding, stands on the active stack.
pub open spec fn provided(frames: Seq<FrameModel>, rich: RichIdentifierModel, pos: PartOfSpeech) -> Seq<
    FrameModel,
> {
    frames.drop_last().push(with_slot(frames.last(), Some((reference(rich), pos))))
}

/// Handing in a part of speech keeps the frames ready and takes no work away.
pub proof fn lemma_provided(frames: Seq<FrameModel>, rich: RichIdentifierModel, pos: PartOfSpeech)
    requires
        ready(frames),
    ensures
        ready(provided(frames, rich, pos)),
        frames_weight(provided(frames, rich, pos)) == frames_weight(frames),
{
    let rest = frames.drop_last();
    let active = frames.last();
    let next = provided(frames, rich, pos);
    assert(frames =~= rest.push(active));
    lemma_frames_weight_push(rest, active);
    lemma_frames_weight_push(rest, with_slot(active, Some((reference(rich), pos))));
    assert forall|i: int| 0 <= i < next.len() implies anchored(#[trigger] next[i].stack) by {
        if i < frames.len() - 1 {
            assert(next[i] == frames[i]);
        } else {
            assert(anchored(frames[i].stack));
        }
    }
}

/// A parse leaves no more work than it found. Where it stops for a name, it
/// has done some work and can go on.
pub proof fn lemma_run_progress(frames: Seq<FrameModel>)
    requires
        ready(frames),
    ensures
        frames_weight(run(frames).1) <= frames_weight(frames),
        run(frames).0 matches Ok(ParseResultModel::PendingName(_)) ==> ready(run(frames).1)
            && frames_weight(run(frames).1) < frames_weight(frames),
        !(run(frames).0 matches Ok(ParseResultModel::PendingId(_))),
    decreases frames_weight(frames),
{
    lemma_step_decreases(frames);
    lemma_step_ready(frames);
    match step(frames) {
        Step::Continue(next) => {
            lemma_run_progress(next);
        },
        Step::Stop(_, _) => {},
    }
}

} // verus!
