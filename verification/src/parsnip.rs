//! Parses that can stop and go on: the parse of one expression stops at a
//! name whose part of speech it does not know, hands the name out, and goes
//! on once it has been told.

use vstd::prelude::*;
use crate::error::{ParseError, ParseErrorModel};
use crate::expression::{Builtin, Expression, RichIdentifier};
use crate::frame::{
    frame_models,
    frames_weight,
    fresh_frame,
    lemma_frame_models_drop_last,
    lemma_frame_models_push,
    lemma_frames_weight_push,
    lemma_step_decreases,
    lemma_step_ready,
    outcome_model,
    provided,
    ready,
    run,
    settle,
    step,
    Finisher,
    FrameModel,
    Outcome,
    ParseFrame,
    ParseResult,
    ParseResultModel,
    Step,
};
use crate::pos::{Arity, PartOfSpeech};
use crate::reducer::anchored;
use crate::terms::{lemma_brackets_model, lemma_parens_model, term_models, Term, TermModel};

verus! {

/// A parse that can be suspended and resumed.
pub trait Parsnip {
    /// Whether the parse can take a part of speech, or go on.
    spec fn prepared(&self) -> bool;

    /// Hands in the part of speech that the parse waits for.
    fn provide(&mut self, id: RichIdentifier, pos: PartOfSpeech)
        requires
            old(self).prepared(),
    ;

    /// Runs the parse to its next stop.
    fn parse(&mut self) -> (result: Result<ParseResult, ParseError>)
        requires
            old(self).prepared(),
    ;
}

/// The parse of one expression: a stack of frames, the active frame last.
#[derive(Debug)]
pub struct ExpressionParsnip(pub Vec<ParseFrame>);

impl View for ExpressionParsnip {
    type V = Seq<FrameModel>;

    open spec fn view(&self) -> Seq<FrameModel> {
        frame_models(self.0@)
    }
}

/// The frames of a parse that has read nothing of `terms` yet.
pub open spec fn fresh(terms: Seq<TermModel>) -> Seq<FrameModel> {
    seq![fresh_frame(terms, Finisher::Identity)]
}

impl ExpressionParsnip {
    /// A parse of `terms` that has read nothing yet.
    pub fn new(terms: Vec<Term>) -> (parsnip: ExpressionParsnip)
        ensures
            parsnip@ == fresh(term_models(terms@)),
            ready(parsnip@),
    {
        let parsnip = ExpressionParsnip(vec![ParseFrame::new(terms, Finisher::Identity)]);
        assert(parsnip@ =~= fresh(term_models(terms@)));
        parsnip
    }

    /// Takes the active frame.
    fn pop_frame(&mut self) -> (frame: Option<ParseFrame>)
        ensures
            old(self)@.len() == 0 ==> frame is None && final(self)@ == old(self)@,
            old(self)@.len() > 0 ==> frame is Some && frame->Some_0@ == old(self)@.last()
                && final(self)@ == old(self)@.drop_last(),
    {
        proof {
            if self.0@.len() > 0 {
                lemma_frame_models_drop_last(self.0@);
            }
        }
        self.0.pop()
    }

    /// Makes `frame` the active frame.
    fn push_frame(&mut self, frame: ParseFrame)
        ensures
            final(self)@ == old(self)@.push(frame@),
    {
        proof {
            lemma_frame_models_push(self.0@, frame);
        }
        self.0.push(frame);
    }
}

impl Parsnip for ExpressionParsnip {
    open spec fn prepared(&self) -> bool {
        ready(self@)
    }

    /// Puts the awaited name, as a reference to its binding, on the active stack.
    fn provide(&mut self, id: RichIdentifier, pos: PartOfSpeech)
        ensures
            final(self)@ == provided(old(self)@, id@, pos),
            ready(final(self)@),
            frames_weight(final(self)@) == frames_weight(old(self)@),
    {
        let ghost frames = self@;
        let mut active = self.pop_frame().unwrap();
        active.shift(Some((Expression::id(id), pos)));
        self.push_frame(active);
        proof {
            assert(frames =~= frames.drop_last().push(frames.last()));
            lemma_frames_weight_push(frames.drop_last(), frames.last());
            lemma_frames_weight_push(frames.drop_last(), active@);
            assert forall|i: int| 0 <= i < self@.len() implies anchored(
                #[trigger] self@[i].stack,
            ) by {
                if i < frames.len() - 1 {
                    assert(self@[i] == frames[i]);
                } else {
                    assert(anchored(frames[i].stack));
                }
            }
        }
    }

    /// Runs the parse until it is complete, fails, or needs the part of speech of a name.
    fn parse(&mut self) -> (result: Result<ParseResult, ParseError>)
        ensures
            outcome_model(result) == run(old(self)@).0,
            final(self)@ == run(old(self)@).1,
            !(result matches Ok(ParseResult::PendingId(_))),
            result matches Ok(ParseResult::PendingName(_)) ==> ready(final(self)@)
                && frames_weight(final(self)@) < frames_weight(old(self)@),
    {
        loop
            invariant
                ready(self@),
                run(self@) == run(old(self)@),
                frames_weight(self@) <= frames_weight(old(self)@),
            decreases frames_weight(self@),
        {
            let ghost frames = self@;
            proof {
                lemma_step_decreases(frames);
                lemma_step_ready(frames);
            }
            let mut frame = self.pop_frame().unwrap();
            frame.reduce();
            match frame.next_term() {
                None => {
                    if frame.end_reached {
                        let finish = frame.finish;
                        let (expr, pos) = match settle(frame.stack) {
                            Ok(entry) => entry,
                            Err(error) => {
                                return Err(error);
                            },
                        };
                        let expr = match finish.apply(expr, pos) {
                            Ok(expr) => expr,
                            Err(error) => {
                                return Err(error);
                            },
                        };
                        match self.pop_frame() {
                            None => {
                                return Ok(ParseResult::Complete(expr, pos));
                            },
                            Some(mut under) => {
                                under.shift(Some((expr, pos)));
                                self.push_frame(under);
                            },
                        }
                    } else {
                        frame.end_reached = true;
                        frame.shift(None);
                        self.push_frame(frame);
                    }
                },
                Some(term) => match term {
                    Term::NumericLiteral(n) => {
                        frame.shift(Some((Expression::num(n), PartOfSpeech::Noun)));
                        self.push_frame(frame);
                    },
                    Term::Coefficient(n) => {
                        frame.shift(
                            Some(
                                (
                                    Expression::unary(
                                        Expression::Implicit(Builtin::Scale),
                                        Expression::num(n),
                                    ),
                                    PartOfSpeech::Verb(Arity::Unary),
                                ),
                            ),
                        );
                        self.push_frame(frame);
                    },
                    Term::Identifier(name) => {
                        self.push_frame(frame);
                        return Ok(ParseResult::PendingName(name));
                    },
                    Term::Parens(children) => {
                        proof {
                            lemma_parens_model(children);
                        }
                        self.push_frame(frame);
                        self.push_frame(ParseFrame::new(children, Finisher::WrapParens));
                    },
                    Term::Brackets(children) => {
                        proof {
                            lemma_brackets_model(children);
                        }
                        self.push_frame(frame);
                        self.push_frame(ParseFrame::new(children, Finisher::WrapBrackets));
                    },
                },
            }
            assert(step(frames) == Step::Continue(self@));
        }
    }
}

/// How the parse of `terms` ends when it is run from the start to its first stop.
pub open spec fn parse_outcome(terms: Seq<TermModel>) -> Outcome {
    run(fresh(terms)).0
}

/// Whether no name occurs in the term.
pub open spec fn term_without_names(term: TermModel) -> bool
    decreases term, 1nat,
{
    match term {
        TermModel::Identifier(_) => false,
        TermModel::Parens(children) => without_names(children),
        TermModel::Brackets(children) => without_names(children),
        _ => true,
    }
}

/// Whether no name occurs in the terms.
pub open spec fn without_names(terms: Seq<TermModel>) -> bool
    decreases terms, 0nat,
{
    terms.len() == 0 || (without_names(terms.drop_last()) && term_without_names(terms.last()))
}

/// Whether no name occurs in what the frames have still to read.
pub open spec fn frames_without_names(frames: Seq<FrameModel>) -> bool {
    forall|i: int| 0 <= i < frames.len() ==> without_names((#[trigger] frames[i]).input)
}

/// A parse that has no name to read never stops for one.
pub proof fn lemma_run_without_names(frames: Seq<FrameModel>)
    requires
        frames.len() > 0,
        frames_without_names(frames),
    ensures
        !(run(frames).0 matches Ok(ParseResultModel::PendingName(_))),
    decreases frames_weight(frames),
{
    lemma_step_decreases(frames);
    let active = frames.last();
    let input = active.input;
    assert(without_names(frames[frames.len() - 1].input));
    if input.len() > 0 {
        assert(without_names(input.drop_last()) && term_without_names(input.last()));
        match input.last() {
            TermModel::Parens(children) => {
                assert(without_names(children));
            },
            TermModel::Brackets(children) => {
                assert(without_names(children));
            },
            _ => {},
        }
    }
    match step(frames) {
        Step::Continue(next) => {
            assert forall|i: int| 0 <= i < next.len() implies without_names(
                (#[trigger] next[i]).input,
            ) by {
                if i < frames.len() - 1 {
                    assert(without_names(frames[i].input));
                }
            }
            lemma_run_without_names(next);
        },
        Step::Stop(_, _) => {},
    }
}

/// Terms in which no name occurs can be parsed in one go.
pub proof fn lemma_parse_without_names(terms: Seq<TermModel>)
    requires
        without_names(terms),
    ensures
        !(parse_outcome(terms) matches Ok(ParseResultModel::PendingName(_))),
{
    assert(fresh(terms)[0].input == terms);
    lemma_run_without_names(fresh(terms));
}

/// Parses terms that hold no name the parse would stop at.
pub fn just_parse(terms: Vec<Term>) -> (result: Result<(Expression, PartOfSpeech), ParseError>)
    requires
        !(parse_outcome(term_models(terms@)) matches Ok(ParseResultModel::PendingName(_))),
    ensures
        match result {
            Ok((expr, pos)) => parse_outcome(term_models(terms@)) == Ok::<
                ParseResultModel,
                ParseErrorModel,
            >(ParseResultModel::Complete(expr@, pos)),
            Err(error) => parse_outcome(term_models(terms@)) == Err::<
                ParseResultModel,
                ParseErrorModel,
            >(error@),
        },
{
    let mut parsnip = ExpressionParsnip::new(terms);
    match parsnip.parse() {
        Ok(ParseResult::Complete(expr, pos)) => Ok((expr, pos)),
        Ok(_) => unreached(),
        Err(error) => Err(error),
    }
}

} // verus!
