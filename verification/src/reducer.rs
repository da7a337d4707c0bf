//! The reducer: shift-reduce rewriting of a stack whose entries are tagged
//! with their part of speech.
//!
//! A stack is a vector of slots, the top being its last entry. A slot is
//! either a tagged expression or a sentinel that marks an end of the frame.
//! Terms are shifted from the back of the input, so the top of the stack is
//! the leftmost part of the source text that has been read. The patterns
//! below are written in reading order: the first slot named is the top.
//!
//! | rule           | pattern         | result                                    | tag       |
//! |----------------|-----------------|-------------------------------------------|-----------|
//! | `Modify`       | `a1 v`          | `adverb(verb)`                            | verb, the adverb's output arity |
//! | `Apply`        | `svn v1 n`      | `verb(noun)`                              | noun      |
//! | `Conjoin`      | `_ vn a2 vn`    | `adverb(upper, lower)`                    | verb, the adverb's output arity |
//! | `ApplyBinary`  | `sv n v2 n`     | `verb(upper, lower)`                      | noun      |
//! | `Gather`       | `svn n n`       | the lower noun as a tuple, plus the upper | noun      |
//! | `Compose`      | `sv v1 v1`      | `Compose(upper, lower)`                   | unary verb |
//! | `BindRight`    | `sv v2 n`       | `PartialApplicationRight(verb, noun)`     | unary verb |
//! | `BindLeft`     | `sv n v2`       | `PartialApplicationLeft(noun, verb)`      | unary verb |
//! | `ComposeRight` | `sv v2 v1`      | `ComposeRight(upper, lower)`              | binary verb |
//! | `ComposeLeft`  | `sv v1 v2`      | `ComposeLeft(upper, lower)`               | binary verb |
//!
//! `n` is a noun, `v` a verb (`v1` unary, `v2` binary), `a1` and `a2` an adverb
//! by its input arity, `s` a sentinel, a run of letters any of them, `_`
//! anything. The first rule that matches fires. Every rule but `Modify`
//! leaves its first slot in place and rewrites the slots under it: the first
//! slot only shows what stands to the left.

use vstd::prelude::*;
use crate::expression::{
    binary,
    lemma_models_push,
    lemma_tuple_model,
    models,
    unary,
    Builtin,
    Expression,
    ExpressionModel,
};
use crate::pos::{Arity, PartOfSpeech};

verus! {

/// One entry of a stack: a tagged expression, or `None` for a sentinel.
pub type Slot = Option<(Expression, PartOfSpeech)>;

/// The model of a [`Slot`].
pub type SlotModel = Option<(ExpressionModel, PartOfSpeech)>;

/// The model of a slot.
pub open spec fn slot_model(slot: Slot) -> SlotModel {
    match slot {
        Some((expr, pos)) => Some((expr@, pos)),
        None => None,
    }
}

/// The model of a stack, slot by slot.
pub open spec fn stack_model(stack: Seq<Slot>) -> Seq<SlotModel> {
    Seq::new(stack.len(), |i: int| slot_model(stack[i]))
}

/// The tag of a slot: its part of speech, or `None` for a sentinel.
pub open spec fn tag(slot: SlotModel) -> Option<PartOfSpeech> {
    match slot {
        Some((_, pos)) => Some(pos),
        None => None,
    }
}

/// The slot `depth` places under the top.
pub open spec fn top(stack: Seq<SlotModel>, depth: int) -> SlotModel {
    stack[stack.len() - 1 - depth]
}

/// The expression in a slot that holds one.
pub open spec fn expr_of(slot: SlotModel) -> ExpressionModel {
    slot->Some_0.0
}

/// The output arity of a slot that holds an adverb.
pub open spec fn output_arity(slot: SlotModel) -> Arity {
    match slot {
        Some((_, PartOfSpeech::Adverb(_, output))) => output,
        _ => Arity::Unary,
    }
}

pub open spec fn is_sentinel(t: Option<PartOfSpeech>) -> bool {
    t is None
}

pub open spec fn is_noun(t: Option<PartOfSpeech>) -> bool {
    t == Some(PartOfSpeech::Noun)
}

pub open spec fn is_verb(t: Option<PartOfSpeech>) -> bool {
    t matches Some(PartOfSpeech::Verb(_))
}

pub open spec fn is_unary_verb(t: Option<PartOfSpeech>) -> bool {
    t == Some(PartOfSpeech::Verb(Arity::Unary))
}

pub open spec fn is_binary_verb(t: Option<PartOfSpeech>) -> bool {
    t == Some(PartOfSpeech::Verb(Arity::Binary))
}

/// An adverb that takes a unary verb.
pub open spec fn is_unary_adverb(t: Option<PartOfSpeech>) -> bool {
    t matches Some(PartOfSpeech::Adverb(Arity::Unary, _))
}

/// An adverb that takes a binary verb.
pub open spec fn is_binary_adverb(t: Option<PartOfSpeech>) -> bool {
    t matches Some(PartOfSpeech::Adverb(Arity::Binary, _))
}

/// The rewrite rules, in the order of their priority.
#[derive(Debug, PartialEq, Eq, Copy, Clone, Structural)]
pub enum Rule {
    Modify,
    Apply,
    Conjoin,
    ApplyBinary,
    Gather,
    Compose,
    BindRight,
    BindLeft,
    ComposeRight,
    ComposeLeft,
}

/// The rule that fires on a stack whose four topmost slots have the tags
/// `t0` (the top) to `t3`: the first rule of the table whose pattern they match.
pub open spec fn select_rule(
    t0: Option<PartOfSpeech>,
    t1: Option<PartOfSpeech>,
    t2: Option<PartOfSpeech>,
    t3: Option<PartOfSpeech>,
) -> Option<Rule> {
    let sv = is_sentinel(t0) || is_verb(t0);
    let svn = sv || is_noun(t0);
    if is_unary_adverb(t0) && is_verb(t1) {
        Some(Rule::Modify)
    } else if svn && is_unary_verb(t1) && is_noun(t2) {
        Some(Rule::Apply)
    } else if (is_verb(t1) || is_noun(t1)) && is_binary_adverb(t2) && (is_verb(t3) || is_noun(t3)) {
        Some(Rule::Conjoin)
    } else if sv && is_noun(t1) && is_binary_verb(t2) && is_noun(t3) {
        Some(Rule::ApplyBinary)
    } else if svn && is_noun(t1) && is_noun(t2) {
        Some(Rule::Gather)
    } else if sv && is_unary_verb(t1) && is_unary_verb(t2) {
        Some(Rule::Compose)
    } else if sv && is_binary_verb(t1) && is_noun(t2) {
        Some(Rule::BindRight)
    } else if sv && is_noun(t1) && is_binary_verb(t2) {
        Some(Rule::BindLeft)
    } else if sv && is_binary_verb(t1) && is_unary_verb(t2) {
        Some(Rule::ComposeRight)
    } else if sv && is_unary_verb(t1) && is_binary_verb(t2) {
        Some(Rule::ComposeLeft)
    } else {
        None
    }
}

/// The rule that fires on a stack of at least four slots.
pub open spec fn matching_rule(stack: Seq<SlotModel>) -> Option<Rule> {
    select_rule(tag(top(stack, 0)), tag(top(stack, 1)), tag(top(stack, 2)), tag(top(stack, 3)))
}

/// The function that one of the last five rules brings into the tree.
pub open spec fn implicit_of(rule: Rule) -> Builtin {
    match rule {
        Rule::Compose => Builtin::Compose,
        Rule::BindRight => Builtin::PartialApplicationRight,
        Rule::BindLeft => Builtin::PartialApplicationLeft,
        Rule::ComposeRight => Builtin::ComposeRight,
        _ => Builtin::ComposeLeft,
    }
}

/// The tag of what one of the last five rules produces.
pub open spec fn implicit_tag(rule: Rule) -> PartOfSpeech {
    match rule {
        Rule::Compose | Rule::BindRight | Rule::BindLeft => PartOfSpeech::Verb(Arity::Unary),
        _ => PartOfSpeech::Verb(Arity::Binary),
    }
}

/// Two adjacent nouns as one tuple. A tuple in the lower slot takes the upper
/// noun as its next item; anything else in the lower slot becomes the first
/// item of a pair. A tuple in the upper slot is not taken apart.
pub open spec fn gather(lower: ExpressionModel, upper: ExpressionModel) -> ExpressionModel {
    match lower {
        ExpressionModel::Tuple(items) => ExpressionModel::Tuple(items.push(upper)),
        _ => ExpressionModel::Tuple(seq![lower, upper]),
    }
}

/// What a rule puts in place of the slots it takes, on a stack that it matches.
pub open spec fn product(stack: Seq<SlotModel>, rule: Rule) -> SlotModel {
    let e0 = expr_of(top(stack, 0));
    let e1 = expr_of(top(stack, 1));
    let e2 = expr_of(top(stack, 2));
    let e3 = expr_of(top(stack, 3));
    match rule {
        Rule::Modify => Some((unary(e0, e1), PartOfSpeech::Verb(output_arity(top(stack, 0))))),
        Rule::Apply => Some((unary(e1, e2), PartOfSpeech::Noun)),
        Rule::Conjoin => Some(
            (binary(e2, e1, e3), PartOfSpeech::Verb(output_arity(top(stack, 2)))),
        ),
        Rule::ApplyBinary => Some((binary(e2, e1, e3), PartOfSpeech::Noun)),
        Rule::Gather => Some((gather(e2, e1), PartOfSpeech::Noun)),
        _ => Some(
            (binary(ExpressionModel::Implicit(implicit_of(rule)), e1, e2), implicit_tag(rule)),
        ),
    }
}

/// How many slots under the top a rule takes. `Modify` takes the top as well.
pub open spec fn operands(rule: Rule) -> int {
    match rule {
        Rule::Modify => 1,
        Rule::Conjoin | Rule::ApplyBinary => 3,
        _ => 2,
    }
}

/// The stack after one rule has fired on it.
pub open spec fn rewrite(stack: Seq<SlotModel>, rule: Rule) -> Seq<SlotModel> {
    let kept = stack.subrange(0, stack.len() - 1 - operands(rule));
    if rule == Rule::Modify {
        kept.push(product(stack, rule))
    } else {
        kept.push(product(stack, rule)).push(top(stack, 0))
    }
}

/// The stack after rules have fired until none matches.
pub open spec fn reduce(stack: Seq<SlotModel>) -> Seq<SlotModel>
    decreases stack.len(),
{
    if stack.len() < 4 {
        stack
    } else {
        match matching_rule(stack) {
            None => stack,
            Some(rule) => reduce(rewrite(stack, rule)),
        }
    }
}

/// Whether the stack keeps at least four slots all the way through its reduction.
pub open spec fn reduces_in_bounds(stack: Seq<SlotModel>) -> bool
    decreases stack.len(),
{
    stack.len() >= 4 && match matching_rule(stack) {
        None => true,
        Some(rule) => reduces_in_bounds(rewrite(stack, rule)),
    }
}

/// Whether the four lowest slots are sentinels, as in the stack of a frame.
pub open spec fn anchored(stack: Seq<SlotModel>) -> bool {
    &&& stack.len() >= 4
    &&& stack[0] is None
    &&& stack[1] is None
    &&& stack[2] is None
    &&& stack[3] is None
}

/// A stack that stands on four sentinels can be reduced, and still stands on
/// them afterwards: no rule takes a sentinel.
pub proof fn lemma_anchored_reduces(stack: Seq<SlotModel>)
    requires
        anchored(stack),
    ensures
        reduces_in_bounds(stack),
        anchored(reduce(stack)),
        matching_rule(reduce(stack)) is None,
    decreases stack.len(),
{
    match matching_rule(stack) {
        None => {},
        Some(rule) => {
            lemma_anchored_reduces(rewrite(stack, rule));
        },
    }
}

/// The model of a stack with one more slot.
pub proof fn lemma_stack_model_push(stack: Seq<Slot>, slot: Slot)
    ensures
        stack_model(stack.push(slot)) == stack_model(stack).push(slot_model(slot)),
{
    assert(stack_model(stack.push(slot)) =~= stack_model(stack).push(slot_model(slot)));
}

/// The model of a stack without its top.
pub proof fn lemma_stack_model_drop_last(stack: Seq<Slot>)
    requires
        stack.len() > 0,
    ensures
        stack_model(stack.drop_last()) == stack_model(stack).drop_last(),
{
    assert(stack_model(stack.drop_last()) =~= stack_model(stack).drop_last());
}

/// Takes the top of the stack.
fn pop_slot(stack: &mut Vec<Slot>) -> (slot: Slot)
    requires
        old(stack)@.len() > 0,
    ensures
        final(stack)@ == old(stack)@.drop_last(),
        slot == old(stack)@.last(),
        stack_model(final(stack)@) == stack_model(old(stack)@).drop_last(),
        slot_model(slot) == stack_model(old(stack)@).last(),
{
    proof {
        lemma_stack_model_drop_last(stack@);
    }
    stack.pop().unwrap()
}

/// Puts a slot on top of the stack.
fn push_slot(stack: &mut Vec<Slot>, slot: Slot)
    ensures
        final(stack)@ == old(stack)@.push(slot),
        stack_model(final(stack)@) == stack_model(old(stack)@).push(slot_model(slot)),
{
    proof {
        lemma_stack_model_push(stack@, slot);
    }
    stack.push(slot);
}

/// Takes the top of the stack, which holds an expression, and hands out the expression.
pub fn pop_expr(stack: &mut Vec<Slot>) -> (expr: Expression)
    requires
        old(stack)@.len() > 0,
        old(stack)@.last() is Some,
    ensures
        final(stack)@ == old(stack)@.drop_last(),
        expr == old(stack)@.last()->Some_0.0,
        stack_model(final(stack)@) == stack_model(old(stack)@).drop_last(),
        expr@ == expr_of(stack_model(old(stack)@).last()),
{
    let (expr, _) = pop_slot(stack).unwrap();
    expr
}

/// Takes the top of the stack, which holds an adverb, and hands out the
/// adverb with its output arity.
pub fn pop_adverb(stack: &mut Vec<Slot>) -> (adverb: (Expression, Arity))
    requires
        old(stack)@.len() > 0,
        old(stack)@.last() matches Some((_, PartOfSpeech::Adverb(_, _))),
    ensures
        final(stack)@ == old(stack)@.drop_last(),
        adverb.0 == old(stack)@.last()->Some_0.0,
        stack_model(final(stack)@) == stack_model(old(stack)@).drop_last(),
        adverb.0@ == expr_of(stack_model(old(stack)@).last()),
        adverb.1 == output_arity(stack_model(old(stack)@).last()),
{
    let (expr, pos) = pop_slot(stack).unwrap();
    match pos {
        PartOfSpeech::Adverb(_, output) => (expr, output),
        _ => unreached(),
    }
}

/// The tag of the slot `depth` places under the top.
fn tag_at(stack: &Vec<Slot>, depth: usize) -> (t: Option<PartOfSpeech>)
    requires
        depth < stack@.len(),
    ensures
        t == tag(top(stack_model(stack@), depth as int)),
{
    match &stack[stack.len() - 1 - depth] {
        Some((_, pos)) => Some(*pos),
        None => None,
    }
}

fn noun(t: Option<PartOfSpeech>) -> (yes: bool)
    ensures
        yes == is_noun(t),
{
    match t {
        Some(PartOfSpeech::Noun) => true,
        _ => false,
    }
}

fn verb(t: Option<PartOfSpeech>) -> (yes: bool)
    ensures
        yes == is_verb(t),
{
    match t {
        Some(PartOfSpeech::Verb(_)) => true,
        _ => false,
    }
}

fn unary_verb(t: Option<PartOfSpeech>) -> (yes: bool)
    ensures
        yes == is_unary_verb(t),
{
    match t {
        Some(PartOfSpeech::Verb(Arity::Unary)) => true,
        _ => false,
    }
}

fn binary_verb(t: Option<PartOfSpeech>) -> (yes: bool)
    ensures
        yes == is_binary_verb(t),
{
    match t {
        Some(PartOfSpeech::Verb(Arity::Binary)) => true,
        _ => false,
    }
}

fn unary_adverb(t: Option<PartOfSpeech>) -> (yes: bool)
    ensures
        yes == is_unary_adverb(t),
{
    match t {
        Some(PartOfSpeech::Adverb(Arity::Unary, _)) => true,
        _ => false,
    }
}

fn binary_adverb(t: Option<PartOfSpeech>) -> (yes: bool)
    ensures
        yes == is_binary_adverb(t),
{
    match t {
        Some(PartOfSpeech::Adverb(Arity::Binary, _)) => true,
        _ => false,
    }
}

/// Picks the rule that fires on four topmost tags, `t0` being the top.
pub fn choose_rule(
    t0: Option<PartOfSpeech>,
    t1: Option<PartOfSpeech>,
    t2: Option<PartOfSpeech>,
    t3: Option<PartOfSpeech>,
) -> (rule: Option<Rule>)
    ensures
        rule == select_rule(t0, t1, t2, t3),
{
    let sv = t0.is_none() || verb(t0);
    let svn = sv || noun(t0);
    if unary_adverb(t0) && verb(t1) {
        Some(Rule::Modify)
    } else if svn && unary_verb(t1) && noun(t2) {
        Some(Rule::Apply)
    } else if (verb(t1) || noun(t1)) && binary_adverb(t2) && (verb(t3) || noun(t3)) {
        Some(Rule::Conjoin)
    } else if sv && noun(t1) && binary_verb(t2) && noun(t3) {
        Some(Rule::ApplyBinary)
    } else if svn && noun(t1) && noun(t2) {
        Some(Rule::Gather)
    } else if sv && unary_verb(t1) && unary_verb(t2) {
        Some(Rule::Compose)
    } else if sv && binary_verb(t1) && noun(t2) {
        Some(Rule::BindRight)
    } else if sv && noun(t1) && binary_verb(t2) {
        Some(Rule::BindLeft)
    } else if sv && binary_verb(t1) && unary_verb(t2) {
        Some(Rule::ComposeRight)
    } else if sv && unary_verb(t1) && binary_verb(t2) {
        Some(Rule::ComposeLeft)
    } else {
        None
    }
}

/// Makes one tuple of two adjacent nouns.
pub fn gather_nouns(lower: Expression, upper: Expression) -> (tuple: Expression)
    ensures
        tuple@ == gather(lower@, upper@),
{
    match lower {
        Expression::Tuple(mut items) => {
            proof {
                lemma_tuple_model(items);
                lemma_models_push(items@, upper);
            }
            items.push(upper);
            Expression::tuple(items)
        },
        other => {
            let items = vec![other, upper];
            assert(models(items@) =~= seq![other@, upper@]);
            Expression::tuple(items)
        },
    }
}

/// The function that one of the last five rules brings into the tree, and
/// the tag of what the rule produces.
fn implicit(rule: Rule) -> (pair: (Builtin, PartOfSpeech))
    ensures
        pair.0 == implicit_of(rule),
        pair.1 == implicit_tag(rule),
{
    match rule {
        Rule::Compose => (Builtin::Compose, PartOfSpeech::Verb(Arity::Unary)),
        Rule::BindRight => (Builtin::PartialApplicationRight, PartOfSpeech::Verb(Arity::Unary)),
        Rule::BindLeft => (Builtin::PartialApplicationLeft, PartOfSpeech::Verb(Arity::Unary)),
        Rule::ComposeRight => (Builtin::ComposeRight, PartOfSpeech::Verb(Arity::Binary)),
        _ => (Builtin::ComposeLeft, PartOfSpeech::Verb(Arity::Binary)),
    }
}

/// Fires one rule on a stack that it matches.
fn apply_rule(stack: &mut Vec<Slot>, rule: Rule)
    requires
        old(stack)@.len() >= 4,
        matching_rule(stack_model(old(stack)@)) == Some(rule),
    ensures
        stack_model(final(stack)@) == rewrite(stack_model(old(stack)@), rule),
{
    let ghost before = stack_model(stack@);
    match rule {
        Rule::Modify => {
            let (adverb, output) = pop_adverb(stack);
            let verb = pop_expr(stack);
            push_slot(stack, Some((Expression::unary(adverb, verb), PartOfSpeech::Verb(output))));
        },
        Rule::Apply => {
            let stash = pop_slot(stack);
            let verb = pop_expr(stack);
            let noun = pop_expr(stack);
            push_slot(stack, Some((Expression::unary(verb, noun), PartOfSpeech::Noun)));
            push_slot(stack, stash);
        },
        Rule::Conjoin => {
            let stash = pop_slot(stack);
            let upper = pop_expr(stack);
            let (conjunction, output) = pop_adverb(stack);
            let lower = pop_expr(stack);
            push_slot(
                stack,
                Some((Expression::binary(conjunction, upper, lower), PartOfSpeech::Verb(output))),
            );
            push_slot(stack, stash);
        },
        Rule::ApplyBinary => {
            let stash = pop_slot(stack);
            let upper = pop_expr(stack);
            let verb = pop_expr(stack);
            let lower = pop_expr(stack);
            push_slot(stack, Some((Expression::binary(verb, upper, lower), PartOfSpeech::Noun)));
            push_slot(stack, stash);
        },
        Rule::Gather => {
            let stash = pop_slot(stack);
            let upper = pop_expr(stack);
            let lower = pop_expr(stack);
            push_slot(stack, Some((gather_nouns(lower, upper), PartOfSpeech::Noun)));
            push_slot(stack, stash);
        },
        _ => {
            let (builtin, pos) = implicit(rule);
            let stash = pop_slot(stack);
            let upper = pop_expr(stack);
            let lower = pop_expr(stack);
            push_slot(
                stack,
                Some((Expression::binary(Expression::Implicit(builtin), upper, lower), pos)),
            );
            push_slot(stack, stash);
        },
    }
    assert(stack_model(stack@) =~= rewrite(before, rule));
}

/// Rewrites the stack until no rule matches.
///
/// The stack must keep four slots throughout; one that stands on four
/// sentinels does (see [`lemma_anchored_reduces`]).
pub fn reduce_stack(stack: &mut Vec<Slot>)
    requires
        reduces_in_bounds(stack_model(old(stack)@)),
    ensures
        stack_model(final(stack)@) == reduce(stack_model(old(stack)@)),
{
    loop
        invariant
            reduces_in_bounds(stack_model(stack@)),
            reduce(stack_model(stack@)) == reduce(stack_model(old(stack)@)),
        ensures
            stack_model(stack@) == reduce(stack_model(old(stack)@)),
        decreases stack@.len(),
    {
        let rule = choose_rule(
            tag_at(stack, 0),
            tag_at(stack, 1),
            tag_at(stack, 2),
            tag_at(stack, 3),
        );
        match rule {
            None => {
                break ;
            },
            Some(rule) => {
                apply_rule(stack, rule);
            },
        }
    }
}

} // verus!
