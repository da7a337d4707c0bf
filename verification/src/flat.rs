//! Tuples are flat: numbers written one after another parse to one tuple
//! that holds them all, however many they are.

use vstd::prelude::*;
use crate::error::ParseErrorModel;
use crate::expression::{number, ExpressionModel};
use crate::frame::{residue, run, step, with_slot, Finisher, FrameModel, ParseResultModel, Step};
use crate::laws::framed;
use crate::parsnip::{fresh, parse_outcome};
use crate::pos::PartOfSpeech;
use crate::reducer::{gather, matching_rule, reduce, rewrite, Rule, SlotModel};
use crate::terms::TermModel;

verus! {

/// The terms of numbers written one after another.
pub open spec fn numerals(numbers: Seq<i64>) -> Seq<TermModel> {
    Seq::new(numbers.len(), |i: int| TermModel::NumericLiteral(numbers[i]))
}

/// The numbers as expressions.
pub open spec fn atoms(numbers: Seq<i64>) -> Seq<ExpressionModel> {
    Seq::new(numbers.len(), |i: int| number(numbers[i]))
}

/// The items that a noun brings into a tuple: its own if it is a tuple, else itself.
pub open spec fn items_of(noun: ExpressionModel) -> Seq<ExpressionModel> {
    match noun {
        ExpressionModel::Tuple(items) => items,
        _ => seq![noun],
    }
}

/// A noun as a slot.
pub open spec fn noun_slot(noun: ExpressionModel) -> SlotModel {
    Some((noun, PartOfSpeech::Noun))
}

/// The one frame of a parse at the top level that has not reached its end.
pub open spec fn reading(stack: Seq<SlotModel>, input: Seq<TermModel>) -> Seq<FrameModel> {
    seq![FrameModel { stack, input, end_reached: false, finish: Finisher::Identity }]
}

/// A parse that holds two nouns and has only numbers left to read ends
/// with one tuple: the items of the lower noun, the upper noun, and the
/// numbers in the order in which they are read.
proof fn lemma_numbers_gather(
    stack: Seq<SlotModel>,
    lower: ExpressionModel,
    upper: i64,
    rest: Seq<i64>,
)
    requires
        reduce(stack) == framed(seq![noun_slot(lower), noun_slot(number(upper))]),
    ensures
        run(reading(stack, numerals(rest))).0 == Ok::<ParseResultModel, ParseErrorModel>(
            ParseResultModel::Complete(
                ExpressionModel::Tuple(
                    items_of(lower).push(number(upper)) + atoms(rest.reverse()),
                ),
                PartOfSpeech::Noun,
            ),
        ),
    decreases rest.len(),
{
    let frames = reading(stack, numerals(rest));
    let reduced = framed(seq![noun_slot(lower), noun_slot(number(upper))]);
    let gathered = gather(lower, number(upper));
    assert(gathered == ExpressionModel::Tuple(items_of(lower).push(number(upper)))) by {
        assert(seq![lower, number(upper)] =~= seq![lower].push(number(upper)));
    }
    assert(frames.drop_last() =~= Seq::<FrameModel>::empty());
    if rest.len() == 0 {
        let closing = reduced.push(None);
        let next = seq![
            FrameModel {
                stack: closing,
                input: numerals(rest),
                end_reached: true,
                finish: Finisher::Identity,
            },
        ];
        assert(step(frames) == Step::Continue(next)) by {
            assert(frames.drop_last().push(next[0]) =~= next);
        }
        let settled = framed(seq![noun_slot(gathered), None]);
        assert(matching_rule(closing) == Some(Rule::Gather));
        assert(rewrite(closing, Rule::Gather) =~= settled);
        assert(matching_rule(settled) is None);
        assert(reduce(closing) == settled) by {
            reveal_with_fuel(reduce, 3);
        }
        assert(residue(settled) =~= seq![(gathered, PartOfSpeech::Noun)]) by {
            reveal_with_fuel(residue, 8);
        }
        assert(next.drop_last() =~= Seq::<FrameModel>::empty());
        assert(step(next) == Step::Stop(
            Ok(ParseResultModel::Complete(gathered, PartOfSpeech::Noun)),
            next.drop_last(),
        ));
        assert(run(frames) == run(next));
        assert(atoms(rest.reverse()) =~= Seq::<ExpressionModel>::empty());
        assert(items_of(lower).push(number(upper)) + atoms(rest.reverse()) =~= items_of(
            lower,
        ).push(number(upper)));
    } else {
        let read = rest.last();
        let input = numerals(rest);
        assert(input.last() == TermModel::NumericLiteral(read));
        assert(input.drop_last() =~= numerals(rest.drop_last()));
        let shifted = reduced.push(noun_slot(number(read)));
        let next = reading(shifted, numerals(rest.drop_last()));
        assert(step(frames) == Step::Continue(next)) by {
            let waiting = FrameModel {
                stack: reduced,
                input: input.drop_last(),
                end_reached: false,
                finish: Finisher::Identity,
            };
            assert(frames.drop_last().push(with_slot(waiting, noun_slot(number(read)))) =~= next);
        }
        let after = framed(seq![noun_slot(gathered), noun_slot(number(read))]);
        assert(matching_rule(shifted) == Some(Rule::Gather));
        assert(rewrite(shifted, Rule::Gather) =~= after);
        assert(matching_rule(after) is None);
        assert(reduce(shifted) == after) by {
            reveal_with_fuel(reduce, 3);
        }
        lemma_numbers_gather(shifted, gathered, read, rest.drop_last());
        assert(run(frames) == run(next));
        assert(items_of(gathered).push(number(read)) + atoms(rest.drop_last().reverse())
            =~= items_of(lower).push(number(upper)) + atoms(rest.reverse()));
    }
}

/// Tuple flattening: two or more numbers written one after another parse
/// to a noun, one tuple of as many items as there are numbers: the numbers
/// in the order in which they are read, which is from the back. No tuple
/// lies within the tuple.
pub proof fn law_numbers_parse_flat(numbers: Seq<i64>)
    requires
        numbers.len() >= 2,
    ensures
        parse_outcome(numerals(numbers)) == Ok::<ParseResultModel, ParseErrorModel>(
            ParseResultModel::Complete(
                ExpressionModel::Tuple(atoms(numbers.reverse())),
                PartOfSpeech::Noun,
            ),
        ),
        atoms(numbers.reverse()).len() == numbers.len(),
        forall|i: int|
            0 <= i < numbers.len() ==> #[trigger] atoms(numbers.reverse())[i] == number(
                numbers[numbers.len() - 1 - i],
            ),
{
    let count = numbers.len() as int;
    let input = numerals(numbers);
    let first = numbers[count - 1];
    let second = numbers[count - 2];
    let frames = fresh(input);
    let empty = framed(Seq::<SlotModel>::empty());
    assert(frames.drop_last() =~= Seq::<FrameModel>::empty());
    assert(frames[0].stack =~= empty);
    assert(matching_rule(empty) is None);
    assert(reduce(empty) == empty);
    let one = framed(seq![noun_slot(number(first))]);
    assert(empty.push(noun_slot(number(first))) =~= one);
    let after_one = reading(one, input.drop_last());
    assert(step(frames) == Step::Continue(after_one)) by {
        let waiting = FrameModel {
            stack: reduce(frames[0].stack),
            input: input.drop_last(),
            end_reached: false,
            finish: Finisher::Identity,
        };
        assert(frames.drop_last().push(with_slot(waiting, noun_slot(number(first))))
            =~= after_one);
    }
    assert(matching_rule(one) is None);
    assert(reduce(one) == one);
    let two = framed(seq![noun_slot(number(first)), noun_slot(number(second))]);
    assert(one.push(noun_slot(number(second))) =~= two);
    let rest = numbers.take(count - 2);
    assert(input.drop_last().last() == TermModel::NumericLiteral(second));
    assert(input.drop_last().drop_last() =~= numerals(rest));
    let after_two = reading(two, numerals(rest));
    assert(after_one.drop_last() =~= Seq::<FrameModel>::empty());
    assert(step(after_one) == Step::Continue(after_two)) by {
        let waiting = FrameModel {
            stack: one,
            input: input.drop_last().drop_last(),
            end_reached: false,
            finish: Finisher::Identity,
        };
        assert(after_one.drop_last().push(with_slot(waiting, noun_slot(number(second))))
            =~= after_two);
    }
    assert(matching_rule(two) is None);
    assert(reduce(two) == two);
    lemma_numbers_gather(two, number(first), second, rest);
    assert(run(frames) == run(after_one));
    assert(run(after_one) == run(after_two));
    assert(items_of(number(first)).push(number(second)) + atoms(rest.reverse()) =~= atoms(
        numbers.reverse(),
    ));
}

} // verus!
