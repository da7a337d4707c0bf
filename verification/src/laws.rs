//! What holds of the library as a whole: laws that relate its functions
//! to each other, each proved from their definitions.

use vstd::prelude::*;
use crate::block::{bindings, latest};
use crate::expression::{binary, unary, Builtin, ExpressionModel, Identifier};
use crate::frame::{ready, Outcome};
use crate::parsnip::parse_outcome;
use crate::pos::{Arity, PartOfSpeech};
use crate::reducer::{
    anchored,
    expr_of,
    gather,
    is_unary_adverb,
    is_verb,
    matching_rule,
    output_arity,
    reduce,
    rewrite,
    tag,
    top,
    Rule,
    SlotModel,
};
use crate::scope::{binds, following, previous, AssignmentModel, LookupModel, ScopeModel};
use crate::soundness::lemma_learn_name_ready;
use crate::terms::TermModel;

verus! {

/// Whether `name` is bound under the identifier `id`.
pub open spec fn bound(names: Seq<(Identifier, Seq<char>)>, id: Identifier, name: Seq<char>) -> bool {
    exists|i: int| 0 <= i < names.len() && #[trigger] names[i] == (id, name)
}

/// Whether the bindings stand in the order of their identifiers, none twice.
pub open spec fn ordered(names: Seq<(Identifier, Seq<char>)>) -> bool {
    forall|i: int, j: int| 0 <= i < j < names.len() ==> names[i].0 < names[j].0
}

/// A name is bound if and only if it is bound under some identifier.
pub proof fn law_binds(names: Seq<(Identifier, Seq<char>)>, name: Seq<char>)
    ensures
        binds(names, name) <==> exists|id: Identifier| bound(names, id, name),
    decreases names.len(),
{
    if names.len() > 0 {
        law_binds(names.drop_last(), name);
        if binds(names, name) {
            if names.last().1 == name {
                assert(names[names.len() - 1] == (names.last().0, name));
                assert(bound(names, names.last().0, name));
            } else {
                let id = choose|id: Identifier| bound(names.drop_last(), id, name);
                let i = choose|i: int|
                    0 <= i < names.drop_last().len() && #[trigger] names.drop_last()[i] == (
                        id,
                        name,
                    );
                assert(names[i] == (id, name));
                assert(bound(names, id, name));
            }
        }
        if exists|id: Identifier| bound(names, id, name) {
            let id = choose|id: Identifier| bound(names, id, name);
            let i = choose|i: int| 0 <= i < names.len() && #[trigger] names[i] == (id, name);
            if i < names.len() - 1 {
                assert(names.drop_last()[i] == (id, name));
                assert(bound(names.drop_last(), id, name));
            }
        }
    }
}

/// Back-reference: among bindings in the order of their identifiers, the
/// binding that a name looks back to is the latest binding of the name
/// before the assignment, and there is one whenever the name has a binding
/// before the assignment.
pub proof fn law_previous_is_latest(
    names: Seq<(Identifier, Seq<char>)>,
    name: Seq<char>,
    as_of: Identifier,
)
    requires
        ordered(names),
    ensures
        match previous(names, name, as_of) {
            Some(id) => bound(names, id, name) && id < as_of && forall|other: Identifier|
                bound(names, other, name) && other < as_of ==> other <= id,
            None => forall|other: Identifier| bound(names, other, name) ==> other >= as_of,
        },
    decreases names.len(),
{
    if names.len() > 0 {
        let last = names.last();
        if last.1 == name && last.0 < as_of {
            assert(names[names.len() - 1] == (last.0, name));
            assert forall|other: Identifier|
                bound(names, other, name) && other < as_of implies other <= last.0 by {
                let i = choose|i: int| 0 <= i < names.len() && #[trigger] names[i] == (other, name);
                if i < names.len() - 1 {
                    assert(names[i].0 < names[names.len() - 1].0);
                }
            }
        } else {
            let front = names.drop_last();
            assert(ordered(front)) by {
                assert forall|i: int, j: int| 0 <= i < j < front.len() implies front[i].0
                    < front[j].0 by {
                    assert(names[i].0 < names[j].0);
                }
            }
            law_previous_is_latest(front, name, as_of);
            assert forall|other: Identifier| bound(names, other, name) && other < as_of implies bound(
                front,
                other,
                name,
            ) by {
                let i = choose|i: int| 0 <= i < names.len() && #[trigger] names[i] == (other, name);
                assert(i < names.len() - 1);
                assert(front[i] == (other, name));
            }
            match previous(front, name, as_of) {
                Some(id) => {
                    let i = choose|i: int| 0 <= i < front.len() && #[trigger] front[i] == (id, name);
                    assert(names[i] == (id, name));
                },
                None => {
                    assert forall|other: Identifier| bound(names, other, name) implies other
                        >= as_of by {
                        if other < as_of {
                            assert(bound(front, other, name));
                        }
                    }
                },
            }
        }
    }
}

/// Forward reference: among bindings in the order of their identifiers,
/// the binding that a name looks ahead to is the earliest binding of the
/// name that is not before the assignment, and there is one whenever the
/// name has such a binding.
pub proof fn law_following_is_earliest(
    names: Seq<(Identifier, Seq<char>)>,
    name: Seq<char>,
    as_of: Identifier,
)
    requires
        ordered(names),
    ensures
        match following(names, name, as_of) {
            Some(id) => bound(names, id, name) && id >= as_of && forall|other: Identifier|
                bound(names, other, name) && other >= as_of ==> id <= other,
            None => forall|other: Identifier| bound(names, other, name) ==> other < as_of,
        },
    decreases names.len(),
{
    if names.len() > 0 {
        let last = names.last();
        let front = names.drop_last();
        assert(ordered(front)) by {
            assert forall|i: int, j: int| 0 <= i < j < front.len() implies front[i].0
                < front[j].0 by {
                assert(names[i].0 < names[j].0);
            }
        }
        law_following_is_earliest(front, name, as_of);
        match following(front, name, as_of) {
            Some(id) => {
                let i = choose|i: int| 0 <= i < front.len() && #[trigger] front[i] == (id, name);
                assert(names[i] == (id, name));
                assert forall|other: Identifier|
                    bound(names, other, name) && other >= as_of implies id <= other by {
                    let k = choose|k: int|
                        0 <= k < names.len() && #[trigger] names[k] == (other, name);
                    if k < names.len() - 1 {
                        assert(front[k] == (other, name));
                        assert(bound(front, other, name));
                    } else {
                        assert(names[i].0 < names[k].0);
                    }
                }
            },
            None => {
                if last.1 == name && last.0 >= as_of {
                    assert(names[names.len() - 1] == (last.0, name));
                    assert forall|other: Identifier|
                        bound(names, other, name) && other >= as_of implies last.0 <= other by {
                        let k = choose|k: int|
                            0 <= k < names.len() && #[trigger] names[k] == (other, name);
                        if k < names.len() - 1 {
                            assert(front[k] == (other, name));
                            assert(bound(front, other, name));
                        }
                    }
                } else {
                    assert forall|other: Identifier| bound(names, other, name) implies other
                        < as_of by {
                        let k = choose|k: int|
                            0 <= k < names.len() && #[trigger] names[k] == (other, name);
                        if k < names.len() - 1 {
                            assert(front[k] == (other, name));
                            assert(bound(front, other, name));
                        }
                    }
                }
            },
        }
    }
}

/// The lookup policy: in a scope that binds the name, a name stands for
/// its latest binding before the assignment; only if there is none, it
/// stands for its earliest binding that is not before the assignment. It
/// always stands for one of the two, and the scope around is not asked.
pub proof fn law_lookup_prefers_back_reference(scope: ScopeModel, name: Seq<char>, as_of: Identifier)
    requires
        ordered(scope.names),
        binds(scope.names, name),
    ensures
        match scope.lookup_identifier(name, as_of) {
            Some(id) => {
                &&& bound(scope.names, id, name)
                &&& id < as_of ==> forall|other: Identifier|
                    bound(scope.names, other, name) && other < as_of ==> other <= id
                &&& id >= as_of ==> forall|other: Identifier|
                    bound(scope.names, other, name) ==> id <= other
            },
            None => false,
        },
{
    law_previous_is_latest(scope.names, name, as_of);
    law_following_is_earliest(scope.names, name, as_of);
    law_binds(scope.names, name);
}

/// A name that a scope does not bind stands for what it stands for in the
/// scope around, as the same assignment sees it; with no scope around, it
/// is unknown.
pub proof fn law_lookup_asks_the_scope_around(scope: ScopeModel, name: Seq<char>, as_of: Identifier)
    requires
        !binds(scope.names, name),
    ensures
        scope.lookup_identifier(name, as_of) == match scope.parent {
            Some(parent) => parent.lookup_identifier(name, as_of),
            None => None,
        },
        scope.parent is None ==> scope.lookup(name, as_of) == LookupModel::Unknown,
{
}

/// Among bindings that were all made before an assignment, the binding
/// that a name looks back to is its latest binding.
pub proof fn lemma_previous_of_earlier(
    names: Seq<(Identifier, Seq<char>)>,
    name: Seq<char>,
    as_of: Identifier,
)
    requires
        forall|i: int| 0 <= i < names.len() ==> (#[trigger] names[i]).0 < as_of,
    ensures
        previous(names, name, as_of) == latest(names, name),
        binds(names, name) ==> latest(names, name) is Some && latest(names, name)->Some_0 < as_of,
    decreases names.len(),
{
    if names.len() > 0 {
        assert(names[names.len() - 1].0 < as_of);
        assert forall|i: int| 0 <= i < names.drop_last().len() implies (
        #[trigger] names.drop_last()[i]).0 < as_of by {
            assert(names[i].0 < as_of);
        }
        lemma_previous_of_earlier(names.drop_last(), name, as_of);
    }
}

/// The bindings of an outer scope are older than every assignment of an
/// inner one. So a name that only the outer scope binds stands, in an
/// assignment of the inner scope, for its latest binding in the outer
/// scope: the lookup never looks ahead there.
pub proof fn law_outer_bindings_are_back_references(
    scope: ScopeModel,
    name: Seq<char>,
    as_of: Identifier,
)
    requires
        scope.parent is Some,
        scope.parent->Some_0.bounded(),
        as_of >= scope.parent->Some_0.next_id,
        !binds(scope.names, name),
        binds(scope.parent->Some_0.names, name),
    ensures
        scope.lookup_identifier(name, as_of) == latest(scope.parent->Some_0.names, name),
        scope.lookup_identifier(name, as_of) is Some,
        scope.lookup_identifier(name, as_of)->Some_0 < as_of,
{
    let parent = *scope.parent->Some_0;
    assert forall|i: int| 0 <= i < parent.names.len() implies (#[trigger] parent.names[i]).0
        < as_of by {
        assert(parent.names[i].0 < parent.next_id);
    }
    lemma_previous_of_earlier(parent.names, name, as_of);
    assert(scope.parent == Some(Box::new(parent)));
    assert(scope.lookup_previous_identifier(name, as_of) == parent.lookup_previous_identifier(
        name,
        as_of,
    ));
    assert(parent.lookup_previous_identifier(name, as_of) == previous(parent.names, name, as_of));
}

/// Identifiers are handed out in increasing order: a binding more, of
/// whatever name, keeps the bindings in the order of their identifiers and
/// under the identifier that is handed out next.
pub proof fn law_bindings_stay_ordered(scope: ScopeModel, name: Seq<char>)
    requires
        ordered(scope.names),
        scope.bounded(),
        scope.next_id < u64::MAX,
    ensures
        ordered(scope.learn_name(name).names),
        scope.learn_name(name).bounded(),
        scope.learn_name(name).next_id == scope.next_id + 1,
{
    let after = scope.learn_name(name);
    assert forall|i: int, j: int| 0 <= i < j < after.names.len() implies after.names[i].0
        < after.names[j].0 by {
        assert(scope.names[i].0 < scope.next_id);
        if j < scope.names.len() {
            assert(scope.names[i].0 < scope.names[j].0);
        }
    }
    assert forall|i: int| 0 <= i < after.names.len() implies (#[trigger] after.names[i]).0
        < after.next_id by {
        if i < scope.names.len() {
            assert(scope.names[i].0 < scope.next_id);
        }
    }
}

/// The identifiers that `name` is bound under, in the order of the bindings.
pub open spec fn ids_bound_to(names: Seq<(Identifier, Seq<char>)>, name: Seq<char>) -> Seq<Identifier>
    decreases names.len(),
{
    if names.len() == 0 {
        Seq::empty()
    } else if names.last().1 == name {
        ids_bound_to(names.drop_last(), name).push(names.last().0)
    } else {
        ids_bound_to(names.drop_last(), name)
    }
}

/// The identifiers that a name is bound under are those of its bindings,
/// and they stand in the order of their allocation: each is greater than
/// the one before it.
pub proof fn law_ids_of_a_name_are_sorted(names: Seq<(Identifier, Seq<char>)>, name: Seq<char>)
    requires
        ordered(names),
    ensures
        forall|k: int|
            0 <= k < ids_bound_to(names, name).len() ==> bound(
                names,
                #[trigger] ids_bound_to(names, name)[k],
                name,
            ),
        forall|id: Identifier|
            bound(names, id, name) ==> exists|k: int|
                0 <= k < ids_bound_to(names, name).len() && #[trigger] ids_bound_to(names, name)[k]
                    == id,
        forall|i: int, j: int|
            0 <= i < j < ids_bound_to(names, name).len() ==> ids_bound_to(names, name)[i]
                < ids_bound_to(names, name)[j],
    decreases names.len(),
{
    if names.len() > 0 {
        let front = names.drop_last();
        let last = names.last();
        let ids = ids_bound_to(names, name);
        let before = ids_bound_to(front, name);
        assert(ordered(front)) by {
            assert forall|i: int, j: int| 0 <= i < j < front.len() implies front[i].0
                < front[j].0 by {
                assert(names[i].0 < names[j].0);
            }
        }
        law_ids_of_a_name_are_sorted(front, name);
        assert forall|k: int| 0 <= k < ids.len() implies bound(names, #[trigger] ids[k], name) by {
            if k < before.len() {
                assert(bound(front, before[k], name));
                let i = choose|i: int|
                    0 <= i < front.len() && #[trigger] front[i] == (before[k], name);
                assert(names[i] == (ids[k], name));
            } else {
                assert(names[names.len() - 1] == (ids[k], name));
            }
        }
        assert forall|id: Identifier| bound(names, id, name) implies exists|k: int|
            0 <= k < ids.len() && #[trigger] ids[k] == id by {
            let i = choose|i: int| 0 <= i < names.len() && #[trigger] names[i] == (id, name);
            if i < names.len() - 1 {
                assert(front[i] == (id, name));
                assert(bound(front, id, name));
                let k = choose|k: int| 0 <= k < before.len() && #[trigger] before[k] == id;
                assert(ids[k] == id);
            } else {
                assert(ids[ids.len() - 1] == id);
            }
        }
        assert forall|i: int, j: int| 0 <= i < j < ids.len() implies ids[i] < ids[j] by {
            if j < before.len() {
                assert(before[i] < before[j]);
            } else {
                assert(bound(front, before[i], name));
                let k = choose|k: int|
                    0 <= k < front.len() && #[trigger] front[k] == (before[i], name);
                assert(names[k].0 < names[names.len() - 1].0);
            }
        }
    }
}

/// An identifier has one binding and one name: among bindings in the
/// order of their identifiers, no identifier is bound under two names.
pub proof fn law_one_name_for_an_identifier(
    names: Seq<(Identifier, Seq<char>)>,
    id: Identifier,
    first: Seq<char>,
    second: Seq<char>,
)
    requires
        ordered(names),
        bound(names, id, first),
        bound(names, id, second),
    ensures
        first == second,
{
    let i = choose|i: int| 0 <= i < names.len() && #[trigger] names[i] == (id, first);
    let j = choose|j: int| 0 <= j < names.len() && #[trigger] names[j] == (id, second);
    if i < j {
        assert(names[i].0 < names[j].0);
    } else if j < i {
        assert(names[j].0 < names[i].0);
    }
}

/// The result of a block is not among its bindings: the expression of a
/// block holds no binding under the identifier of its result.
pub proof fn law_result_is_not_a_binding(
    complete: Seq<(Identifier, (ExpressionModel, PartOfSpeech))>,
    names: Seq<(Identifier, Seq<char>)>,
    result: Identifier,
)
    ensures
        forall|i: int|
            0 <= i < bindings(complete, names, result).len() ==> (#[trigger] bindings(
                complete,
                names,
                result,
            )[i]).0.id != result,
    decreases complete.len(),
{
    if complete.len() > 0 {
        law_result_is_not_a_binding(complete.drop_last(), names, result);
        let all = bindings(complete, names, result);
        let before = bindings(complete.drop_last(), names, result);
        assert forall|i: int| 0 <= i < all.len() implies (#[trigger] all[i]).0.id != result by {
            if i < before.len() {
                assert(all[i] == before[i]);
            }
        }
    }
}

/// The bindings that a block has when it is about to parse its
/// assignments, and when its parses can go on no more, stand in the order
/// of their identifiers, if those that its scope had before did: an
/// earlier assignment has the smaller identifier.
pub proof fn law_assignments_are_numbered_in_order(
    scope: ScopeModel,
    assignments: Seq<AssignmentModel>,
)
    requires
        ordered(scope.names),
        scope.bounded(),
        scope.tasks_ready(),
        scope.next_id + assignments.len() <= u64::MAX,
    ensures
        ordered(scope.begin_all(assignments).names),
        scope.begin_all(assignments).bounded(),
        scope.begin_all(assignments).tasks_ready(),
        scope.begin_all(assignments).next_id == scope.next_id + assignments.len(),
        scope.begin_all(assignments).names.len() == scope.names.len() + assignments.len(),
        forall|k: int|
            0 <= k < assignments.len() ==> #[trigger] scope.begin_all(
                assignments,
            ).names[scope.names.len() + k] == (
                (scope.next_id + k) as Identifier,
                assignments[k].name,
            ),
        scope.planned(assignments).names == scope.begin_all(assignments).names,
    decreases assignments.len(),
{
    if assignments.len() > 0 {
        let front = assignments.drop_last();
        let last = assignments.last();
        let before = scope.begin_all(front);
        law_assignments_are_numbered_in_order(scope, front);
        law_bindings_stay_ordered(before, last.name);
        lemma_learn_name_ready(before, last.name);
        let after = scope.begin_all(assignments);
        assert(after.names == before.learn_name(last.name).names);
        assert forall|i: int| 0 <= i < after.unblocked.len() implies ready(
            (#[trigger] after.unblocked[i]).state,
        ) by {
            if i < before.learn_name(last.name).unblocked.len() {
                assert(after.unblocked[i] == before.learn_name(last.name).unblocked[i]);
            } else {
                assert(anchored(after.unblocked[i].state[0].stack));
            }
        }
        assert forall|k: int| 0 <= k < assignments.len() implies #[trigger] after.names[scope.names.len()
            + k] == ((scope.next_id + k) as Identifier, assignments[k].name) by {
            if k < front.len() {
                assert(before.names[scope.names.len() + k] == (
                    (scope.next_id + k) as Identifier,
                    front[k].name,
                ));
            }
        }
    }
}

/// Shadowing: a name that is bound twice has two bindings with their own
/// identifiers, and an assignment after both refers to the second.
pub proof fn law_shadowing(scope: ScopeModel, name: Seq<char>, as_of: Identifier)
    requires
        scope.next_id + 1 < u64::MAX,
        as_of > scope.next_id + 1,
    ensures
        scope.learn_name(name).next_id != scope.next_id,
        bound(scope.learn_name(name).learn_name(name).names, scope.next_id, name),
        bound(
            scope.learn_name(name).learn_name(name).names,
            scope.learn_name(name).next_id,
            name,
        ),
        scope.learn_name(name).learn_name(name).lookup_identifier(name, as_of) == Some(
            scope.learn_name(name).next_id,
        ),
{
    let once = scope.learn_name(name);
    let twice = once.learn_name(name);
    assert(twice.names[twice.names.len() - 1] == (once.next_id, name));
    assert(twice.names[twice.names.len() - 2] == (scope.next_id, name));
}

/// Determinism: two parses of the same terms end with the same expression
/// and part of speech, or with the same error.
pub proof fn law_same_terms_same_outcome(
    terms: Seq<TermModel>,
    first: Outcome,
    second: Outcome,
)
    requires
        first == parse_outcome(terms),
        second == parse_outcome(terms),
    ensures
        first == second,
{
}

/// Adverb eagerness: an adverb that takes a unary verb, on top of a verb,
/// takes that verb whatever lies under the two. No other rule comes
/// first, and nothing is left in place on top: the stack is reduced as the
/// stack on which the adverb has been applied.
pub proof fn law_adverb_binds_first(stack: Seq<SlotModel>)
    requires
        stack.len() >= 4,
        is_unary_adverb(tag(top(stack, 0))),
        is_verb(tag(top(stack, 1))),
    ensures
        matching_rule(stack) == Some(Rule::Modify),
        reduce(stack) == reduce(
            stack.subrange(0, stack.len() - 2).push(
                Some(
                    (
                        unary(expr_of(top(stack, 0)), expr_of(top(stack, 1))),
                        PartOfSpeech::Verb(output_arity(top(stack, 0))),
                    ),
                ),
            ),
        ),
{
}

/// Tuple flattening: a tuple that takes a noun more is a flat tuple of
/// one item more, with the items it had in their places.
pub proof fn law_gather_is_flat(items: Seq<ExpressionModel>, upper: ExpressionModel)
    ensures
        gather(ExpressionModel::Tuple(items), upper) == ExpressionModel::Tuple(items.push(upper)),
        gather(ExpressionModel::Tuple(items), upper)->Tuple_0.len() == items.len() + 1,
        forall|i: int|
            0 <= i < items.len() ==> gather(ExpressionModel::Tuple(items), upper)->Tuple_0[i]
                == items[i],
{
}

/// A noun that is no tuple makes a pair with the noun above it, also where
/// that noun is a tuple: only the lower of two nouns takes the other in.
pub proof fn law_gather_pairs(lower: ExpressionModel, upper: ExpressionModel)
    requires
        !(lower is Tuple),
    ensures
        gather(lower, upper) == ExpressionModel::Tuple(seq![lower, upper]),
{
}

/// The stack of a frame that holds the given slots above its four sentinels.
pub open spec fn framed(slots: Seq<SlotModel>) -> Seq<SlotModel> {
    seq![None, None, None, None] + slots
}

/// Operator sections: a binary verb before a noun, with nothing else in
/// the frame, is a unary verb: the verb with its right operand.
pub proof fn law_right_section(verb: ExpressionModel, noun: ExpressionModel)
    ensures
        reduce(
            framed(
                seq![
                    Some((noun, PartOfSpeech::Noun)),
                    Some((verb, PartOfSpeech::Verb(Arity::Binary))),
                    None,
                ],
            ),
        ) == framed(
            seq![
                Some(
                    (
                        binary(
                            ExpressionModel::Implicit(Builtin::PartialApplicationRight),
                            verb,
                            noun,
                        ),
                        PartOfSpeech::Verb(Arity::Unary),
                    ),
                ),
                None,
            ],
        ),
{
    let stack = framed(
        seq![
            Some((noun, PartOfSpeech::Noun)),
            Some((verb, PartOfSpeech::Verb(Arity::Binary))),
            None,
        ],
    );
    let after = framed(
        seq![
            Some(
                (
                    binary(ExpressionModel::Implicit(Builtin::PartialApplicationRight), verb, noun),
                    PartOfSpeech::Verb(Arity::Unary),
                ),
            ),
            None,
        ],
    );
    assert(matching_rule(stack) == Some(Rule::BindRight));
    assert(rewrite(stack, Rule::BindRight) =~= after);
    assert(matching_rule(after) is None);
    reveal_with_fuel(reduce, 3);
}

/// Operator sections: a noun before a binary verb, with nothing else in
/// the frame, is a unary verb: the verb with its left operand.
pub proof fn law_left_section(noun: ExpressionModel, verb: ExpressionModel)
    ensures
        reduce(
            framed(
                seq![
                    Some((verb, PartOfSpeech::Verb(Arity::Binary))),
                    Some((noun, PartOfSpeech::Noun)),
                    None,
                ],
            ),
        ) == framed(
            seq![
                Some(
                    (
                        binary(
                            ExpressionModel::Implicit(Builtin::PartialApplicationLeft),
                            noun,
                            verb,
                        ),
                        PartOfSpeech::Verb(Arity::Unary),
                    ),
                ),
                None,
            ],
        ),
{
    let stack = framed(
        seq![
            Some((verb, PartOfSpeech::Verb(Arity::Binary))),
            Some((noun, PartOfSpeech::Noun)),
            None,
        ],
    );
    let after = framed(
        seq![
            Some(
                (
                    binary(ExpressionModel::Implicit(Builtin::PartialApplicationLeft), noun, verb),
                    PartOfSpeech::Verb(Arity::Unary),
                ),
            ),
            None,
        ],
    );
    assert(matching_rule(stack) == Some(Rule::BindLeft));
    assert(rewrite(stack, Rule::BindLeft) =~= after);
    assert(matching_rule(after) is None);
    reveal_with_fuel(reduce, 3);
}

/// Operator sections: a unary verb, a section among them, before a noun
/// is a noun: the verb applied.
pub proof fn law_section_applies(section: ExpressionModel, noun: ExpressionModel)
    ensures
        reduce(
            framed(
                seq![
                    Some((noun, PartOfSpeech::Noun)),
                    Some((section, PartOfSpeech::Verb(Arity::Unary))),
                    None,
                ],
            ),
        ) == framed(seq![Some((unary(section, noun), PartOfSpeech::Noun)), None]),
{
    let stack = framed(
        seq![
            Some((noun, PartOfSpeech::Noun)),
            Some((section, PartOfSpeech::Verb(Arity::Unary))),
            None,
        ],
    );
    let after = framed(seq![Some((unary(section, noun), PartOfSpeech::Noun)), None]);
    assert(matching_rule(stack) == Some(Rule::Apply));
    assert(rewrite(stack, Rule::Apply) =~= after);
    assert(matching_rule(after) is None);
    reveal_with_fuel(reduce, 3);
}

} // verus!
