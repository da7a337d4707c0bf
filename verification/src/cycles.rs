//! Cycles: when a block ends because its assignments go round in a circle,
//! every parse that waits does so for a binding of the block whose own
//! parse waits as well.

use vstd::prelude::*;
use crate::block::first_foreign;
use crate::error::ParseErrorModel;
use crate::expression::{ExpressionModel, Identifier, RichIdentifierModel};
use crate::frame::{
    frames_weight,
    lemma_provided,
    lemma_run_progress,
    provided,
    ready,
    run,
    FrameModel,
    ParseResultModel,
};
use crate::pos::PartOfSpeech;
use crate::schedule::{lemma_advance, lemma_without_next};
use crate::scope::{
    bad_references,
    lemma_lookup_by_id_keeps_id,
    lemma_others_without_key,
    lemma_waiting_others_len,
    others,
    recorded,
    waiting,
    LookupModel,
    OperationModel,
    ScopeModel,
};
use crate::soundness::{
    holds,
    law_at_most_one_place,
    lemma_drive_sound,
    lemma_recorded_push,
    named,
    queue_holds,
};

verus! {

/// Whether no parse waits for a binding that has been parsed.
pub open spec fn none_waits_for_complete(scope: ScopeModel) -> bool {
    forall|i: int|
        0 <= i < scope.blocked_on_id.len() ==> recorded(
            scope.complete,
            (#[trigger] scope.blocked_on_id[i]).0,
        ) is None
}

/// A failure leaves no parse waiting for a parsed binding, if none waited for one before.
pub proof fn lemma_fail_all_coherent(scope: ScopeModel, worklist: Seq<(Identifier, ParseErrorModel)>)
    requires
        none_waits_for_complete(scope),
    ensures
        none_waits_for_complete(scope.fail_all(worklist)),
    decreases scope.blocked_on_id.len() + worklist.len(),
{
    if worklist.len() > 0 {
        let id = worklist.last().0;
        let rest = others(scope.blocked_on_id, id);
        let step = ScopeModel {
            failed: scope.failed.push(worklist.last()),
            blocked_on_id: rest,
            ..scope
        };
        lemma_waiting_others_len(scope.blocked_on_id, id);
        lemma_others_without_key(scope.blocked_on_id, id);
        assert forall|i: int| 0 <= i < rest.len() implies recorded(
            step.complete,
            (#[trigger] rest[i]).0,
        ) is None by {
            let j = choose|j: int|
                0 <= j < scope.blocked_on_id.len() && scope.blocked_on_id[j] == rest[i];
            assert(recorded(scope.complete, scope.blocked_on_id[j].0) is None);
        }
        lemma_fail_all_coherent(
            step,
            worklist.drop_last() + bad_references(waiting(scope.blocked_on_id, id), id),
        );
    }
}

/// Completing a binding leaves no parse waiting for a parsed binding, if
/// none waited for one before.
pub proof fn lemma_complete_coherent(
    scope: ScopeModel,
    id: Identifier,
    expr: ExpressionModel,
    pos: PartOfSpeech,
)
    requires
        none_waits_for_complete(scope),
    ensures
        none_waits_for_complete(scope.complete(id, expr, pos)),
{
    let after = scope.complete(id, expr, pos);
    let rest = others(scope.blocked_on_id, id);
    lemma_others_without_key(scope.blocked_on_id, id);
    assert forall|i: int| 0 <= i < after.blocked_on_id.len() implies recorded(
        after.complete,
        (#[trigger] after.blocked_on_id[i]).0,
    ) is None by {
        let j = choose|j: int|
            0 <= j < scope.blocked_on_id.len() && scope.blocked_on_id[j] == rest[i];
        assert(recorded(scope.complete, scope.blocked_on_id[j].0) is None);
        lemma_recorded_push(scope.complete, (id, (expr, pos)), rest[i].0);
    }
}

/// Running one parse as far as it goes leaves no parse waiting for a
/// parsed binding, if none waited for one before.
pub proof fn lemma_advance_coherent(scope: ScopeModel, id: Identifier, state: Seq<FrameModel>)
    requires
        none_waits_for_complete(scope),
        ready(state),
    ensures
        none_waits_for_complete(scope.advance(id, state)),
    decreases frames_weight(state),
{
    lemma_run_progress(state);
    match run(state).0 {
        Err(error) => {
            lemma_fail_all_coherent(scope, seq![(id, error)]);
        },
        Ok(ParseResultModel::Complete(expr, pos)) => {
            lemma_complete_coherent(scope, id, expr, pos);
        },
        Ok(ParseResultModel::PendingId(_)) => {},
        Ok(ParseResultModel::PendingName(name)) => {
            let operation = OperationModel { id, state: run(state).1 };
            match scope.lookup(name, id) {
                LookupModel::Unknown => {},
                LookupModel::Pending(prereq) => {
                    let found = scope.lookup_identifier(name, id)->Some_0;
                    lemma_lookup_by_id_keeps_id(scope, found);
                    let after = scope.park_on_id(prereq, operation);
                    assert forall|i: int| 0 <= i < after.blocked_on_id.len() implies recorded(
                        after.complete,
                        (#[trigger] after.blocked_on_id[i]).0,
                    ) is None by {
                        if i < scope.blocked_on_id.len() {
                            assert(after.blocked_on_id[i] == scope.blocked_on_id[i]);
                        }
                    }
                },
                LookupModel::Failed(prereq, _) => {
                    lemma_fail_all_coherent(scope, seq![(id, ParseErrorModel::BadReference(prereq))]);
                },
                LookupModel::Complete(prereq, _, pos) => {
                    let rich = RichIdentifierModel { id: prereq, name };
                    lemma_provided(run(state).1, rich, pos);
                    lemma_advance_coherent(scope, id, provided(run(state).1, rich, pos));
                },
            }
        },
    }
}

/// Running the parses until none can go on leaves no parse waiting for a
/// parsed binding, if none waited for one before.
pub proof fn lemma_drive_coherent(scope: ScopeModel)
    requires
        scope.tasks_ready(),
        none_waits_for_complete(scope),
    ensures
        none_waits_for_complete(scope.drive()),
    decreases scope.load(),
{
    if scope.unblocked.len() > 0 {
        let next = scope.unblocked.last();
        lemma_without_next(scope);
        lemma_advance(scope.without_next(), next.id, next.state);
        lemma_advance_coherent(scope.without_next(), next.id, next.state);
        lemma_drive_coherent(scope.without_next().advance(next.id, next.state));
    }
}

/// Where no parse waits for a binding of another scope, every parse that
/// waits for a binding waits for one of the scope.
pub proof fn lemma_no_foreign(
    queue: Seq<(Identifier, OperationModel)>,
    names: Seq<(Identifier, Seq<char>)>,
)
    requires
        first_foreign(queue, names) is None,
    ensures
        forall|i: int| 0 <= i < queue.len() ==> named(names, (#[trigger] queue[i]).0),
    decreases queue.len(),
{
    if queue.len() > 0 {
        lemma_no_foreign(queue.drop_last(), names);
        assert forall|i: int| 0 <= i < queue.len() implies named(names, (#[trigger] queue[i]).0) by {
            if i < queue.len() - 1 {
                assert(queue.drop_last()[i] == queue[i]);
            }
        }
    }
}

/// Cycle detection: a block whose parses cannot go on ends with
/// `CyclicAssignments` exactly when nothing has failed, no parse waits
/// for a name or for a binding of another scope, and some parse waits.
/// Then every parse that waits does so for a binding of the block whose
/// own parse waits as well: the parses wait for each other.
pub proof fn law_cycle(scope: ScopeModel)
    requires
        scope.sound(),
        none_waits_for_complete(scope),
        scope.unblocked.len() == 0,
    ensures
        scope.verdict() == Err::<ParseResultModel, ParseErrorModel>(
            ParseErrorModel::CyclicAssignments,
        ) <==> scope.failed.len() == 0 && scope.blocked_on_name.len() == 0 && first_foreign(
            scope.blocked_on_id,
            scope.names,
        ) is None && scope.blocked_on_id.len() > 0,
        scope.verdict() == Err::<ParseResultModel, ParseErrorModel>(
            ParseErrorModel::CyclicAssignments,
        ) ==> forall|i: int|
            0 <= i < scope.blocked_on_id.len() ==> named(
                scope.names,
                (#[trigger] scope.blocked_on_id[i]).0,
            ) && queue_holds(scope.blocked_on_id, scope.blocked_on_id[i].0),
{
    if scope.verdict() == Err::<ParseResultModel, ParseErrorModel>(
        ParseErrorModel::CyclicAssignments,
    ) {
        lemma_no_foreign(scope.blocked_on_id, scope.names);
        assert forall|i: int| 0 <= i < scope.blocked_on_id.len() implies named(
            scope.names,
            (#[trigger] scope.blocked_on_id[i]).0,
        ) && queue_holds(scope.blocked_on_id, scope.blocked_on_id[i].0) by {
            let awaited = scope.blocked_on_id[i].0;
            assert(recorded(scope.complete, awaited) is None);
            law_at_most_one_place(scope, awaited);
            assert(!holds(scope.unblocked, awaited));
            assert(!queue_holds(scope.blocked_on_name, awaited));
        }
    }
}

/// Cycle detection: the same of a block whose parses are run until none
/// can go on, from a scope in which no parse waited for a parsed binding.
pub proof fn law_cycle_after_drive(scope: ScopeModel)
    requires
        scope.sound(),
        none_waits_for_complete(scope),
        scope.drive().verdict() == Err::<ParseResultModel, ParseErrorModel>(
            ParseErrorModel::CyclicAssignments,
        ),
    ensures
        scope.drive().blocked_on_id.len() > 0,
        forall|i: int|
            0 <= i < scope.drive().blocked_on_id.len() ==> named(
                scope.names,
                (#[trigger] scope.drive().blocked_on_id[i]).0,
            ) && queue_holds(scope.drive().blocked_on_id, scope.drive().blocked_on_id[i].0),
{
    lemma_drive_sound(scope);
    lemma_drive_coherent(scope);
    law_cycle(scope.drive());
}

} // verus!
