//! The model of a block's schedule: the parses of its assignments are run
//! one after another, each until it is complete, has failed, or waits for a
//! name; a parse that completes wakes the parses that waited for it. When
//! no parse can go on, what is left decides how the block ends.

use vstd::prelude::*;
use crate::error::ParseErrorModel;
use crate::expression::{ExpressionModel, Identifier, RichIdentifierModel};
use crate::frame::{
    frames_weight,
    lemma_provided,
    lemma_run_progress,
    provided,
    ready,
    run,
    FrameModel,
    ParseResultModel,
};
use crate::pos::PartOfSpeech;
use crate::scope::{
    all_ready,
    bad_references,
    lemma_split_ready,
    lemma_waiting_others_len,
    others,
    parked,
    recorded,
    resumed,
    waiting,
    LookupModel,
    OperationModel,
    ScopeModel,
};

verus! {

/// The work that a parse still stands for, and one step more for the parse itself.
pub open spec fn operation_weight(operation: OperationModel) -> nat {
    1 + frames_weight(operation.state)
}

/// The work that the parses still stand for.
pub open spec fn operations_weight(operations: Seq<OperationModel>) -> nat
    decreases operations.len(),
{
    if operations.len() == 0 {
        0
    } else {
        operations_weight(operations.drop_last()) + operation_weight(operations.last())
    }
}

/// The work that the parses of a queue still stand for.
pub open spec fn queue_weight<K>(queue: Seq<(K, OperationModel)>) -> nat
    decreases queue.len(),
{
    if queue.len() == 0 {
        0
    } else {
        queue_weight(queue.drop_last()) + operation_weight(queue.last().1)
    }
}

pub proof fn lemma_operations_weight_push(operations: Seq<OperationModel>, operation: OperationModel)
    ensures
        operations_weight(operations.push(operation)) == operations_weight(operations)
            + operation_weight(operation),
{
    assert(operations.push(operation).drop_last() =~= operations);
}

pub proof fn lemma_queue_weight_push<K>(queue: Seq<(K, OperationModel)>, entry: (K, OperationModel))
    ensures
        queue_weight(queue.push(entry)) == queue_weight(queue) + operation_weight(entry.1),
{
    assert(queue.push(entry).drop_last() =~= queue);
}

pub proof fn lemma_operations_weight_add(a: Seq<OperationModel>, b: Seq<OperationModel>)
    ensures
        operations_weight(a + b) == operations_weight(a) + operations_weight(b),
    decreases b.len(),
{
    if b.len() == 0 {
        assert(a + b =~= a);
    } else {
        assert((a + b).drop_last() =~= a + b.drop_last());
        lemma_operations_weight_add(a, b.drop_last());
    }
}

/// The weight of a queue is that of the parses that wait for a key and that of the others.
pub proof fn lemma_queue_weight_split<K>(queue: Seq<(K, OperationModel)>, key: K)
    ensures
        queue_weight(queue) == operations_weight(waiting(queue, key)) + queue_weight(
            others(queue, key),
        ),
    decreases queue.len(),
{
    if queue.len() > 0 {
        lemma_queue_weight_split(queue.drop_last(), key);
        if queue.last().0 == key {
            lemma_operations_weight_push(waiting(queue.drop_last(), key), queue.last().1);
        } else {
            lemma_queue_weight_push(others(queue.drop_last(), key), queue.last());
        }
    }
}

/// Parses that are made to wait weigh what they weighed.
pub proof fn lemma_queue_weight_parked<K>(
    queue: Seq<(K, OperationModel)>,
    operations: Seq<OperationModel>,
    key: K,
)
    ensures
        queue_weight(queue + parked(operations, key)) == queue_weight(queue) + operations_weight(
            operations,
        ),
    decreases operations.len(),
{
    if operations.len() == 0 {
        assert(queue + parked(operations, key) =~= queue);
    } else {
        assert((queue + parked(operations, key)).drop_last() =~= queue + parked(
            operations.drop_last(),
            key,
        ));
        lemma_queue_weight_parked(queue, operations.drop_last(), key);
    }
}

/// Parses that are told a part of speech weigh what they weighed, and are ready.
pub proof fn lemma_resumed(
    operations: Seq<OperationModel>,
    rich: RichIdentifierModel,
    pos: PartOfSpeech,
)
    requires
        all_ready(operations),
    ensures
        all_ready(resumed(operations, rich, pos)),
        operations_weight(resumed(operations, rich, pos)) == operations_weight(operations),
    decreases operations.len(),
{
    let woken = resumed(operations, rich, pos);
    assert forall|i: int| 0 <= i < woken.len() implies ready((#[trigger] woken[i]).state) by {
        lemma_provided(operations[i].state, rich, pos);
    }
    if operations.len() > 0 {
        assert(all_ready(operations.drop_last())) by {
            assert forall|i: int| 0 <= i < operations.drop_last().len() implies ready(
                (#[trigger] operations.drop_last()[i]).state,
            ) by {
                assert(operations.drop_last()[i] == operations[i]);
            }
        }
        lemma_resumed(operations.drop_last(), rich, pos);
        assert(woken.drop_last() =~= resumed(operations.drop_last(), rich, pos));
        lemma_provided(operations.last().state, rich, pos);
    }
}

impl ScopeModel {
    /// The work that the parses of the scope still stand for.
    pub open spec fn load(self) -> nat {
        operations_weight(self.unblocked) + queue_weight(self.blocked_on_name) + queue_weight(
            self.blocked_on_id,
        )
    }
}

/// A failure leaves the bindings, the parsed bindings and the parses that
/// can go on or wait for a name as they are. It adds no work, and the
/// parses stay ready.
pub proof fn lemma_fail_all(scope: ScopeModel, worklist: Seq<(Identifier, ParseErrorModel)>)
    ensures
        scope.fail_all(worklist).names == scope.names,
        scope.fail_all(worklist).complete == scope.complete,
        scope.fail_all(worklist).unblocked == scope.unblocked,
        scope.fail_all(worklist).blocked_on_name == scope.blocked_on_name,
        scope.fail_all(worklist).parent == scope.parent,
        scope.fail_all(worklist).next_id == scope.next_id,
        scope.fail_all(worklist).load() <= scope.load(),
        scope.tasks_ready() ==> scope.fail_all(worklist).tasks_ready(),
    decreases scope.blocked_on_id.len() + worklist.len(),
{
    if worklist.len() > 0 {
        let id = worklist.last().0;
        let recorded = ScopeModel {
            failed: scope.failed.push(worklist.last()),
            blocked_on_id: others(scope.blocked_on_id, id),
            ..scope
        };
        lemma_waiting_others_len(scope.blocked_on_id, id);
        lemma_queue_weight_split(scope.blocked_on_id, id);
        if scope.tasks_ready() {
            lemma_split_ready(scope.blocked_on_id, id);
        }
        lemma_fail_all(
            recorded,
            worklist.drop_last() + bad_references(waiting(scope.blocked_on_id, id), id),
        );
    }
}

/// Completing a binding leaves the bindings and the failures as they are.
/// It adds no work, and the parses stay ready.
pub proof fn lemma_complete(scope: ScopeModel, id: Identifier, expr: ExpressionModel, pos: PartOfSpeech)
    requires
        scope.tasks_ready(),
    ensures
        scope.complete(id, expr, pos).load() == scope.load(),
        scope.complete(id, expr, pos).tasks_ready(),
{
    let rich = RichIdentifierModel { id, name: scope.name_of_id(id).unwrap() };
    let woken = waiting(scope.blocked_on_id, id);
    lemma_split_ready(scope.blocked_on_id, id);
    lemma_queue_weight_split(scope.blocked_on_id, id);
    lemma_resumed(woken, rich, pos);
    lemma_operations_weight_add(scope.unblocked, resumed(woken, rich, pos));
}

impl ScopeModel {
    /// The scope after the parse of the assignment `id` has been run from
    /// `state` as far as it goes.
    ///
    /// An error fails the assignment. A result completes it. Where the
    /// parse stops for a name, the name is looked up as the assignment
    /// sees it: if nothing binds it, the parse waits for the name; if its
    /// binding has not been parsed, the parse waits for the binding; if
    /// the binding failed, the assignment fails with a reference to it;
    /// and if the binding has been parsed, the parse is told its part of
    /// speech and goes on.
    pub open spec fn advance(self, id: Identifier, state: Seq<FrameModel>) -> ScopeModel
        decreases frames_weight(state),
        when ready(state)
        via Self::advance_decreases
    {
        match run(state).0 {
            Err(error) => self.failed(id, error),
            Ok(ParseResultModel::Complete(expr, pos)) => self.complete(id, expr, pos),
            Ok(ParseResultModel::PendingId(_)) => self,
            Ok(ParseResultModel::PendingName(name)) => {
                let operation = OperationModel { id, state: run(state).1 };
                match self.lookup(name, id) {
                    LookupModel::Unknown => self.park_on_name(name, operation),
                    LookupModel::Pending(prereq) => self.park_on_id(prereq, operation),
                    LookupModel::Failed(prereq, _) => self.failed(
                        id,
                        ParseErrorModel::BadReference(prereq),
                    ),
                    LookupModel::Complete(prereq, _, pos) => self.advance(
                        id,
                        provided(run(state).1, RichIdentifierModel { id: prereq, name }, pos),
                    ),
                }
            },
        }
    }

    #[via_fn]
    proof fn advance_decreases(self, id: Identifier, state: Seq<FrameModel>) {
        lemma_run_progress(state);
        match run(state).0 {
            Ok(ParseResultModel::PendingName(name)) => {
                match self.lookup(name, id) {
                    LookupModel::Complete(prereq, _, pos) => {
                        lemma_provided(run(state).1, RichIdentifierModel { id: prereq, name }, pos);
                    },
                    _ => {},
                }
            },
            _ => {},
        }
    }
}

/// Running one parse as far as it goes leaves the bindings as they are,
/// leaves the parses ready, and leaves no more work than the scope and the
/// parse held, less the step that was taken.
pub proof fn lemma_advance(scope: ScopeModel, id: Identifier, state: Seq<FrameModel>)
    requires
        scope.tasks_ready(),
        ready(state),
    ensures
        scope.advance(id, state).tasks_ready(),
        scope.advance(id, state).load() <= scope.load() + frames_weight(state),
        scope.advance(id, state).names == scope.names,
        scope.advance(id, state).parent == scope.parent,
        scope.advance(id, state).next_id == scope.next_id,
    decreases frames_weight(state),
{
    lemma_run_progress(state);
    match run(state).0 {
        Err(error) => {
            lemma_fail_all(scope, seq![(id, error)]);
        },
        Ok(ParseResultModel::Complete(expr, pos)) => {
            lemma_complete(scope, id, expr, pos);
        },
        Ok(ParseResultModel::PendingId(_)) => {},
        Ok(ParseResultModel::PendingName(name)) => {
            let operation = OperationModel { id, state: run(state).1 };
            match scope.lookup(name, id) {
                LookupModel::Unknown => {
                    lemma_queue_weight_push(scope.blocked_on_name, (name, operation));
                },
                LookupModel::Pending(prereq) => {
                    lemma_queue_weight_push(scope.blocked_on_id, (prereq, operation));
                },
                LookupModel::Failed(prereq, _) => {
                    lemma_fail_all(scope, seq![(id, ParseErrorModel::BadReference(prereq))]);
                },
                LookupModel::Complete(prereq, _, pos) => {
                    let rich = RichIdentifierModel { id: prereq, name };
                    lemma_provided(run(state).1, rich, pos);
                    lemma_advance(scope, id, provided(run(state).1, rich, pos));
                },
            }
        },
    }
}

impl ScopeModel {
    /// The scope without the parse that is next to run.
    pub open spec fn without_next(self) -> ScopeModel {
        ScopeModel { unblocked: self.unblocked.drop_last(), ..self }
    }

    /// The scope after its parses have been run until none can go on: the
    /// parse that came last among those that can go on is taken and run as
    /// far as it goes, again and again.
    pub open spec fn drive(self) -> ScopeModel
        decreases self.load(),
        when self.tasks_ready()
        via Self::drive_decreases
    {
        if self.unblocked.len() == 0 {
            self
        } else {
            self.without_next().advance(
                self.unblocked.last().id,
                self.unblocked.last().state,
            ).drive()
        }
    }

    #[via_fn]
    proof fn drive_decreases(self) {
        if self.unblocked.len() > 0 {
            lemma_without_next(self);
            lemma_advance(
                self.without_next(),
                self.unblocked.last().id,
                self.unblocked.last().state,
            );
        }
    }
}

/// Taking the next parse out of a scope takes its weight out, and leaves the rest ready.
pub proof fn lemma_without_next(scope: ScopeModel)
    requires
        scope.tasks_ready(),
        scope.unblocked.len() > 0,
    ensures
        scope.without_next().tasks_ready(),
        ready(scope.unblocked.last().state),
        scope.load() == scope.without_next().load() + operation_weight(scope.unblocked.last()),
{
    assert forall|i: int| 0 <= i < scope.unblocked.drop_last().len() implies ready(
        (#[trigger] scope.unblocked.drop_last()[i]).state,
    ) by {
        assert(scope.unblocked.drop_last()[i] == scope.unblocked[i]);
    }
    assert(ready(scope.unblocked[scope.unblocked.len() - 1].state));
}

/// Running the parses until none can go on leaves none that can go on,
/// and leaves the bindings as they are.
pub proof fn lemma_drive(scope: ScopeModel)
    requires
        scope.tasks_ready(),
    ensures
        scope.drive().tasks_ready(),
        scope.drive().unblocked.len() == 0,
        scope.drive().names == scope.names,
        scope.drive().parent == scope.parent,
        scope.drive().next_id == scope.next_id,
    decreases scope.load(),
{
    if scope.unblocked.len() > 0 {
        lemma_without_next(scope);
        let next = scope.unblocked.last();
        lemma_advance(scope.without_next(), next.id, next.state);
        lemma_drive(scope.without_next().advance(next.id, next.state));
    }
}

} // verus!
