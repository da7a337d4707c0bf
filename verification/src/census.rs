//! The census of a scope: in how many places a binding appears. The
//! schedule of a block moves bindings from place to place and never
//! loses or doubles one.

use vstd::prelude::*;
use crate::error::ParseErrorModel;
use crate::expression::{reference, ExpressionModel, Identifier, RichIdentifierModel};
use crate::frame::{
    frames_weight,
    lemma_provided,
    lemma_run_progress,
    provided,
    ready,
    run,
    FrameModel,
    ParseResultModel,
};
use crate::parsnip::fresh;
use crate::pos::PartOfSpeech;
use crate::schedule::{lemma_advance, lemma_without_next};
use crate::scope::{
    bad_references,
    lemma_waiting_others_len,
    others,
    parked,
    recorded,
    resumed,
    waiting,
    LookupModel,
    OperationModel,
    ScopeModel,
};
use crate::terms::TermModel;

verus! {

/// One if the condition holds, else nothing.
pub open spec fn one_if(condition: bool) -> nat {
    if condition {
        1
    } else {
        0
    }
}

/// How many of the entries are recorded under the identifier `id`.
pub open spec fn count_entries<V>(entries: Seq<(Identifier, V)>, id: Identifier) -> nat
    decreases entries.len(),
{
    if entries.len() == 0 {
        0
    } else {
        count_entries(entries.drop_last(), id) + one_if(entries.last().0 == id)
    }
}

/// How many of the parses belong to the binding `id`.
pub open spec fn count_operations(operations: Seq<OperationModel>, id: Identifier) -> nat
    decreases operations.len(),
{
    if operations.len() == 0 {
        0
    } else {
        count_operations(operations.drop_last(), id) + one_if(operations.last().id == id)
    }
}

/// How many of the parses of the queue belong to the binding `id`.
pub open spec fn count_queue<K>(queue: Seq<(K, OperationModel)>, id: Identifier) -> nat
    decreases queue.len(),
{
    if queue.len() == 0 {
        0
    } else {
        count_queue(queue.drop_last(), id) + one_if(queue.last().1.id == id)
    }
}

impl ScopeModel {
    /// In how many places the binding `id` appears: among the parsed
    /// bindings, among the failed ones, and among the parses that can go on
    /// or wait for a name or for a binding.
    pub open spec fn census(self, id: Identifier) -> nat {
        count_entries(self.complete, id) + count_entries(self.failed, id) + count_operations(
            self.unblocked,
            id,
        ) + count_queue(self.blocked_on_name, id) + count_queue(self.blocked_on_id, id)
    }
}

pub proof fn lemma_count_entries_push<V>(entries: Seq<(Identifier, V)>, entry: (Identifier, V), id: Identifier)
    ensures
        count_entries(entries.push(entry), id) == count_entries(entries, id) + one_if(entry.0 == id),
{
    assert(entries.push(entry).drop_last() =~= entries);
}

pub proof fn lemma_count_operations_push(
    operations: Seq<OperationModel>,
    operation: OperationModel,
    id: Identifier,
)
    ensures
        count_operations(operations.push(operation), id) == count_operations(operations, id)
            + one_if(operation.id == id),
{
    assert(operations.push(operation).drop_last() =~= operations);
}

pub proof fn lemma_count_queue_push<K>(
    queue: Seq<(K, OperationModel)>,
    entry: (K, OperationModel),
    id: Identifier,
)
    ensures
        count_queue(queue.push(entry), id) == count_queue(queue, id) + one_if(entry.1.id == id),
{
    assert(queue.push(entry).drop_last() =~= queue);
}

pub proof fn lemma_count_entries_add<V>(a: Seq<(Identifier, V)>, b: Seq<(Identifier, V)>, id: Identifier)
    ensures
        count_entries(a + b, id) == count_entries(a, id) + count_entries(b, id),
    decreases b.len(),
{
    if b.len() == 0 {
        assert(a + b =~= a);
    } else {
        assert((a + b).drop_last() =~= a + b.drop_last());
        lemma_count_entries_add(a, b.drop_last(), id);
    }
}

pub proof fn lemma_count_operations_add(a: Seq<OperationModel>, b: Seq<OperationModel>, id: Identifier)
    ensures
        count_operations(a + b, id) == count_operations(a, id) + count_operations(b, id),
    decreases b.len(),
{
    if b.len() == 0 {
        assert(a + b =~= a);
    } else {
        assert((a + b).drop_last() =~= a + b.drop_last());
        lemma_count_operations_add(a, b.drop_last(), id);
    }
}

/// The parses of a queue are those that wait for a key and the others.
pub proof fn lemma_count_queue_split<K>(queue: Seq<(K, OperationModel)>, key: K, id: Identifier)
    ensures
        count_queue(queue, id) == count_operations(waiting(queue, key), id) + count_queue(
            others(queue, key),
            id,
        ),
    decreases queue.len(),
{
    if queue.len() > 0 {
        lemma_count_queue_split(queue.drop_last(), key, id);
        if queue.last().0 == key {
            lemma_count_operations_push(waiting(queue.drop_last(), key), queue.last().1, id);
        } else {
            lemma_count_queue_push(others(queue.drop_last(), key), queue.last(), id);
        }
    }
}

/// Parses that are made to wait are as many as they were.
pub proof fn lemma_count_queue_parked<K>(
    queue: Seq<(K, OperationModel)>,
    operations: Seq<OperationModel>,
    key: K,
    id: Identifier,
)
    ensures
        count_queue(queue + parked(operations, key), id) == count_queue(queue, id)
            + count_operations(operations, id),
    decreases operations.len(),
{
    if operations.len() == 0 {
        assert(queue + parked(operations, key) =~= queue);
    } else {
        assert((queue + parked(operations, key)).drop_last() =~= queue + parked(
            operations.drop_last(),
            key,
        ));
        lemma_count_queue_parked(queue, operations.drop_last(), key, id);
    }
}

/// Parses that are told a part of speech are as many as they were.
pub proof fn lemma_count_resumed(
    operations: Seq<OperationModel>,
    rich: RichIdentifierModel,
    pos: PartOfSpeech,
    id: Identifier,
)
    ensures
        count_operations(resumed(operations, rich, pos), id) == count_operations(operations, id),
    decreases operations.len(),
{
    if operations.len() > 0 {
        assert(resumed(operations, rich, pos).drop_last() =~= resumed(
            operations.drop_last(),
            rich,
            pos,
        ));
        lemma_count_resumed(operations.drop_last(), rich, pos, id);
    }
}

/// The failures of the parses that waited are as many as the parses.
pub proof fn lemma_count_bad_references(waiters: Seq<OperationModel>, awaited: Identifier, id: Identifier)
    ensures
        count_entries(bad_references(waiters, awaited), id) == count_operations(waiters, id),
    decreases waiters.len(),
{
    if waiters.len() > 0 {
        assert(bad_references(waiters, awaited).drop_last() =~= bad_references(
            waiters.drop_last(),
            awaited,
        ));
        lemma_count_bad_references(waiters.drop_last(), awaited, id);
    }
}

/// The parses in the opposite order are as many as they were.
pub proof fn lemma_count_reverse(operations: Seq<OperationModel>, id: Identifier)
    ensures
        count_operations(operations.reverse(), id) == count_operations(operations, id),
    decreases operations.len(),
{
    if operations.len() > 0 {
        let last = operations.last();
        let front = operations.drop_last();
        assert(operations.reverse() =~= seq![last] + front.reverse());
        lemma_count_operations_add(seq![last], front.reverse(), id);
        lemma_count_reverse(front, id);
        assert(seq![last] =~= Seq::<OperationModel>::empty().push(last));
        lemma_count_operations_push(Seq::<OperationModel>::empty(), last, id);
    }
}

/// Something is recorded under an identifier exactly if an entry is
/// recorded under it.
pub proof fn lemma_count_recorded<V>(entries: Seq<(Identifier, V)>, id: Identifier)
    ensures
        recorded(entries, id) is Some <==> count_entries(entries, id) >= 1,
        count_entries(entries, id) >= 1 <==> exists|i: int|
            0 <= i < entries.len() && (#[trigger] entries[i]).0 == id,
    decreases entries.len(),
{
    if entries.len() > 0 {
        lemma_count_recorded(entries.drop_last(), id);
        if count_entries(entries.drop_last(), id) >= 1 {
            let i = choose|i: int|
                0 <= i < entries.drop_last().len() && (#[trigger] entries.drop_last()[i]).0 == id;
            assert(entries[i].0 == id);
        } else if entries.last().0 == id {
            assert(entries[entries.len() - 1].0 == id);
        }
        if exists|i: int| 0 <= i < entries.len() && (#[trigger] entries[i]).0 == id {
            let i = choose|i: int| 0 <= i < entries.len() && (#[trigger] entries[i]).0 == id;
            if i < entries.len() - 1 {
                assert(entries.drop_last()[i].0 == id);
            }
        }
    }
}

/// A parse of a binding is among the parses exactly if one is counted.
pub proof fn lemma_count_operations_holds(operations: Seq<OperationModel>, id: Identifier)
    ensures
        count_operations(operations, id) >= 1 <==> exists|i: int|
            0 <= i < operations.len() && (#[trigger] operations[i]).id == id,
    decreases operations.len(),
{
    if operations.len() > 0 {
        lemma_count_operations_holds(operations.drop_last(), id);
        if count_operations(operations.drop_last(), id) >= 1 {
            let i = choose|i: int|
                0 <= i < operations.drop_last().len() && (#[trigger] operations.drop_last()[i]).id
                    == id;
            assert(operations[i].id == id);
        } else if operations.last().id == id {
            assert(operations[operations.len() - 1].id == id);
        }
        if exists|i: int| 0 <= i < operations.len() && (#[trigger] operations[i]).id == id {
            let i = choose|i: int| 0 <= i < operations.len() && (#[trigger] operations[i]).id == id;
            if i < operations.len() - 1 {
                assert(operations.drop_last()[i].id == id);
            }
        }
    }
}

/// A parse of a binding is in the queue exactly if one is counted.
pub proof fn lemma_count_queue_holds<K>(queue: Seq<(K, OperationModel)>, id: Identifier)
    ensures
        count_queue(queue, id) >= 1 <==> exists|i: int|
            0 <= i < queue.len() && (#[trigger] queue[i]).1.id == id,
    decreases queue.len(),
{
    if queue.len() > 0 {
        lemma_count_queue_holds(queue.drop_last(), id);
        if count_queue(queue.drop_last(), id) >= 1 {
            let i = choose|i: int|
                0 <= i < queue.drop_last().len() && (#[trigger] queue.drop_last()[i]).1.id == id;
            assert(queue[i].1.id == id);
        } else if queue.last().1.id == id {
            assert(queue[queue.len() - 1].1.id == id);
        }
        if exists|i: int| 0 <= i < queue.len() && (#[trigger] queue[i]).1.id == id {
            let i = choose|i: int| 0 <= i < queue.len() && (#[trigger] queue[i]).1.id == id;
            if i < queue.len() - 1 {
                assert(queue.drop_last()[i].1.id == id);
            }
        }
    }
}

/// A failure moves every binding whose failure it records, and every
/// binding whose parse waited for one of them, to the failed bindings. It
/// loses none and doubles none.
pub proof fn lemma_fail_all_census(
    scope: ScopeModel,
    worklist: Seq<(Identifier, ParseErrorModel)>,
    id: Identifier,
)
    ensures
        scope.fail_all(worklist).census(id) == scope.census(id) + count_entries(worklist, id),
    decreases scope.blocked_on_id.len() + worklist.len(),
{
    if worklist.len() > 0 {
        let failed_id = worklist.last().0;
        let waiters = waiting(scope.blocked_on_id, failed_id);
        let step = ScopeModel {
            failed: scope.failed.push(worklist.last()),
            blocked_on_id: others(scope.blocked_on_id, failed_id),
            ..scope
        };
        let more = worklist.drop_last() + bad_references(waiters, failed_id);
        lemma_waiting_others_len(scope.blocked_on_id, failed_id);
        lemma_fail_all_census(step, more, id);
        lemma_count_entries_push(scope.failed, worklist.last(), id);
        lemma_count_queue_split(scope.blocked_on_id, failed_id, id);
        lemma_count_entries_add(worklist.drop_last(), bad_references(waiters, failed_id), id);
        lemma_count_bad_references(waiters, failed_id, id);
    }
}

/// A failure adds the binding that failed to the census, once.
pub proof fn lemma_failed_census(
    scope: ScopeModel,
    failed_id: Identifier,
    error: ParseErrorModel,
    id: Identifier,
)
    ensures
        scope.failed(failed_id, error).census(id) == scope.census(id) + one_if(failed_id == id),
{
    let worklist = seq![(failed_id, error)];
    lemma_fail_all_census(scope, worklist, id);
    assert(worklist =~= Seq::<(Identifier, ParseErrorModel)>::empty().push((failed_id, error)));
    lemma_count_entries_push(
        Seq::<(Identifier, ParseErrorModel)>::empty(),
        (failed_id, error),
        id,
    );
}

/// Completing a binding adds it to the census, once.
pub proof fn lemma_complete_census(
    scope: ScopeModel,
    complete_id: Identifier,
    expr: ExpressionModel,
    pos: PartOfSpeech,
    id: Identifier,
)
    ensures
        scope.complete(complete_id, expr, pos).census(id) == scope.census(id) + one_if(
            complete_id == id,
        ),
{
    let rich = RichIdentifierModel {
        id: complete_id,
        name: scope.name_of_id(complete_id).unwrap(),
    };
    let woken = waiting(scope.blocked_on_id, complete_id);
    lemma_count_entries_push(scope.complete, (complete_id, (expr, pos)), id);
    lemma_count_queue_split(scope.blocked_on_id, complete_id, id);
    lemma_count_resumed(woken, rich, pos, id);
    lemma_count_operations_add(scope.unblocked, resumed(woken, rich, pos), id);
}

/// Binding a name leaves the census as it is.
pub proof fn lemma_learn_name_census(scope: ScopeModel, name: Seq<char>, id: Identifier)
    ensures
        scope.learn_name(name).census(id) == scope.census(id),
{
    lemma_count_queue_split(scope.blocked_on_name, name, id);
    lemma_count_queue_parked(
        scope.blocked_on_id,
        waiting(scope.blocked_on_name, name),
        scope.next_id,
        id,
    );
}

/// Taking up an assignment adds its binding to the census, once.
pub proof fn lemma_begin_census(
    scope: ScopeModel,
    name: Seq<char>,
    terms: Seq<TermModel>,
    id: Identifier,
)
    ensures
        scope.begin(name, terms).census(id) == scope.census(id) + one_if(scope.next_id == id),
{
    lemma_learn_name_census(scope, name, id);
    lemma_count_operations_push(
        scope.learn_name(name).unblocked,
        OperationModel { id: scope.next_id, state: fresh(terms) },
        id,
    );
}

/// Binding a name to something that needs no parse adds the binding to the census, once.
pub proof fn lemma_add_builtin_census(
    scope: ScopeModel,
    name: Seq<char>,
    pos: PartOfSpeech,
    id: Identifier,
)
    ensures
        scope.add_builtin(name, pos).census(id) == scope.census(id) + one_if(scope.next_id == id),
{
    lemma_learn_name_census(scope, name, id);
    let rich = RichIdentifierModel { id: scope.next_id, name };
    lemma_count_entries_push(
        scope.learn_name(name).complete,
        (scope.next_id, (reference(rich), pos)),
        id,
    );
}

/// Running one parse as far as it goes adds its binding to the census,
/// once: the binding is parsed, or has failed, or its parse waits.
pub proof fn lemma_advance_census(
    scope: ScopeModel,
    running: Identifier,
    state: Seq<FrameModel>,
    id: Identifier,
)
    requires
        ready(state),
    ensures
        scope.advance(running, state).census(id) == scope.census(id) + one_if(running == id),
    decreases frames_weight(state),
{
    lemma_run_progress(state);
    match run(state).0 {
        Err(error) => {
            lemma_failed_census(scope, running, error, id);
        },
        Ok(ParseResultModel::Complete(expr, pos)) => {
            lemma_complete_census(scope, running, expr, pos, id);
        },
        Ok(ParseResultModel::PendingId(_)) => {},
        Ok(ParseResultModel::PendingName(name)) => {
            let operation = OperationModel { id: running, state: run(state).1 };
            match scope.lookup(name, running) {
                LookupModel::Unknown => {
                    lemma_count_queue_push(scope.blocked_on_name, (name, operation), id);
                },
                LookupModel::Pending(prereq) => {
                    lemma_count_queue_push(scope.blocked_on_id, (prereq, operation), id);
                },
                LookupModel::Failed(prereq, _) => {
                    lemma_failed_census(scope, running, ParseErrorModel::BadReference(prereq), id);
                },
                LookupModel::Complete(prereq, _, pos) => {
                    let rich = RichIdentifierModel { id: prereq, name };
                    lemma_provided(run(state).1, rich, pos);
                    lemma_advance_census(scope, running, provided(run(state).1, rich, pos), id);
                },
            }
        },
    }
}

/// Taking the next parse out of a scope takes its binding out of the census, once.
pub proof fn lemma_without_next_census(scope: ScopeModel, id: Identifier)
    requires
        scope.unblocked.len() > 0,
    ensures
        scope.census(id) == scope.without_next().census(id) + one_if(
            scope.unblocked.last().id == id,
        ),
{
}

/// Running the parses until none can go on leaves the census as it is.
pub proof fn lemma_drive_census(scope: ScopeModel, id: Identifier)
    requires
        scope.tasks_ready(),
    ensures
        scope.drive().census(id) == scope.census(id),
    decreases scope.load(),
{
    if scope.unblocked.len() > 0 {
        let next = scope.unblocked.last();
        lemma_without_next(scope);
        lemma_without_next_census(scope, id);
        lemma_advance(scope.without_next(), next.id, next.state);
        lemma_advance_census(scope.without_next(), next.id, next.state, id);
        lemma_drive_census(scope.without_next().advance(next.id, next.state), id);
    }
}

/// Telling the parses that waited for a binding of another scope leaves the census as it is.
pub proof fn lemma_wake_census(
    scope: ScopeModel,
    rich: RichIdentifierModel,
    pos: PartOfSpeech,
    id: Identifier,
)
    ensures
        scope.wake(rich, pos).census(id) == scope.census(id),
{
    let by_name = resumed(waiting(scope.blocked_on_name, rich.name), rich, pos);
    let by_id = resumed(waiting(scope.blocked_on_id, rich.id), rich, pos);
    lemma_count_queue_split(scope.blocked_on_name, rich.name, id);
    lemma_count_queue_split(scope.blocked_on_id, rich.id, id);
    lemma_count_resumed(waiting(scope.blocked_on_name, rich.name), rich, pos, id);
    lemma_count_resumed(waiting(scope.blocked_on_id, rich.id), rich, pos, id);
    lemma_count_operations_add(scope.unblocked, by_name, id);
    lemma_count_operations_add(scope.unblocked + by_name, by_id, id);
}

} // verus!
