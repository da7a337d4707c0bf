//! How failure spreads: when a binding fails, every parse that waited for
//! it, directly or through other parses, fails with a reference to the
//! binding that it waited for.

use vstd::prelude::*;
use crate::census::lemma_count_recorded;
use crate::error::ParseErrorModel;
use crate::expression::{ExpressionModel, Identifier, RichIdentifierModel};
use crate::frame::{
    frames_weight,
    lemma_provided,
    lemma_run_progress,
    provided,
    ready,
    run,
    FrameModel,
    ParseResultModel,
};
use crate::pos::PartOfSpeech;
use crate::schedule::{lemma_advance, lemma_without_next};
use crate::scope::{
    bad_references,
    lemma_lookup_by_id_keeps_id,
    lemma_others_without_key,
    lemma_waiting_others_len,
    others,
    waiting,
    LookupModel,
    OperationModel,
    ScopeModel,
};
use crate::soundness::{holds, listed};

verus! {

/// Whether the parse of the binding `waiter` waits for the binding `awaited`.
pub open spec fn waits_for(
    queue: Seq<(Identifier, OperationModel)>,
    waiter: Identifier,
    awaited: Identifier,
) -> bool {
    exists|i: int|
        0 <= i < queue.len() && (#[trigger] queue[i]).0 == awaited && queue[i].1.id == waiter
}

/// Whether the parse of `waiter` waits for `awaited` through `steps`
/// parses: it waits for a binding whose parse waits for a binding, and so
/// on to `awaited`.
pub open spec fn reaches(
    queue: Seq<(Identifier, OperationModel)>,
    waiter: Identifier,
    awaited: Identifier,
    steps: nat,
) -> bool
    decreases steps,
{
    if steps == 0 {
        waiter == awaited
    } else {
        exists|between: Identifier| #[trigger]
            waits_for(queue, waiter, between) && reaches(
                queue,
                between,
                awaited,
                (steps - 1) as nat,
            )
    }
}

/// Whether the failure is a reference to a binding that the parse of the
/// failed binding waited for in `queue`.
pub open spec fn refers_to_awaited(
    failure: (Identifier, ParseErrorModel),
    queue: Seq<(Identifier, OperationModel)>,
) -> bool {
    exists|awaited: Identifier|
        failure.1 == ParseErrorModel::BadReference(awaited) && #[trigger] waits_for(
            queue,
            failure.0,
            awaited,
        )
}

/// Whether the binding `id` is recorded to have failed with a reference to
/// a binding that its parse waited for in `queue`.
pub open spec fn failed_by_reference(
    failed: Seq<(Identifier, ParseErrorModel)>,
    queue: Seq<(Identifier, OperationModel)>,
    id: Identifier,
) -> bool {
    exists|k: int|
        0 <= k < failed.len() && (#[trigger] failed[k]).0 == id && refers_to_awaited(
            failed[k],
            queue,
        )
}

/// A parse that waits for a key is among those that wait for it, and a
/// parse that waits for another key is among the others.
proof fn lemma_waits_split(
    queue: Seq<(Identifier, OperationModel)>,
    key: Identifier,
    waiter: Identifier,
    awaited: Identifier,
)
    ensures
        waits_for(queue, waiter, key) ==> holds(waiting(queue, key), waiter),
        holds(waiting(queue, key), waiter) ==> waits_for(queue, waiter, key),
        waits_for(queue, waiter, awaited) && awaited != key ==> waits_for(
            others(queue, key),
            waiter,
            awaited,
        ),
        waits_for(others(queue, key), waiter, awaited) ==> waits_for(queue, waiter, awaited),
    decreases queue.len(),
{
    if queue.len() > 0 {
        let front = queue.drop_last();
        let last = queue.last();
        lemma_waits_split(front, key, waiter, awaited);
        if waits_for(queue, waiter, key) {
            let i = choose|i: int|
                0 <= i < queue.len() && (#[trigger] queue[i]).0 == key && queue[i].1.id == waiter;
            if i < front.len() {
                assert(front[i].0 == key && front[i].1.id == waiter);
                let j = choose|j: int|
                    0 <= j < waiting(front, key).len() && (#[trigger] waiting(front, key)[j]).id
                        == waiter;
                assert(waiting(queue, key)[j].id == waiter);
            } else {
                assert(waiting(queue, key)[waiting(queue, key).len() - 1].id == waiter);
            }
        }
        if holds(waiting(queue, key), waiter) {
            let j = choose|j: int|
                0 <= j < waiting(queue, key).len() && (#[trigger] waiting(queue, key)[j]).id
                    == waiter;
            if j < waiting(front, key).len() {
                assert(waiting(front, key)[j].id == waiter);
                let i = choose|i: int|
                    0 <= i < front.len() && (#[trigger] front[i]).0 == key && front[i].1.id
                        == waiter;
                assert(queue[i].0 == key && queue[i].1.id == waiter);
            } else {
                assert(queue[queue.len() - 1].0 == key && queue[queue.len() - 1].1.id == waiter);
            }
        }
        if waits_for(queue, waiter, awaited) && awaited != key {
            let i = choose|i: int|
                0 <= i < queue.len() && (#[trigger] queue[i]).0 == awaited && queue[i].1.id
                    == waiter;
            if i < front.len() {
                assert(front[i].0 == awaited && front[i].1.id == waiter);
                let j = choose|j: int|
                    0 <= j < others(front, key).len() && (#[trigger] others(front, key)[j]).0
                        == awaited && others(front, key)[j].1.id == waiter;
                assert(others(queue, key)[j].0 == awaited && others(queue, key)[j].1.id == waiter);
            } else {
                let j = others(queue, key).len() - 1;
                assert(others(queue, key)[j].0 == awaited && others(queue, key)[j].1.id == waiter);
            }
        }
        if waits_for(others(queue, key), waiter, awaited) {
            let j = choose|j: int|
                0 <= j < others(queue, key).len() && (#[trigger] others(queue, key)[j]).0
                    == awaited && others(queue, key)[j].1.id == waiter;
            if j < others(front, key).len() {
                assert(others(front, key)[j].0 == awaited && others(front, key)[j].1.id == waiter);
                let i = choose|i: int|
                    0 <= i < front.len() && (#[trigger] front[i]).0 == awaited && front[i].1.id
                        == waiter;
                assert(queue[i].0 == awaited && queue[i].1.id == waiter);
            } else {
                assert(queue[queue.len() - 1].0 == awaited && queue[queue.len() - 1].1.id
                    == waiter);
            }
        }
    }
}

/// A failure keeps every failure that was recorded before it, in its place.
pub proof fn lemma_fail_all_keeps(scope: ScopeModel, worklist: Seq<(Identifier, ParseErrorModel)>)
    ensures
        scope.fail_all(worklist).failed.len() >= scope.failed.len(),
        forall|k: int|
            0 <= k < scope.failed.len() ==> #[trigger] scope.fail_all(worklist).failed[k]
                == scope.failed[k],
    decreases scope.blocked_on_id.len() + worklist.len(),
{
    if worklist.len() > 0 {
        let id = worklist.last().0;
        let step = ScopeModel {
            failed: scope.failed.push(worklist.last()),
            blocked_on_id: others(scope.blocked_on_id, id),
            ..scope
        };
        lemma_waiting_others_len(scope.blocked_on_id, id);
        lemma_fail_all_keeps(
            step,
            worklist.drop_last() + bad_references(waiting(scope.blocked_on_id, id), id),
        );
        assert forall|k: int| 0 <= k < scope.failed.len() implies #[trigger] scope.fail_all(
            worklist,
        ).failed[k] == scope.failed[k] by {
            assert(step.failed[k] == scope.failed[k]);
        }
    }
}

/// A failure records every failure that it was given.
pub proof fn lemma_fail_all_records(scope: ScopeModel, worklist: Seq<(Identifier, ParseErrorModel)>)
    ensures
        forall|j: int|
            0 <= j < worklist.len() ==> exists|k: int|
                0 <= k < scope.fail_all(worklist).failed.len() && #[trigger] scope.fail_all(
                    worklist,
                ).failed[k] == #[trigger] worklist[j],
    decreases scope.blocked_on_id.len() + worklist.len(),
{
    if worklist.len() > 0 {
        let id = worklist.last().0;
        let step = ScopeModel {
            failed: scope.failed.push(worklist.last()),
            blocked_on_id: others(scope.blocked_on_id, id),
            ..scope
        };
        let more = worklist.drop_last() + bad_references(waiting(scope.blocked_on_id, id), id);
        let after = scope.fail_all(worklist);
        lemma_waiting_others_len(scope.blocked_on_id, id);
        lemma_fail_all_records(step, more);
        lemma_fail_all_keeps(step, more);
        assert forall|j: int| 0 <= j < worklist.len() implies exists|k: int|
            0 <= k < after.failed.len() && #[trigger] after.failed[k] == #[trigger] worklist[j] by {
            if j < worklist.len() - 1 {
                assert(more[j] == worklist[j]);
                let k = choose|k: int|
                    0 <= k < after.failed.len() && #[trigger] after.failed[k] == more[j];
                assert(after.failed[k] == worklist[j]);
            } else {
                let k = scope.failed.len() as int;
                assert(step.failed[k] == worklist[j]);
                assert(after.failed[k] == worklist[j]);
            }
        }
    }
}

/// Whether every failure of `worklist` but the last `own` ones is that of a
/// parse that waited in `queue`, with a reference to what it waited for.
pub open spec fn justified(
    worklist: Seq<(Identifier, ParseErrorModel)>,
    queue: Seq<(Identifier, OperationModel)>,
    own: int,
) -> bool {
    forall|j: int| own <= j < worklist.len() ==> refers_to_awaited(#[trigger] worklist[j], queue)
}

/// A parse that waits, through others, for a binding whose failure is
/// about to be recorded either waits for the binding that is recorded
/// next, or still waits, through others, for a binding whose failure is
/// about to be recorded after that.
proof fn lemma_reaches_step(
    queue: Seq<(Identifier, OperationModel)>,
    worklist: Seq<(Identifier, ParseErrorModel)>,
    waiter: Identifier,
    awaited: Identifier,
    steps: nat,
)
    requires
        worklist.len() > 0,
        steps >= 1,
        listed(worklist, awaited),
        reaches(queue, waiter, awaited, steps),
    ensures
        holds(waiting(queue, worklist.last().0), waiter) || exists|next: Identifier, fewer: nat|
            fewer >= 1 && listed(
                worklist.drop_last() + bad_references(waiting(queue, worklist.last().0), worklist.last().0),
                next,
            ) && #[trigger] reaches(others(queue, worklist.last().0), waiter, next, fewer),
    decreases steps,
{
    let id = worklist.last().0;
    let waiters = waiting(queue, id);
    let more = worklist.drop_last() + bad_references(waiters, id);
    let rest = others(queue, id);
    let between = choose|between: Identifier| #[trigger]
        waits_for(queue, waiter, between) && reaches(queue, between, awaited, (steps - 1) as nat);
    lemma_waits_split(queue, id, waiter, between);
    if between != id {
        assert(waits_for(rest, waiter, between));
        if steps == 1 {
            assert(between == awaited);
            let j = choose|j: int| 0 <= j < worklist.len() && (#[trigger] worklist[j]).0 == awaited;
            assert(j < worklist.len() - 1);
            assert(more[j].0 == awaited);
            assert(listed(more, awaited));
            assert(reaches(rest, awaited, awaited, 0));
            assert(reaches(rest, waiter, awaited, 1));
        } else {
            lemma_reaches_step(queue, worklist, between, awaited, (steps - 1) as nat);
            if holds(waiters, between) {
                let j = choose|j: int| 0 <= j < waiters.len() && (#[trigger] waiters[j]).id
                    == between;
                assert(more[worklist.len() - 1 + j].0 == between);
                assert(listed(more, between));
                assert(reaches(rest, between, between, 0));
                assert(reaches(rest, waiter, between, 1));
            } else {
                let (next, fewer) = choose|next: Identifier, fewer: nat|
                    fewer >= 1 && listed(more, next) && #[trigger] reaches(
                        rest,
                        between,
                        next,
                        fewer,
                    );
                assert(reaches(rest, waiter, next, fewer + 1)) by {
                    assert(waits_for(rest, waiter, between) && reaches(
                        rest,
                        between,
                        next,
                        ((fewer + 1) - 1) as nat,
                    ));
                }
            }
        }
    }
}

/// A failure records, for every parse that waited, directly or through
/// others, for one of the bindings whose failure it was given, that the
/// parse failed with a reference to a binding that it waited for.
proof fn lemma_fail_all_reaches(
    scope: ScopeModel,
    worklist: Seq<(Identifier, ParseErrorModel)>,
    origin: Seq<(Identifier, OperationModel)>,
    own: int,
    waiter: Identifier,
    awaited: Identifier,
    steps: nat,
)
    requires
        0 <= own,
        justified(worklist, origin, own),
        forall|a: Identifier, b: Identifier|
            waits_for(scope.blocked_on_id, a, b) ==> #[trigger] waits_for(origin, a, b),
        steps >= 1,
        listed(worklist, awaited),
        reaches(scope.blocked_on_id, waiter, awaited, steps),
    ensures
        failed_by_reference(scope.fail_all(worklist).failed, origin, waiter),
    decreases scope.blocked_on_id.len() + worklist.len(),
{
    let j0 = choose|j: int| 0 <= j < worklist.len() && (#[trigger] worklist[j]).0 == awaited;
    let id = worklist.last().0;
    let queue = scope.blocked_on_id;
    let waiters = waiting(queue, id);
    let rest = others(queue, id);
    let more = worklist.drop_last() + bad_references(waiters, id);
    let step = ScopeModel { failed: scope.failed.push(worklist.last()), blocked_on_id: rest, ..scope };
    let after = scope.fail_all(worklist);
    lemma_waiting_others_len(queue, id);
    assert(justified(more, origin, own)) by {
        assert forall|j: int| own <= j < more.len() implies refers_to_awaited(
            #[trigger] more[j],
            origin,
        ) by {
            if j < worklist.len() - 1 {
                assert(more[j] == worklist[j]);
                assert(refers_to_awaited(worklist[j], origin));
            } else {
                let w = j - (worklist.len() - 1);
                assert(more[j] == (waiters[w].id, ParseErrorModel::BadReference(id)));
                assert(holds(waiters, waiters[w].id));
                lemma_waits_split(queue, id, waiters[w].id, id);
                assert(waits_for(queue, waiters[w].id, id));
                assert(waits_for(origin, waiters[w].id, id));
                assert(more[j].1 == ParseErrorModel::BadReference(id) && waits_for(
                    origin,
                    more[j].0,
                    id,
                ));
            }
        }
    }
    assert forall|a: Identifier, b: Identifier| waits_for(rest, a, b) implies #[trigger] waits_for(
        origin,
        a,
        b,
    ) by {
        lemma_waits_split(queue, id, a, b);
        assert(waits_for(queue, a, b));
    }
    lemma_reaches_step(queue, worklist, waiter, awaited, steps);
    if holds(waiters, waiter) {
        let w = choose|w: int| 0 <= w < waiters.len() && (#[trigger] waiters[w]).id == waiter;
        let j = worklist.len() - 1 + w;
        assert(more[j] == (waiter, ParseErrorModel::BadReference(id)));
        lemma_fail_all_records(step, more);
        let k = choose|k: int| 0 <= k < after.failed.len() && #[trigger] after.failed[k] == more[j];
        lemma_waits_split(queue, id, waiter, id);
        assert(waits_for(origin, waiter, id));
        assert(after.failed[k].0 == waiter && refers_to_awaited(after.failed[k], origin));
    } else {
        let (next, fewer) = choose|next: Identifier, fewer: nat|
            fewer >= 1 && listed(more, next) && #[trigger] reaches(rest, waiter, next, fewer);
        lemma_fail_all_reaches(step, more, origin, own, waiter, next, fewer);
    }
}

/// Failure propagation: when a binding fails, every parse that waited for
/// it, directly or through other parses, is recorded to have failed with a
/// reference to a binding that it waited for; and the failure of the
/// binding itself is recorded with its error.
pub proof fn law_failure_propagates(
    scope: ScopeModel,
    id: Identifier,
    error: ParseErrorModel,
    waiter: Identifier,
    steps: nat,
)
    requires
        steps >= 1,
        reaches(scope.blocked_on_id, waiter, id, steps),
    ensures
        failed_by_reference(scope.failed(id, error).failed, scope.blocked_on_id, waiter),
        exists|k: int|
            0 <= k < scope.failed(id, error).failed.len() && #[trigger] scope.failed(
                id,
                error,
            ).failed[k] == (id, error),
{
    let worklist = seq![(id, error)];
    assert(worklist[0].0 == id);
    assert(listed(worklist, id));
    lemma_fail_all_reaches(scope, worklist, scope.blocked_on_id, 1, waiter, id, steps);
    lemma_fail_all_records(scope, worklist);
    let k = choose|k: int|
        0 <= k < scope.fail_all(worklist).failed.len() && #[trigger] scope.fail_all(worklist).failed[k]
            == worklist[0];
    assert(scope.failed(id, error).failed[k] == (id, error));
}

/// Whether no parse waits for a binding that is recorded to have failed.
pub open spec fn none_waits_for_failed(scope: ScopeModel) -> bool {
    forall|i: int, k: int|
        0 <= i < scope.blocked_on_id.len() && 0 <= k < scope.failed.len() ==> (
        #[trigger] scope.blocked_on_id[i]).0 != (#[trigger] scope.failed[k]).0
}

/// A failure, and what follows from it, leaves no parse waiting for a
/// binding that has failed, if none waited for one before.
proof fn lemma_fail_all_leaves_none(scope: ScopeModel, worklist: Seq<(Identifier, ParseErrorModel)>)
    requires
        none_waits_for_failed(scope),
    ensures
        none_waits_for_failed(scope.fail_all(worklist)),
    decreases scope.blocked_on_id.len() + worklist.len(),
{
    if worklist.len() > 0 {
        let id = worklist.last().0;
        let rest = others(scope.blocked_on_id, id);
        let step = ScopeModel {
            failed: scope.failed.push(worklist.last()),
            blocked_on_id: rest,
            ..scope
        };
        lemma_waiting_others_len(scope.blocked_on_id, id);
        lemma_others_without_key(scope.blocked_on_id, id);
        assert forall|i: int, k: int|
            0 <= i < step.blocked_on_id.len() && 0 <= k < step.failed.len() implies (
        #[trigger] step.blocked_on_id[i]).0 != (#[trigger] step.failed[k]).0 by {
            let j = choose|j: int|
                0 <= j < scope.blocked_on_id.len() && scope.blocked_on_id[j] == rest[i];
            if k < scope.failed.len() {
                assert(scope.blocked_on_id[j].0 != scope.failed[k].0);
            }
        }
        lemma_fail_all_leaves_none(
            step,
            worklist.drop_last() + bad_references(waiting(scope.blocked_on_id, id), id),
        );
    }
}

/// Failure propagation: a failure leaves no parse waiting for a binding
/// that has failed, if none waited for one before.
pub proof fn law_failure_leaves_no_waiter(scope: ScopeModel, id: Identifier, error: ParseErrorModel)
    requires
        none_waits_for_failed(scope),
    ensures
        none_waits_for_failed(scope.failed(id, error)),
{
    lemma_fail_all_leaves_none(scope, seq![(id, error)]);
}

/// Completing a binding leaves no parse waiting for a failed binding, if
/// none waited for one before.
pub proof fn lemma_complete_leaves_none(
    scope: ScopeModel,
    id: Identifier,
    expr: ExpressionModel,
    pos: PartOfSpeech,
)
    requires
        none_waits_for_failed(scope),
    ensures
        none_waits_for_failed(scope.complete(id, expr, pos)),
{
    let after = scope.complete(id, expr, pos);
    lemma_others_without_key(scope.blocked_on_id, id);
    assert forall|i: int, k: int|
        0 <= i < after.blocked_on_id.len() && 0 <= k < after.failed.len() implies (
    #[trigger] after.blocked_on_id[i]).0 != (#[trigger] after.failed[k]).0 by {
        let j = choose|j: int|
            0 <= j < scope.blocked_on_id.len() && scope.blocked_on_id[j] == after.blocked_on_id[i];
        assert(scope.blocked_on_id[j].0 != scope.failed[k].0);
    }
}

/// Running one parse as far as it goes leaves no parse waiting for a
/// failed binding, if none waited for one before: a parse is made to wait
/// only for a binding of which nothing has come yet.
pub proof fn lemma_advance_leaves_none(scope: ScopeModel, id: Identifier, state: Seq<FrameModel>)
    requires
        none_waits_for_failed(scope),
        ready(state),
    ensures
        none_waits_for_failed(scope.advance(id, state)),
    decreases frames_weight(state),
{
    lemma_run_progress(state);
    match run(state).0 {
        Err(error) => {
            lemma_fail_all_leaves_none(scope, seq![(id, error)]);
        },
        Ok(ParseResultModel::Complete(expr, pos)) => {
            lemma_complete_leaves_none(scope, id, expr, pos);
        },
        Ok(ParseResultModel::PendingId(_)) => {},
        Ok(ParseResultModel::PendingName(name)) => {
            let operation = OperationModel { id, state: run(state).1 };
            match scope.lookup(name, id) {
                LookupModel::Unknown => {},
                LookupModel::Pending(prereq) => {
                    let found = scope.lookup_identifier(name, id)->Some_0;
                    lemma_lookup_by_id_keeps_id(scope, found);
                    lemma_count_recorded(scope.failed, prereq);
                    let after = scope.park_on_id(prereq, operation);
                    assert forall|i: int, k: int|
                        0 <= i < after.blocked_on_id.len() && 0 <= k < after.failed.len() implies (
                    #[trigger] after.blocked_on_id[i]).0 != (#[trigger] after.failed[k]).0 by {
                        if i < scope.blocked_on_id.len() {
                            assert(scope.blocked_on_id[i].0 != scope.failed[k].0);
                        }
                    }
                },
                LookupModel::Failed(prereq, _) => {
                    lemma_fail_all_leaves_none(
                        scope,
                        seq![(id, ParseErrorModel::BadReference(prereq))],
                    );
                },
                LookupModel::Complete(prereq, _, pos) => {
                    let rich = RichIdentifierModel { id: prereq, name };
                    lemma_provided(run(state).1, rich, pos);
                    lemma_advance_leaves_none(scope, id, provided(run(state).1, rich, pos));
                },
            }
        },
    }
}

/// Failure propagation: when the parses of a block can go on no more, no
/// parse is left waiting for a binding that has failed, if none waited
/// for one when they started. An assignment whose parse came to wait for
/// a binding that failed has failed with it.
pub proof fn law_no_parse_waits_for_a_failed_binding(scope: ScopeModel)
    requires
        scope.tasks_ready(),
        none_waits_for_failed(scope),
    ensures
        none_waits_for_failed(scope.drive()),
    decreases scope.load(),
{
    if scope.unblocked.len() > 0 {
        let next = scope.unblocked.last();
        lemma_without_next(scope);
        lemma_advance(scope.without_next(), next.id, next.state);
        lemma_advance_leaves_none(scope.without_next(), next.id, next.state);
        law_no_parse_waits_for_a_failed_binding(scope.without_next().advance(next.id, next.state));
    }
}

} // verus!
