//! Blocks: a batch of assignments that are parsed together, in a scope of their own.

use vstd::prelude::*;
use crate::census::{lemma_count_reverse, one_if};
use crate::error::{ParseError, ParseErrorModel};
use crate::expression::{
    binding_models,
    Expression,
    ExpressionModel,
    Identifier,
    RichIdentifier,
    RichIdentifierModel,
};
use crate::frame::{frames_weight, outcome_model, ready, Outcome, ParseResult, ParseResultModel};
use crate::parsnip::{ExpressionParsnip, Parsnip};
use crate::pos::PartOfSpeech;
use crate::schedule::{lemma_advance, lemma_without_next};
use crate::scope::{
    complete_models,
    find_name,
    id_queue_models,
    lemma_operation_models_drop_last,
    lemma_operation_models_push,
    lemma_split_ready,
    name_models,
    name_of,
    operation_models,
    others,
    recorded,
    resume_all,
    resumed,
    split_on_id,
    split_on_name,
    waiting,
    Assignment,
    AssignmentModel,
    OperationModel,
    ParseOperation,
    Resolution,
    Scope,
    ScopeModel,
};
use crate::soundness::{
    lemma_advance_sound,
    lemma_begin_sound,
    lemma_named_stands,
    lemma_results_named,
    lemma_running_is_open,
    lemma_settled_is_complete,
    lemma_wake_sound,
    lemma_without_next_sound,
    named,
};

verus! {

/// The name that a block binds its result to.
pub open spec fn result_name() -> Seq<char> {
    seq!['_']
}

/// The latest binding of `name`.
pub open spec fn latest(names: Seq<(Identifier, Seq<char>)>, name: Seq<char>) -> Option<Identifier>
    decreases names.len(),
{
    if names.len() == 0 {
        None
    } else if names.last().1 == name {
        Some(names.last().0)
    } else {
        latest(names.drop_last(), name)
    }
}

/// The binding that the oldest parse waits for among those that wait for a
/// binding of another scope.
pub open spec fn first_foreign(
    queue: Seq<(Identifier, OperationModel)>,
    names: Seq<(Identifier, Seq<char>)>,
) -> Option<Identifier>
    decreases queue.len(),
{
    if queue.len() == 0 {
        None
    } else {
        match first_foreign(queue.drop_last(), names) {
            Some(id) => Some(id),
            None => if named(names, queue.last().0) {
                None
            } else {
                Some(queue.last().0)
            },
        }
    }
}

/// The bindings of a block as its expression holds them: every parsed
/// binding but the result, each under its identifier and name, in the
/// order in which they were parsed.
pub open spec fn bindings(
    complete: Seq<(Identifier, (ExpressionModel, PartOfSpeech))>,
    names: Seq<(Identifier, Seq<char>)>,
    result: Identifier,
) -> Seq<(RichIdentifierModel, ExpressionModel)>
    decreases complete.len(),
{
    if complete.len() == 0 {
        Seq::empty()
    } else if complete.last().0 == result {
        bindings(complete.drop_last(), names, result)
    } else {
        bindings(complete.drop_last(), names, result).push(
            (
                RichIdentifierModel {
                    id: complete.last().0,
                    name: name_of(names, complete.last().0).unwrap(),
                },
                complete.last().1.0,
            ),
        )
    }
}

/// The latest binding of a name is one of the bindings.
pub proof fn lemma_latest_named(names: Seq<(Identifier, Seq<char>)>, name: Seq<char>)
    ensures
        latest(names, name) matches Some(id) ==> exists|k: int|
            0 <= k < names.len() && (#[trigger] names[k]).0 == id,
    decreases names.len(),
{
    if names.len() > 0 {
        if names.last().1 == name {
            assert(names[names.len() - 1].0 == latest(names, name)->Some_0);
        } else {
            lemma_latest_named(names.drop_last(), name);
            if latest(names, name) is Some {
                let id = latest(names, name)->Some_0;
                let k = choose|k: int|
                    0 <= k < names.drop_last().len() && (#[trigger] names.drop_last()[k]).0 == id;
                assert(names[k].0 == id);
            }
        }
    }
}

/// The models of assignments, item by item.
pub open spec fn assignment_models(assignments: Seq<Assignment>) -> Seq<AssignmentModel> {
    Seq::new(assignments.len(), |i: int| assignments[i]@)
}

impl ScopeModel {
    /// The scope after the assignments have been taken up, the first first.
    pub open spec fn begin_all(self, assignments: Seq<AssignmentModel>) -> ScopeModel
        decreases assignments.len(),
    {
        if assignments.len() == 0 {
            self
        } else {
            self.begin_all(assignments.drop_last()).begin(
                assignments.last().name,
                assignments.last().expression,
            )
        }
    }

    /// The scope of a block that is about to parse the assignments: they
    /// have been taken up in their order, so that an earlier assignment has
    /// the smaller identifier, and the first is next to run.
    pub open spec fn planned(self, assignments: Seq<AssignmentModel>) -> ScopeModel {
        let begun = self.begin_all(assignments);
        ScopeModel { unblocked: begun.unblocked.reverse(), ..begun }
    }

    /// How a block ends whose parses cannot go on.
    ///
    /// If an assignment failed, the block fails. Else, if a parse waits
    /// for a name, the block waits for the name that the oldest such parse
    /// waits for. Else, if a parse waits for a binding of another scope,
    /// the block waits for that binding. Else, if a parse waits at all,
    /// the assignments go round in a circle. Else the block must bind `_`;
    /// its expression holds the latest binding of `_` as the result, tagged
    /// with the part of speech of the result, and every other parsed
    /// binding.
    pub open spec fn verdict(self) -> Outcome {
        if self.failed.len() > 0 {
            Err(ParseErrorModel::SubAssignmentFailed)
        } else if self.blocked_on_name.len() > 0 {
            Ok(ParseResultModel::PendingName(self.blocked_on_name[0].0))
        } else {
            match first_foreign(self.blocked_on_id, self.names) {
                Some(id) => Ok(ParseResultModel::PendingId(id)),
                None => if self.blocked_on_id.len() > 0 {
                    Err(ParseErrorModel::CyclicAssignments)
                } else {
                    match latest(self.names, result_name()) {
                        None => Err(ParseErrorModel::BlockWithoutResult),
                        Some(result) => Ok(
                            ParseResultModel::Complete(
                                ExpressionModel::Compound(
                                    bindings(self.complete, self.names, result),
                                    Box::new(recorded(self.complete, result).unwrap().0),
                                ),
                                recorded(self.complete, result).unwrap().1,
                            ),
                        ),
                    }
                },
            }
        }
    }

    /// The scope after the block has ended: a block that ends with its
    /// expression has handed over what its bindings were parsed to.
    pub open spec fn spent(self) -> ScopeModel {
        if self.verdict() matches Ok(ParseResultModel::Complete(_, _)) {
            ScopeModel { complete: Seq::empty(), ..self }
        } else {
            self
        }
    }

    /// The scope after the block has been told the part of speech of a
    /// binding of another scope: the parses that waited for its name, and
    /// then those that waited for the binding, are told and can go on.
    pub open spec fn wake(self, rich: RichIdentifierModel, pos: PartOfSpeech) -> ScopeModel {
        ScopeModel {
            unblocked: self.unblocked + resumed(
                waiting(self.blocked_on_name, rich.name),
                rich,
                pos,
            ) + resumed(waiting(self.blocked_on_id, rich.id), rich, pos),
            blocked_on_name: others(self.blocked_on_name, rich.name),
            blocked_on_id: others(self.blocked_on_id, rich.id),
            ..self
        }
    }
}

impl Scope {
    /// Tells the parses that waited for the name or for the identifier of
    /// `rich` the part of speech `pos`, and lets them go on.
    pub fn resume_waiting(&mut self, rich: &RichIdentifier, pos: PartOfSpeech)
        requires
            old(self)@.tasks_ready(),
        ensures
            final(self)@ == old(self)@.wake(rich@, pos),
            final(self).parent_scope == old(self).parent_scope,
    {
        proof {
            lemma_split_ready(self@.blocked_on_name, rich@.name);
            lemma_split_ready(self@.blocked_on_id, rich@.id);
        }
        let mut by_name: Vec<(String, ParseOperation)> = Vec::new();
        core::mem::swap(&mut by_name, &mut self.blocked_on_name);
        let (woken, left) = split_on_name(by_name, &rich.name);
        self.blocked_on_name = left;
        resume_all(&mut self.unblocked, woken, rich, pos);
        let mut by_id: Vec<(Identifier, ParseOperation)> = Vec::new();
        core::mem::swap(&mut by_id, &mut self.blocked_on_id);
        let (woken, left) = split_on_id(by_id, rich.id);
        self.blocked_on_id = left;
        resume_all(&mut self.unblocked, woken, rich, pos);
    }

    /// Says how the block ends whose parses cannot go on. A block that
    /// ends with its expression hands over what its bindings were parsed to.
    pub fn conclude(&mut self) -> (result: Result<ParseResult, ParseError>)
        requires
            old(self)@.sound(),
            old(self)@.unblocked.len() == 0,
        ensures
            outcome_model(result) == old(self)@.verdict(),
            final(self)@ == old(self)@.spent(),
            final(self).parent_scope == old(self).parent_scope,
            !(result matches Ok(ParseResult::Complete(_, _))) ==> final(self)@.sound(),
    {
        if self.failed.len() > 0 {
            return Err(ParseError::SubAssignmentFailed);
        }
        if self.blocked_on_name.len() > 0 {
            return Ok(ParseResult::PendingName(self.blocked_on_name[0].0.clone()));
        }
        match find_foreign(&self.blocked_on_id, &self.names) {
            Some(id) => {
                return Ok(ParseResult::PendingId(id));
            },
            None => {},
        }
        if self.blocked_on_id.len() > 0 {
            return Err(ParseError::CyclicAssignments);
        }
        proof {
            reveal_strlit("_");
        }
        let underscore = "_".to_owned();
        assert(underscore@ =~= result_name());
        match find_latest(&self.names, &underscore) {
            None => Err(ParseError::BlockWithoutResult),
            Some(result) => {
                proof {
                    lemma_latest_named(self@.names, result_name());
                    lemma_named_stands(self@.names, result);
                    lemma_settled_is_complete(self@, result);
                    lemma_results_named(self@);
                }
                let mut entries: Vec<(Identifier, (Expression, PartOfSpeech))> = Vec::new();
                core::mem::swap(&mut entries, &mut self.complete);
                let (rest, found) = collect(entries, &self.names, result);
                let (expr, pos) = found.unwrap();
                assert(self@.complete =~= Seq::empty());
                Ok(ParseResult::Complete(Expression::compound(rest, expr), pos))
            },
        }
    }

    /// Runs the parse of the assignment `id` from `state` as far as it goes.
    pub fn advance(&mut self, id: Identifier, state: ExpressionParsnip)
        requires
            old(self)@.sound_but(id),
            ready(state@),
        ensures
            final(self)@ == old(self)@.advance(id, state@),
            final(self).parent_scope == old(self).parent_scope,
    {
        let ghost target = self@.advance(id, state@);
        let mut state = state;
        loop
            invariant_except_break
                ready(state@),
                self@.sound_but(id),
                self@.advance(id, state@) == target,
            invariant
                self.parent_scope == old(self).parent_scope,
            ensures
                self@ == target,
            decreases frames_weight(state@),
        {
            proof {
                lemma_running_is_open(self@, id);
            }
            match state.parse() {
                Err(error) => {
                    self.failed(id, error);
                    break ;
                },
                Ok(ParseResult::Complete(expr, pos)) => {
                    self.complete(id, expr, pos);
                    break ;
                },
                Ok(ParseResult::PendingId(_)) => {
                    // The parse of an expression never waits for a binding of another scope.
                    unreached::<()>();
                    break ;
                },
                Ok(ParseResult::PendingName(name)) => {
                    match self.resolve(&name, id) {
                        Resolution::Unknown => {
                            self.blocked_on_name(name, ParseOperation::new(id, state));
                            break ;
                        },
                        Resolution::Pending(prereq) => {
                            self.blocked_on_id(prereq, ParseOperation::new(id, state));
                            break ;
                        },
                        Resolution::Failed(prereq) => {
                            self.failed(id, ParseError::BadReference(prereq));
                            break ;
                        },
                        Resolution::Complete(prereq, pos) => {
                            state.provide(RichIdentifier::new(prereq, name), pos);
                        },
                    }
                },
            }
        }
    }
}

/// The latest binding of `name`.
fn find_latest(names: &Vec<(Identifier, String)>, name: &String) -> (found: Option<Identifier>)
    ensures
        found == latest(name_models(names@), name@),
{
    let ghost all = name_models(names@);
    let mut i: usize = names.len();
    assert(all.take(i as int) =~= all);
    while i > 0
        invariant
            i <= names.len(),
            all == name_models(names@),
            latest(all, name@) == latest(all.take(i as int), name@),
        decreases i,
    {
        assert(all.take(i as int).drop_last() =~= all.take(i - 1));
        i -= 1;
        if names[i].1 == *name {
            return Some(names[i].0);
        }
    }
    None
}

/// Whether the binding `id` is one of the bindings.
fn is_named(names: &Vec<(Identifier, String)>, id: Identifier) -> (found: bool)
    ensures
        found == named(name_models(names@), id),
{
    let ghost all = name_models(names@);
    let mut found = false;
    let mut i: usize = 0;
    assert(all.take(0) =~= Seq::empty());
    while i < names.len()
        invariant
            i <= names.len(),
            all == name_models(names@),
            found == named(all.take(i as int), id),
        decreases names.len() - i,
    {
        assert(all.take(i + 1).drop_last() =~= all.take(i as int));
        if names[i].0 == id {
            found = true;
        }
        i += 1;
    }
    assert(all.take(i as int) =~= all);
    found
}

/// The binding that the oldest parse waits for among those that wait for a
/// binding of another scope.
fn find_foreign(queue: &Vec<(Identifier, ParseOperation)>, names: &Vec<(Identifier, String)>) -> (found:
    Option<Identifier>)
    ensures
        found == first_foreign(id_queue_models(queue@), name_models(names@)),
{
    let ghost all = id_queue_models(queue@);
    let mut found: Option<Identifier> = None;
    let mut i: usize = 0;
    assert(all.take(0) =~= Seq::empty());
    while i < queue.len()
        invariant
            i <= queue.len(),
            all == id_queue_models(queue@),
            found == first_foreign(all.take(i as int), name_models(names@)),
        decreases queue.len() - i,
    {
        assert(all.take(i + 1).drop_last() =~= all.take(i as int));
        if found.is_none() && !is_named(names, queue[i].0) {
            found = Some(queue[i].0);
        }
        i += 1;
    }
    assert(all.take(i as int) =~= all);
    found
}

/// Whether every entry belongs to one of the bindings.
pub open spec fn entries_named(
    names: Seq<(Identifier, Seq<char>)>,
    complete: Seq<(Identifier, (ExpressionModel, PartOfSpeech))>,
) -> bool {
    forall|i: int| 0 <= i < complete.len() ==> named(names, (#[trigger] complete[i]).0)
}

/// Parts what the bindings were parsed to into the result and the rest,
/// each of the rest under its identifier and name.
fn collect(
    entries: Vec<(Identifier, (Expression, PartOfSpeech))>,
    names: &Vec<(Identifier, String)>,
    result: Identifier,
) -> (parts: (Vec<(RichIdentifier, Expression)>, Option<(Expression, PartOfSpeech)>))
    requires
        entries_named(name_models(names@), complete_models(entries@)),
    ensures
        binding_models(parts.0@) == bindings(
            complete_models(entries@),
            name_models(names@),
            result,
        ),
        match parts.1 {
            Some((expr, pos)) => recorded(complete_models(entries@), result) == Some((expr@, pos)),
            None => recorded(complete_models(entries@), result) is None,
        },
{
    let ghost all = entries@;
    let ghost models = complete_models(entries@);
    let ghost known = name_models(names@);
    let mut rest: Vec<(RichIdentifier, Expression)> = Vec::new();
    let mut found: Option<(Expression, PartOfSpeech)> = None;
    assert(binding_models(rest@) =~= Seq::empty());
    assert(complete_models(all.take(0)) =~= Seq::empty());
    for entry in it: entries
        invariant
            it.seq() == all,
            models == complete_models(all),
            known == name_models(names@),
            entries_named(known, models),
            binding_models(rest@) == bindings(
                complete_models(all.take(it.index() as int)),
                known,
                result,
            ),
            match found {
                Some((expr, pos)) => recorded(
                    complete_models(all.take(it.index() as int)),
                    result,
                ) == Some((expr@, pos)),
                None => recorded(complete_models(all.take(it.index() as int)), result) is None,
            },
    {
        let ghost i = it.index() as int;
        proof {
            assert(all.take(i + 1).drop_last() =~= all.take(i));
            assert(complete_models(all.take(i + 1)).drop_last() =~= complete_models(all.take(i)));
            assert(complete_models(all.take(i + 1)).last() == models[i]);
            assert(named(known, models[i].0));
        }
        let (id, (expr, pos)) = entry;
        if id == result {
            if found.is_none() {
                found = Some((expr, pos));
            }
        } else {
            let name = match find_name(names, id) {
                Some(k) => names[k].1.clone(),
                None => unreached(),
            };
            let binding = (RichIdentifier::new(id, name), expr);
            proof {
                assert(binding_models(rest@.push(binding)) =~= binding_models(rest@).push(
                    (binding.0@, binding.1@),
                ));
            }
            rest.push(binding);
        }
    }
    proof {
        assert(all.take(all.len() as int) =~= all);
    }
    (rest, found)
}

/// The parses in the opposite order.
fn reverse_operations(operations: Vec<ParseOperation>) -> (reversed: Vec<ParseOperation>)
    ensures
        operation_models(reversed@) == operation_models(operations@).reverse(),
{
    let ghost all = operation_models(operations@);
    let mut operations = operations;
    let mut reversed: Vec<ParseOperation> = Vec::new();
    while operations.len() > 0
        invariant
            operation_models(operations@) == all.take(operations@.len() as int),
            operations@.len() <= all.len(),
            operation_models(reversed@) == all.skip(operations@.len() as int).reverse(),
        decreases operations@.len(),
    {
        let ghost n = operations@.len() as int;
        let ghost before = operations@;
        proof {
            lemma_operation_models_drop_last(operations@);
        }
        let operation = operations.pop().unwrap();
        proof {
            lemma_operation_models_push(reversed@, operation);
            assert(operation_models(before)[n - 1] == operation@);
            assert(all.take(n)[n - 1] == all[n - 1]);
            assert(all.take(n).drop_last() =~= all.take(n - 1));
            assert(all.skip(n - 1).reverse() =~= all.skip(n).reverse().push(all[n - 1]));
        }
        reversed.push(operation);
    }
    proof {
        assert(all.skip(0) =~= all);
    }
    reversed
}

/// Taking up assignments keeps what a schedule keeps, and binds one name for each.
pub proof fn lemma_begin_all_sound(scope: ScopeModel, assignments: Seq<AssignmentModel>)
    requires
        scope.sound(),
        scope.next_id + assignments.len() <= u64::MAX,
    ensures
        scope.begin_all(assignments).sound(),
        scope.begin_all(assignments).next_id == scope.next_id + assignments.len(),
        scope.begin_all(assignments).parent == scope.parent,
    decreases assignments.len(),
{
    if assignments.len() > 0 {
        lemma_begin_all_sound(scope, assignments.drop_last());
        lemma_begin_sound(
            scope.begin_all(assignments.drop_last()),
            assignments.last().name,
            assignments.last().expression,
        );
    }
}

/// A scope that is about to parse assignments keeps what a schedule keeps.
pub proof fn lemma_planned_sound(scope: ScopeModel, assignments: Seq<AssignmentModel>)
    requires
        scope.sound(),
        scope.next_id + assignments.len() <= u64::MAX,
    ensures
        scope.planned(assignments).sound(),
{
    lemma_begin_all_sound(scope, assignments);
    let begun = scope.begin_all(assignments);
    let planned = scope.planned(assignments);
    let n = begun.unblocked.len() as int;
    assert forall|i: int| 0 <= i < planned.unblocked.len() implies ready(
        (#[trigger] planned.unblocked[i]).state,
    ) by {
        assert(planned.unblocked[i] == begun.unblocked[n - 1 - i]);
    }
    assert forall|i: int| 0 <= i < planned.names.len() implies (#[trigger] planned.names[i]).0
        < planned.next_id by {
        assert(planned.names[i] == begun.names[i]);
    }
    assert forall|id: Identifier| #[trigger]
        planned.census(id) == one_if(named(planned.names, id)) by {
        lemma_count_reverse(begun.unblocked, id);
        assert(begun.census(id) == one_if(named(begun.names, id)));
    }
}

/// The parse of a block.
pub struct BlockParsnip(pub Scope);

impl BlockParsnip {
    /// The parse of a block that binds the assignments in `scope`.
    pub fn new(scope: Scope, assignments: Vec<Assignment>) -> (parsnip: BlockParsnip)
        requires
            scope@.next_id + assignments@.len() <= u64::MAX,
        ensures
            parsnip.0@ == scope@.planned(assignment_models(assignments@)),
            parsnip.0.parent_scope == scope.parent_scope,
            scope@.sound() ==> parsnip.0@.sound(),
    {
        proof {
            if scope@.sound() {
                lemma_planned_sound(scope@, assignment_models(assignments@));
            }
        }
        let ghost all = assignments@;
        let ghost start = scope@;
        let ghost parent = scope.parent_scope;
        let mut scope = scope;
        assert(assignment_models(all.take(0)) =~= Seq::empty());
        for assignment in it: assignments
            invariant
                it.seq() == all,
                start.next_id + all.len() <= u64::MAX,
                scope@ == start.begin_all(assignment_models(all.take(it.index() as int))),
                scope@.next_id == start.next_id + it.index(),
                scope.parent_scope == parent,
        {
            proof {
                let i = it.index() as int;
                assert(all.take(i + 1).drop_last() =~= all.take(i));
                assert(assignment_models(all.take(i + 1)).drop_last() =~= assignment_models(
                    all.take(i),
                ));
                assert(assignment_models(all.take(i + 1)).last() == assignment@);
            }
            scope.begin(assignment);
        }
        proof {
            assert(all.take(all.len() as int) =~= all);
        }
        let mut operations: Vec<ParseOperation> = Vec::new();
        core::mem::swap(&mut operations, &mut scope.unblocked);
        scope.unblocked = reverse_operations(operations);
        BlockParsnip(scope)
    }
}

impl Parsnip for BlockParsnip {
    open spec fn prepared(&self) -> bool {
        self.0@.sound()
    }

    /// Tells the parses that waited for a binding of another scope, by its
    /// name or by its identifier, the part of speech of the binding.
    fn provide(&mut self, id: RichIdentifier, pos: PartOfSpeech)
        ensures
            final(self).0@ == old(self).0@.wake(id@, pos),
            final(self).0.parent_scope == old(self).0.parent_scope,
            final(self).0@.sound(),
    {
        proof {
            lemma_wake_sound(self.0@, id@, pos);
        }
        self.0.resume_waiting(&id, pos);
    }

    /// Runs the parses of the assignments until none can go on, and says how the block ends.
    fn parse(&mut self) -> (result: Result<ParseResult, ParseError>)
        ensures
            outcome_model(result) == old(self).0@.drive().verdict(),
            final(self).0@ == old(self).0@.drive().spent(),
            final(self).0.parent_scope == old(self).0.parent_scope,
            !(result matches Ok(ParseResult::Complete(_, _))) ==> final(self).0@.sound(),
    {
        let ghost target = self.0@.drive();
        loop
            invariant
                self.0@.sound(),
                self.0@.drive() == target,
                self.0.parent_scope == old(self).0.parent_scope,
            ensures
                self.0@ == target,
                self.0@.sound(),
                self.0@.unblocked.len() == 0,
                self.0.parent_scope == old(self).0.parent_scope,
            decreases self.0@.load(),
        {
            proof {
                if self.0@.unblocked.len() > 0 {
                    lemma_without_next(self.0@);
                    lemma_without_next_sound(self.0@);
                    lemma_advance(
                        self.0@.without_next(),
                        self.0@.unblocked.last().id,
                        self.0@.unblocked.last().state,
                    );
                    lemma_advance_sound(
                        self.0@.without_next(),
                        self.0@.unblocked.last().id,
                        self.0@.unblocked.last().state,
                    );
                }
            }
            match self.0.take_next() {
                None => {
                    break ;
                },
                Some(operation) => {
                    let ParseOperation { id, state } = operation;
                    self.0.advance(id, state);
                },
            }
        }
        self.0.conclude()
    }
}

/// Parses the assignments of a block in `scope`, and hands the scope back
/// as the parse leaves it.
pub fn parse_body(scope: Scope, assignments: Vec<Assignment>) -> (parsed: Scope)
    requires
        scope@.sound(),
        scope@.next_id + assignments@.len() <= u64::MAX,
    ensures
        parsed@ == scope@.planned(assignment_models(assignments@)).drive().spent(),
        parsed.parent_scope == scope.parent_scope,
{
    let mut parsnip = BlockParsnip::new(scope, assignments);
    let _ = parsnip.parse();
    parsnip.0
}

} // verus!
