//! What holds of a scope throughout a block's schedule: every parse that
//! the scope holds can go on, every identifier of a binding lies under the
//! next one to be handed out, and every binding is in exactly one place:
//! it has been parsed, or it has failed, or its parse can go on or waits.

use vstd::prelude::*;
use crate::census::{
    lemma_add_builtin_census,
    lemma_advance_census,
    lemma_begin_census,
    lemma_count_operations_holds,
    lemma_count_queue_holds,
    lemma_count_recorded,
    lemma_drive_census,
    lemma_wake_census,
    lemma_without_next_census,
    one_if,
};
use crate::error::ParseErrorModel;
use crate::expression::{Identifier, RichIdentifierModel};
use crate::frame::{ready, FrameModel};
use crate::pos::PartOfSpeech;
use crate::reducer::anchored;
use crate::schedule::{lemma_advance, lemma_drive, lemma_resumed, lemma_without_next};
use crate::scope::{
    lemma_split_ready,
    name_of,
    recorded,
    resumed,
    waiting,
    OperationModel,
    ScopeModel,
};
use crate::terms::TermModel;

verus! {

/// Whether the binding `id` is one of the bindings.
pub open spec fn named(names: Seq<(Identifier, Seq<char>)>, id: Identifier) -> bool {
    name_of(names, id) is Some
}

/// Whether one of the parses belongs to the binding `id`.
pub open spec fn holds(operations: Seq<OperationModel>, id: Identifier) -> bool {
    exists|i: int| 0 <= i < operations.len() && (#[trigger] operations[i]).id == id
}

/// Whether one of the parses of the queue belongs to the binding `id`.
pub open spec fn queue_holds<K>(queue: Seq<(K, OperationModel)>, id: Identifier) -> bool {
    exists|i: int| 0 <= i < queue.len() && (#[trigger] queue[i]).1.id == id
}

/// Whether one of the failures is that of the binding `id`.
pub open spec fn listed(worklist: Seq<(Identifier, ParseErrorModel)>, id: Identifier) -> bool {
    exists|i: int| 0 <= i < worklist.len() && (#[trigger] worklist[i]).0 == id
}

impl ScopeModel {
    /// Whether the identifier of every binding lies under the one that is handed out next.
    pub open spec fn bounded(self) -> bool {
        forall|i: int| 0 <= i < self.names.len() ==> (#[trigger] self.names[i]).0 < self.next_id
    }

    /// Whether every binding of the scope is in exactly one place, and nothing else is anywhere.
    pub open spec fn tallied(self) -> bool {
        forall|id: Identifier| #[trigger] self.census(id) == one_if(named(self.names, id))
    }

    /// Whether every binding of the scope but `running` is in exactly one
    /// place, and nothing else is anywhere.
    pub open spec fn tallied_but(self, running: Identifier) -> bool {
        forall|id: Identifier| #[trigger]
            self.census(id) == one_if(named(self.names, id) && id != running)
    }

    /// What a block's schedule keeps of its scope.
    pub open spec fn sound(self) -> bool {
        &&& self.tasks_ready()
        &&& self.bounded()
        &&& self.tallied()
    }

    /// What a block's schedule keeps of its scope while the parse of the
    /// binding `running` is out of the scope's hands.
    pub open spec fn sound_but(self, running: Identifier) -> bool {
        &&& self.tasks_ready()
        &&& self.bounded()
        &&& named(self.names, running)
        &&& self.tallied_but(running)
    }
}

/// An entry more records what was recorded, and what the entry records.
pub proof fn lemma_recorded_push<V>(entries: Seq<(Identifier, V)>, entry: (Identifier, V), id: Identifier)
    ensures
        recorded(entries, id) is Some ==> recorded(entries.push(entry), id) == recorded(entries, id),
        recorded(entries, id) is None && entry.0 == id ==> recorded(entries.push(entry), id) == Some(
            entry.1,
        ),
        recorded(entries, id) is None && entry.0 != id ==> recorded(entries.push(entry), id) is None,
{
    assert(entries.push(entry).drop_last() =~= entries);
}

/// A binding more leaves the names of the others as they are.
pub proof fn lemma_name_of_push(
    names: Seq<(Identifier, Seq<char>)>,
    entry: (Identifier, Seq<char>),
    id: Identifier,
)
    ensures
        named(names, id) ==> name_of(names.push(entry), id) == name_of(names, id),
        named(names.push(entry), id) <==> named(names, id) || entry.0 == id,
        !named(names, id) && entry.0 == id ==> name_of(names.push(entry), id) == Some(entry.1),
{
    assert(names.push(entry).drop_last() =~= names);
}

/// A binding has a name exactly if it stands among the bindings.
pub proof fn lemma_named_stands(names: Seq<(Identifier, Seq<char>)>, id: Identifier)
    ensures
        named(names, id) <==> exists|k: int| 0 <= k < names.len() && (#[trigger] names[k]).0 == id,
    decreases names.len(),
{
    if names.len() > 0 {
        lemma_named_stands(names.drop_last(), id);
        if named(names.drop_last(), id) {
            let k = choose|k: int|
                0 <= k < names.drop_last().len() && (#[trigger] names.drop_last()[k]).0 == id;
            assert(names[k].0 == id);
        } else if names.last().0 == id {
            assert(names[names.len() - 1].0 == id);
        }
        if exists|k: int| 0 <= k < names.len() && (#[trigger] names[k]).0 == id {
            let k = choose|k: int| 0 <= k < names.len() && (#[trigger] names[k]).0 == id;
            if k < names.len() - 1 {
                assert(names.drop_last()[k].0 == id);
            }
        }
    }
}

/// The identifier that is handed out next is not yet that of a binding.
pub proof fn lemma_next_is_fresh(scope: ScopeModel)
    requires
        scope.bounded(),
    ensures
        !named(scope.names, scope.next_id),
{
    lemma_named_stands(scope.names, scope.next_id);
}

/// A scope that has bound nothing keeps what a schedule keeps.
pub proof fn lemma_new_sound(parent: Option<ScopeModel>)
    ensures
        ScopeModel::new(parent).sound(),
{
}

/// Binding a name leaves every parse ready.
pub proof fn lemma_learn_name_ready(scope: ScopeModel, name: Seq<char>)
    requires
        scope.tasks_ready(),
    ensures
        scope.learn_name(name).tasks_ready(),
{
    let after = scope.learn_name(name);
    let woken = waiting(scope.blocked_on_name, name);
    lemma_split_ready(scope.blocked_on_name, name);
    assert forall|i: int| 0 <= i < after.blocked_on_id.len() implies ready(
        (#[trigger] after.blocked_on_id[i]).1.state,
    ) by {
        if i < scope.blocked_on_id.len() {
            assert(after.blocked_on_id[i] == scope.blocked_on_id[i]);
        } else {
            assert(after.blocked_on_id[i].1 == woken[i - scope.blocked_on_id.len()]);
        }
    }
}

/// Taking up an assignment keeps what a schedule keeps.
pub proof fn lemma_begin_sound(scope: ScopeModel, name: Seq<char>, terms: Seq<TermModel>)
    requires
        scope.sound(),
        scope.next_id < u64::MAX,
    ensures
        scope.begin(name, terms).sound(),
{
    let learned = scope.learn_name(name);
    let after = scope.begin(name, terms);
    lemma_learn_name_ready(scope, name);
    lemma_next_is_fresh(scope);
    assert forall|i: int| 0 <= i < after.unblocked.len() implies ready(
        (#[trigger] after.unblocked[i]).state,
    ) by {
        if i < learned.unblocked.len() {
            assert(after.unblocked[i] == learned.unblocked[i]);
        } else {
            assert(anchored(after.unblocked[i].state[0].stack));
        }
    }
    assert forall|i: int| 0 <= i < after.names.len() implies (#[trigger] after.names[i]).0
        < after.next_id by {
        if i < scope.names.len() {
            assert(after.names[i] == scope.names[i]);
        }
    }
    assert forall|id: Identifier| #[trigger] after.census(id) == one_if(named(after.names, id)) by {
        lemma_begin_census(scope, name, terms, id);
        lemma_name_of_push(scope.names, (scope.next_id, name), id);
        assert(scope.census(id) == one_if(named(scope.names, id)));
    }
}

/// Binding a name to something that needs no parse keeps what a schedule keeps.
pub proof fn lemma_add_builtin_sound(scope: ScopeModel, name: Seq<char>, pos: PartOfSpeech)
    requires
        scope.sound(),
        scope.next_id < u64::MAX,
    ensures
        scope.add_builtin(name, pos).sound(),
{
    let after = scope.add_builtin(name, pos);
    lemma_learn_name_ready(scope, name);
    lemma_next_is_fresh(scope);
    assert forall|i: int| 0 <= i < after.names.len() implies (#[trigger] after.names[i]).0
        < after.next_id by {
        if i < scope.names.len() {
            assert(after.names[i] == scope.names[i]);
        }
    }
    assert forall|id: Identifier| #[trigger] after.census(id) == one_if(named(after.names, id)) by {
        lemma_add_builtin_census(scope, name, pos, id);
        lemma_name_of_push(scope.names, (scope.next_id, name), id);
        assert(scope.census(id) == one_if(named(scope.names, id)));
    }
}

/// Taking the next parse out of a scope leaves what a schedule keeps, but for that parse.
pub proof fn lemma_without_next_sound(scope: ScopeModel)
    requires
        scope.sound(),
        scope.unblocked.len() > 0,
    ensures
        scope.without_next().sound_but(scope.unblocked.last().id),
        ready(scope.unblocked.last().state),
{
    let rest = scope.without_next();
    let next = scope.unblocked.last();
    lemma_without_next(scope);
    assert(named(scope.names, next.id)) by {
        lemma_count_operations_holds(scope.unblocked, next.id);
        assert(scope.unblocked[scope.unblocked.len() - 1].id == next.id);
        assert(scope.census(next.id) == one_if(named(scope.names, next.id)));
    }
    assert forall|id: Identifier| #[trigger]
        rest.census(id) == one_if(named(rest.names, id) && id != next.id) by {
        lemma_without_next_census(scope, id);
        assert(scope.census(id) == one_if(named(scope.names, id)));
    }
}

/// Running one parse as far as it goes gives the scope back what a schedule keeps.
pub proof fn lemma_advance_sound(scope: ScopeModel, id: Identifier, state: Seq<FrameModel>)
    requires
        scope.sound_but(id),
        ready(state),
    ensures
        scope.advance(id, state).sound(),
{
    let after = scope.advance(id, state);
    lemma_advance(scope, id, state);
    assert forall|i: int| 0 <= i < after.names.len() implies (#[trigger] after.names[i]).0
        < after.next_id by {
        assert(after.names[i] == scope.names[i]);
    }
    assert forall|other: Identifier| #[trigger]
        after.census(other) == one_if(named(after.names, other)) by {
        lemma_advance_census(scope, id, state, other);
        assert(scope.census(other) == one_if(named(scope.names, other) && other != id));
    }
}

/// Running the parses until none can go on keeps what a schedule keeps.
pub proof fn lemma_drive_sound(scope: ScopeModel)
    requires
        scope.sound(),
    ensures
        scope.drive().sound(),
        scope.drive().unblocked.len() == 0,
        scope.drive().names == scope.names,
{
    let after = scope.drive();
    lemma_drive(scope);
    assert forall|i: int| 0 <= i < after.names.len() implies (#[trigger] after.names[i]).0
        < after.next_id by {
        assert(after.names[i] == scope.names[i]);
    }
    assert forall|id: Identifier| #[trigger] after.census(id) == one_if(named(after.names, id)) by {
        lemma_drive_census(scope, id);
        assert(scope.census(id) == one_if(named(scope.names, id)));
    }
}

/// Telling the parses that waited for a binding of another scope keeps
/// what a schedule keeps.
pub proof fn lemma_wake_sound(
    scope: ScopeModel,
    rich: RichIdentifierModel,
    pos: PartOfSpeech,
)
    requires
        scope.sound(),
    ensures
        scope.wake(rich, pos).sound(),
{
    let after = scope.wake(rich, pos);
    let by_name = waiting(scope.blocked_on_name, rich.name);
    let by_id = waiting(scope.blocked_on_id, rich.id);
    lemma_split_ready(scope.blocked_on_name, rich.name);
    lemma_split_ready(scope.blocked_on_id, rich.id);
    lemma_resumed(by_name, rich, pos);
    lemma_resumed(by_id, rich, pos);
    assert forall|i: int| 0 <= i < after.unblocked.len() implies ready(
        (#[trigger] after.unblocked[i]).state,
    ) by {
        let n = scope.unblocked.len() as int;
        let m = by_name.len() as int;
        if i < n {
            assert(after.unblocked[i] == scope.unblocked[i]);
        } else if i < n + m {
            assert(after.unblocked[i] == resumed(by_name, rich, pos)[i - n]);
        } else {
            assert(after.unblocked[i] == resumed(by_id, rich, pos)[i - n - m]);
        }
    }
    assert forall|i: int| 0 <= i < after.names.len() implies (#[trigger] after.names[i]).0
        < after.next_id by {
        assert(after.names[i] == scope.names[i]);
    }
    assert forall|id: Identifier| #[trigger] after.census(id) == one_if(named(after.names, id)) by {
        lemma_wake_census(scope, rich, pos, id);
        assert(scope.census(id) == one_if(named(scope.names, id)));
    }
}

/// Nothing has come yet of a binding whose parse is out of the scope's hands.
pub proof fn lemma_running_is_open(scope: ScopeModel, running: Identifier)
    requires
        scope.sound_but(running),
    ensures
        recorded(scope.complete, running) is None,
        recorded(scope.failed, running) is None,
        scope.name_of_id(running) is Some,
{
    assert(scope.census(running) == 0);
    lemma_count_recorded(scope.complete, running);
    lemma_count_recorded(scope.failed, running);
}

/// Every parsed binding is one of the bindings of the scope.
pub proof fn lemma_results_named(scope: ScopeModel)
    requires
        scope.tallied(),
    ensures
        forall|i: int|
            0 <= i < scope.complete.len() ==> named(scope.names, (#[trigger] scope.complete[i]).0),
{
    assert forall|i: int| 0 <= i < scope.complete.len() implies named(
        scope.names,
        (#[trigger] scope.complete[i]).0,
    ) by {
        let id = scope.complete[i].0;
        lemma_count_recorded(scope.complete, id);
        assert(scope.census(id) == one_if(named(scope.names, id)));
    }
}

/// A binding of a scope whose parses are all gone, where nothing failed,
/// has been parsed.
pub proof fn lemma_settled_is_complete(scope: ScopeModel, id: Identifier)
    requires
        scope.tallied(),
        named(scope.names, id),
        scope.failed.len() == 0,
        scope.unblocked.len() == 0,
        scope.blocked_on_name.len() == 0,
        scope.blocked_on_id.len() == 0,
    ensures
        recorded(scope.complete, id) is Some,
{
    assert(scope.census(id) == 1);
    lemma_count_recorded(scope.complete, id);
}

/// A binding is in at most one place: where something has come of it, no
/// parse of it is left, and it has not both been parsed and failed.
pub proof fn law_at_most_one_place(scope: ScopeModel, id: Identifier)
    requires
        scope.tallied(),
    ensures
        recorded(scope.complete, id) is Some ==> recorded(scope.failed, id) is None && !holds(
            scope.unblocked,
            id,
        ) && !queue_holds(scope.blocked_on_name, id) && !queue_holds(scope.blocked_on_id, id),
        recorded(scope.failed, id) is Some ==> !holds(scope.unblocked, id) && !queue_holds(
            scope.blocked_on_name,
            id,
        ) && !queue_holds(scope.blocked_on_id, id),
        holds(scope.unblocked, id) ==> !queue_holds(scope.blocked_on_name, id) && !queue_holds(
            scope.blocked_on_id,
            id,
        ),
        queue_holds(scope.blocked_on_name, id) ==> !queue_holds(scope.blocked_on_id, id),
        named(scope.names, id) ==> recorded(scope.complete, id) is Some || recorded(
            scope.failed,
            id,
        ) is Some || holds(scope.unblocked, id) || queue_holds(scope.blocked_on_name, id)
            || queue_holds(scope.blocked_on_id, id),
{
    assert(scope.census(id) == one_if(named(scope.names, id)));
    lemma_count_recorded(scope.complete, id);
    lemma_count_recorded(scope.failed, id);
    lemma_count_operations_holds(scope.unblocked, id);
    lemma_count_queue_holds(scope.blocked_on_name, id);
    lemma_count_queue_holds(scope.blocked_on_id, id);
}

} // verus!
