//! Scopes: the bindings of one block, the parses that wait for them, and what
//! has come of them.

use std::rc::Rc;
use vstd::prelude::*;
use crate::error::{ParseError, ParseErrorModel};
use crate::expression::{
    reference,
    Expression,
    ExpressionModel,
    Identifier,
    RichIdentifier,
    RichIdentifierModel,
};
use crate::frame::{provided, ready, FrameModel};
use crate::parsnip::{fresh, ExpressionParsnip, Parsnip};
use crate::pos::PartOfSpeech;
use crate::terms::{term_models, Term, TermModel};

verus! {

/// Hands out identifiers in increasing order.
///
/// One allocator serves a whole tree of scopes, so that no identifier is
/// handed out twice: a scope inside another goes on where the outer scope
/// stands, and a scope that follows another inside the same outer scope
/// takes the allocator over from it (see [`Scope::with_allocator`]).
#[derive(Debug)]
pub struct Allocator {
    /// The identifier that is handed out next.
    pub current: Identifier,
}

impl Allocator {
    /// An allocator that has handed out nothing.
    pub fn new() -> (allocator: Allocator)
        ensures
            allocator.current == 0,
    {
        Allocator { current: 0 }
    }

    /// Hands out the next identifier.
    pub fn next(&mut self) -> (id: Identifier)
        requires
            old(self).current < u64::MAX,
        ensures
            id == old(self).current,
            final(self).current == id + 1,
    {
        let id = self.current;
        self.current += 1;
        id
    }
}

/// A parse of one assignment, under the identifier of the assignment.
#[derive(Debug)]
pub struct ParseOperation {
    pub id: Identifier,
    pub state: ExpressionParsnip,
}

/// The model of a [`ParseOperation`].
pub struct OperationModel {
    pub id: Identifier,
    pub state: Seq<FrameModel>,
}

impl View for ParseOperation {
    type V = OperationModel;

    open spec fn view(&self) -> OperationModel {
        OperationModel { id: self.id, state: self.state@ }
    }
}

impl ParseOperation {
    pub fn new(id: Identifier, state: ExpressionParsnip) -> (operation: ParseOperation)
        ensures
            operation@ == (OperationModel { id, state: state@ }),
    {
        ParseOperation { id, state }
    }
}

/// The bindings of one block.
///
/// `names` holds the bindings in the order of their allocation. It is read
/// in both directions: from a name to the identifiers that it is bound
/// under, oldest first, and from an identifier to its name. The queues hold
/// the parses that wait, in the order in which they began to wait.
///
/// A scope inside another holds the outer scope for reading only. It goes
/// on with the identifiers where the outer scope stood when the inner one
/// was made, so every identifier of the outer scope is smaller than every
/// identifier of the inner one.
pub struct Scope {
    /// The bindings of this scope, in the order of their allocation.
    pub names: Vec<(Identifier, String)>,
    /// The parses that wait for a name to be bound, each with the name, oldest first.
    pub blocked_on_name: Vec<(String, ParseOperation)>,
    /// The parses that wait for a binding to be parsed, each with the binding, oldest first.
    pub blocked_on_id: Vec<(Identifier, ParseOperation)>,
    /// The bindings that have been parsed.
    pub complete: Vec<(Identifier, (Expression, PartOfSpeech))>,
    /// The bindings that have failed.
    pub failed: Vec<(Identifier, ParseError)>,
    /// The parses that can go on; the last is next.
    pub unblocked: Vec<ParseOperation>,
    /// The scope of the enclosing block. It is only ever read.
    pub parent_scope: Option<Rc<Scope>>,
    pub allocator: Allocator,
}

/// The model of a [`Scope`].
pub struct ScopeModel {
    pub names: Seq<(Identifier, Seq<char>)>,
    pub blocked_on_name: Seq<(Seq<char>, OperationModel)>,
    pub blocked_on_id: Seq<(Identifier, OperationModel)>,
    pub complete: Seq<(Identifier, (ExpressionModel, PartOfSpeech))>,
    pub failed: Seq<(Identifier, ParseErrorModel)>,
    pub unblocked: Seq<OperationModel>,
    pub parent: Option<Box<ScopeModel>>,
    /// The identifier that the scope binds next.
    pub next_id: Identifier,
}

/// The models of bindings, item by item.
pub open spec fn name_models(names: Seq<(Identifier, String)>) -> Seq<(Identifier, Seq<char>)> {
    Seq::new(names.len(), |i: int| (names[i].0, names[i].1@))
}

/// The models of parses, item by item.
pub open spec fn operation_models(operations: Seq<ParseOperation>) -> Seq<OperationModel> {
    Seq::new(operations.len(), |i: int| operations[i]@)
}

/// The models of the parses that wait for names, item by item.
pub open spec fn name_queue_models(queue: Seq<(String, ParseOperation)>) -> Seq<
    (Seq<char>, OperationModel),
> {
    Seq::new(queue.len(), |i: int| (queue[i].0@, queue[i].1@))
}

/// The models of the parses that wait for bindings, item by item.
pub open spec fn id_queue_models(queue: Seq<(Identifier, ParseOperation)>) -> Seq<
    (Identifier, OperationModel),
> {
    Seq::new(queue.len(), |i: int| (queue[i].0, queue[i].1@))
}

/// The models of parsed bindings, item by item.
pub open spec fn complete_models(entries: Seq<(Identifier, (Expression, PartOfSpeech))>) -> Seq<
    (Identifier, (ExpressionModel, PartOfSpeech)),
> {
    Seq::new(entries.len(), |i: int| (entries[i].0, (entries[i].1.0@, entries[i].1.1)))
}

/// The models of failed bindings, item by item.
pub open spec fn failed_models(entries: Seq<(Identifier, ParseError)>) -> Seq<
    (Identifier, ParseErrorModel),
> {
    Seq::new(entries.len(), |i: int| (entries[i].0, entries[i].1@))
}

impl Scope {
    /// The model of this scope.
    pub open spec fn model(self) -> ScopeModel
        decreases self,
    {
        ScopeModel {
            names: name_models(self.names@),
            blocked_on_name: name_queue_models(self.blocked_on_name@),
            blocked_on_id: id_queue_models(self.blocked_on_id@),
            complete: complete_models(self.complete@),
            failed: failed_models(self.failed@),
            unblocked: operation_models(self.unblocked@),
            parent: match self.parent_scope {
                Some(parent) => Some(Box::new((*parent).model())),
                None => None,
            },
            next_id: self.allocator.current,
        }
    }
}

impl View for Scope {
    type V = ScopeModel;

    open spec fn view(&self) -> ScopeModel {
        self.model()
    }
}

/// Whether one of the bindings has this name.
pub open spec fn binds(names: Seq<(Identifier, Seq<char>)>, name: Seq<char>) -> bool
    decreases names.len(),
{
    names.len() > 0 && (names.last().1 == name || binds(names.drop_last(), name))
}

/// The last binding of `name` that was allocated before `as_of`.
pub open spec fn previous(names: Seq<(Identifier, Seq<char>)>, name: Seq<char>, as_of: Identifier) -> Option<
    Identifier,
>
    decreases names.len(),
{
    if names.len() == 0 {
        None
    } else if names.last().1 == name && names.last().0 < as_of {
        Some(names.last().0)
    } else {
        previous(names.drop_last(), name, as_of)
    }
}

/// The first binding of `name` that was allocated at `as_of` or after it.
pub open spec fn following(names: Seq<(Identifier, Seq<char>)>, name: Seq<char>, as_of: Identifier) -> Option<
    Identifier,
>
    decreases names.len(),
{
    if names.len() == 0 {
        None
    } else {
        match following(names.drop_last(), name, as_of) {
            Some(id) => Some(id),
            None => if names.last().1 == name && names.last().0 >= as_of {
                Some(names.last().0)
            } else {
                None
            },
        }
    }
}

/// The name that a binding was made under.
pub open spec fn name_of(names: Seq<(Identifier, Seq<char>)>, id: Identifier) -> Option<Seq<char>>
    decreases names.len(),
{
    if names.len() == 0 {
        None
    } else {
        match name_of(names.drop_last(), id) {
            Some(name) => Some(name),
            None => if names.last().0 == id {
                Some(names.last().1)
            } else {
                None
            },
        }
    }
}

/// What is recorded under an identifier: the first entry that has it.
pub open spec fn recorded<V>(entries: Seq<(Identifier, V)>, id: Identifier) -> Option<V>
    decreases entries.len(),
{
    if entries.len() == 0 {
        None
    } else {
        match recorded(entries.drop_last(), id) {
            Some(value) => Some(value),
            None => if entries.last().0 == id {
                Some(entries.last().1)
            } else {
                None
            },
        }
    }
}

/// The parses of a queue that wait for `key`, oldest first.
pub open spec fn waiting<K>(queue: Seq<(K, OperationModel)>, key: K) -> Seq<OperationModel>
    decreases queue.len(),
{
    if queue.len() == 0 {
        Seq::empty()
    } else if queue.last().0 == key {
        waiting(queue.drop_last(), key).push(queue.last().1)
    } else {
        waiting(queue.drop_last(), key)
    }
}

/// The queue without the parses that wait for `key`.
pub open spec fn others<K>(queue: Seq<(K, OperationModel)>, key: K) -> Seq<(K, OperationModel)>
    decreases queue.len(),
{
    if queue.len() == 0 {
        Seq::empty()
    } else if queue.last().0 == key {
        others(queue.drop_last(), key)
    } else {
        others(queue.drop_last(), key).push(queue.last())
    }
}

/// The parses, each made to wait for `key`.
pub open spec fn parked<K>(operations: Seq<OperationModel>, key: K) -> Seq<(K, OperationModel)> {
    Seq::new(operations.len(), |i: int| (key, operations[i]))
}

/// The parses, each told the part of speech of the binding that it waited for.
pub open spec fn resumed(
    operations: Seq<OperationModel>,
    rich: RichIdentifierModel,
    pos: PartOfSpeech,
) -> Seq<OperationModel> {
    Seq::new(
        operations.len(),
        |i: int|
            OperationModel {
                id: operations[i].id,
                state: provided(operations[i].state, rich, pos),
            },
    )
}

/// What a scope knows of a name or of a binding.
pub enum LookupResult<'a> {
    /// No binding of the name is in sight.
    Unknown,
    /// The binding has not been parsed yet.
    Pending(Identifier),
    /// The binding failed, with this error.
    Failed(Identifier, &'a ParseError),
    /// The binding has been parsed: its expression and its part of speech.
    Complete(Identifier, &'a Expression, PartOfSpeech),
}

/// The model of a [`LookupResult`].
pub enum LookupModel {
    Unknown,
    Pending(Identifier),
    Failed(Identifier, ParseErrorModel),
    Complete(Identifier, ExpressionModel, PartOfSpeech),
}

impl<'a> View for LookupResult<'a> {
    type V = LookupModel;

    open spec fn view(&self) -> LookupModel {
        match self {
            LookupResult::Unknown => LookupModel::Unknown,
            LookupResult::Pending(id) => LookupModel::Pending(*id),
            LookupResult::Failed(id, error) => LookupModel::Failed(*id, error@),
            LookupResult::Complete(id, expr, pos) => LookupModel::Complete(*id, expr@, *pos),
        }
    }
}

impl ScopeModel {
    /// The scope of a block that has bound nothing yet. A block inside
    /// another goes on with the identifiers where the outer block stands.
    pub open spec fn new(parent: Option<ScopeModel>) -> ScopeModel {
        ScopeModel {
            names: Seq::empty(),
            blocked_on_name: Seq::empty(),
            blocked_on_id: Seq::empty(),
            complete: Seq::empty(),
            failed: Seq::empty(),
            unblocked: Seq::empty(),
            parent: match parent {
                Some(parent) => Some(Box::new(parent)),
                None => None,
            },
            next_id: match parent {
                Some(parent) => parent.next_id,
                None => 0,
            },
        }
    }

    /// The binding of `name` that an assignment with the identifier `as_of`
    /// looks back to: the latest one before it, in the nearest scope that
    /// binds the name at all.
    pub open spec fn lookup_previous_identifier(self, name: Seq<char>, as_of: Identifier) -> Option<
        Identifier,
    >
        decreases self,
    {
        if binds(self.names, name) {
            previous(self.names, name, as_of)
        } else {
            match self.parent {
                Some(parent) => parent.lookup_previous_identifier(name, as_of),
                None => None,
            }
        }
    }

    /// The binding of `name` that an assignment with the identifier `as_of`
    /// looks ahead to: the earliest one that is not before it, in the nearest
    /// scope that binds the name at all.
    pub open spec fn lookup_next_identifier(self, name: Seq<char>, as_of: Identifier) -> Option<
        Identifier,
    >
        decreases self,
    {
        if binds(self.names, name) {
            following(self.names, name, as_of)
        } else {
            match self.parent {
                Some(parent) => parent.lookup_next_identifier(name, as_of),
                None => None,
            }
        }
    }

    /// The binding that `name` stands for in an assignment with the
    /// identifier `as_of`: the one it looks back to, or else the one it looks
    /// ahead to.
    pub open spec fn lookup_identifier(self, name: Seq<char>, as_of: Identifier) -> Option<
        Identifier,
    > {
        match self.lookup_previous_identifier(name, as_of) {
            Some(id) => Some(id),
            None => self.lookup_next_identifier(name, as_of),
        }
    }

    /// What has come of a binding, as far as this scope and the scopes around it know.
    pub open spec fn lookup_by_id(self, id: Identifier) -> LookupModel
        decreases self,
    {
        match recorded(self.complete, id) {
            Some((expr, pos)) => LookupModel::Complete(id, expr, pos),
            None => match recorded(self.failed, id) {
                Some(error) => LookupModel::Failed(id, error),
                None => match self.parent {
                    Some(parent) => parent.lookup_by_id(id),
                    None => LookupModel::Pending(id),
                },
            },
        }
    }

    /// What has come of the binding that `name` stands for in an assignment
    /// with the identifier `as_of`.
    pub open spec fn lookup(self, name: Seq<char>, as_of: Identifier) -> LookupModel {
        match self.lookup_identifier(name, as_of) {
            Some(id) => self.lookup_by_id(id),
            None => LookupModel::Unknown,
        }
    }

    /// The name of a binding of this scope or of a scope around it.
    pub open spec fn name_of_id(self, id: Identifier) -> Option<Seq<char>>
        decreases self,
    {
        match name_of(self.names, id) {
            Some(name) => Some(name),
            None => match self.parent {
                Some(parent) => parent.name_of_id(id),
                None => None,
            },
        }
    }

    /// The scope after `name` has been bound once more. The new binding
    /// gets the next identifier. The parses that waited for the name now
    /// wait for this binding of it, and for no later one.
    pub open spec fn learn_name(self, name: Seq<char>) -> ScopeModel {
        ScopeModel {
            names: self.names.push((self.next_id, name)),
            blocked_on_name: others(self.blocked_on_name, name),
            blocked_on_id: self.blocked_on_id + parked(
                waiting(self.blocked_on_name, name),
                self.next_id,
            ),
            next_id: (self.next_id + 1) as Identifier,
            ..self
        }
    }

    /// The scope after a name has been bound to something that needs no parse.
    pub open spec fn add_builtin(self, name: Seq<char>, pos: PartOfSpeech) -> ScopeModel {
        let rich = RichIdentifierModel { id: self.next_id, name };
        let learned = self.learn_name(name);
        ScopeModel {
            complete: learned.complete.push(
                (self.next_id, (reference(rich), pos)),
            ),
            ..learned
        }
    }

    /// The scope after an assignment has been taken up: its name is bound,
    /// and its parse can start.
    pub open spec fn begin(self, name: Seq<char>, terms: Seq<TermModel>) -> ScopeModel {
        let learned = self.learn_name(name);
        ScopeModel {
            unblocked: learned.unblocked.push(
                OperationModel { id: self.next_id, state: fresh(terms) },
            ),
            ..learned
        }
    }

    /// The scope after a parse has been made to wait for a name.
    pub open spec fn park_on_name(self, name: Seq<char>, operation: OperationModel) -> ScopeModel {
        ScopeModel { blocked_on_name: self.blocked_on_name.push((name, operation)), ..self }
    }

    /// The scope after a parse has been made to wait for a binding.
    pub open spec fn park_on_id(self, id: Identifier, operation: OperationModel) -> ScopeModel {
        ScopeModel { blocked_on_id: self.blocked_on_id.push((id, operation)), ..self }
    }

    /// The scope after a binding has been parsed. The parses that waited
    /// for it are told its part of speech and can go on.
    pub open spec fn complete(self, id: Identifier, expr: ExpressionModel, pos: PartOfSpeech) -> ScopeModel {
        let rich = RichIdentifierModel { id, name: self.name_of_id(id).unwrap() };
        ScopeModel {
            unblocked: self.unblocked + resumed(waiting(self.blocked_on_id, id), rich, pos),
            blocked_on_id: others(self.blocked_on_id, id),
            complete: self.complete.push((id, (expr, pos))),
            ..self
        }
    }
}

/// The errors of the parses that waited for a binding that failed.
pub open spec fn bad_references(waiters: Seq<OperationModel>, id: Identifier) -> Seq<
    (Identifier, ParseErrorModel),
> {
    Seq::new(waiters.len(), |i: int| (waiters[i].id, ParseErrorModel::BadReference(id)))
}

/// A queue falls into the parses that wait for a key and the others.
pub proof fn lemma_waiting_others_len<K>(queue: Seq<(K, OperationModel)>, key: K)
    ensures
        waiting(queue, key).len() + others(queue, key).len() == queue.len(),
    decreases queue.len(),
{
    if queue.len() > 0 {
        lemma_waiting_others_len(queue.drop_last(), key);
    }
}

impl ScopeModel {
    /// The scope after every failure of `worklist` has been recorded, the last
    /// first, and with each the failure of every parse that waited for the
    /// binding: such a parse fails with a reference to that binding, and
    /// the parses that waited for it fail in their turn.
    pub open spec fn fail_all(self, worklist: Seq<(Identifier, ParseErrorModel)>) -> ScopeModel
        decreases self.blocked_on_id.len() + worklist.len(),
        via Self::fail_all_decreases
    {
        if worklist.len() == 0 {
            self
        } else {
            let id = worklist.last().0;
            let recorded = ScopeModel {
                failed: self.failed.push(worklist.last()),
                blocked_on_id: others(self.blocked_on_id, id),
                ..self
            };
            recorded.fail_all(
                worklist.drop_last() + bad_references(waiting(self.blocked_on_id, id), id),
            )
        }
    }

    #[via_fn]
    proof fn fail_all_decreases(self, worklist: Seq<(Identifier, ParseErrorModel)>) {
        if worklist.len() > 0 {
            lemma_waiting_others_len(self.blocked_on_id, worklist.last().0);
        }
    }

    /// The scope after a binding has failed, and with it every parse that
    /// waited for it, directly or through others.
    pub open spec fn failed(self, id: Identifier, error: ParseErrorModel) -> ScopeModel {
        self.fail_all(seq![(id, error)])
    }

    /// Whether every parse that the scope holds can go on or be told a part of speech.
    pub open spec fn tasks_ready(self) -> bool {
        &&& all_ready(self.unblocked)
        &&& queue_ready(self.blocked_on_name)
        &&& queue_ready(self.blocked_on_id)
    }
}

/// No key of the others is the key that was parted from them.
pub proof fn lemma_others_without_key<K>(queue: Seq<(K, OperationModel)>, key: K)
    ensures
        forall|i: int| 0 <= i < others(queue, key).len() ==> (#[trigger] others(queue, key)[i]).0 != key,
        forall|i: int|
            0 <= i < others(queue, key).len() ==> exists|j: int|
                0 <= j < queue.len() && queue[j] == #[trigger] others(queue, key)[i],
    decreases queue.len(),
{
    if queue.len() > 0 {
        lemma_others_without_key(queue.drop_last(), key);
        assert forall|i: int| 0 <= i < others(queue, key).len() implies (#[trigger] others(
            queue,
            key,
        )[i]).0 != key by {
            if i < others(queue.drop_last(), key).len() {
                assert(others(queue.drop_last(), key)[i].0 != key);
            }
        }
        assert forall|i: int| 0 <= i < others(queue, key).len() implies exists|j: int|
            0 <= j < queue.len() && queue[j] == #[trigger] others(queue, key)[i] by {
            if i < others(queue.drop_last(), key).len() {
                let j = choose|j: int|
                    0 <= j < queue.drop_last().len() && queue.drop_last()[j] == others(
                        queue.drop_last(),
                        key,
                    )[i];
                assert(queue[j] == others(queue, key)[i]);
            } else {
                assert(queue[queue.len() - 1] == others(queue, key)[i]);
            }
        }
    }
}

/// What a scope knows of a binding is about that binding.
pub proof fn lemma_lookup_by_id_keeps_id(scope: ScopeModel, id: Identifier)
    ensures
        match scope.lookup_by_id(id) {
            LookupModel::Unknown => false,
            LookupModel::Pending(found) => found == id && recorded(scope.complete, id) is None
                && recorded(scope.failed, id) is None,
            LookupModel::Failed(found, _) => found == id,
            LookupModel::Complete(found, _, _) => found == id,
        },
    decreases scope,
{
    if recorded(scope.complete, id) is None && recorded(scope.failed, id) is None {
        match scope.parent {
            Some(parent) => {
                lemma_lookup_by_id_keeps_id(*parent, id);
            },
            None => {},
        }
    }
}

/// The models of the bindings with one more.
pub proof fn lemma_name_models_push(names: Seq<(Identifier, String)>, entry: (Identifier, String))
    ensures
        name_models(names.push(entry)) == name_models(names).push((entry.0, entry.1@)),
{
    assert(name_models(names.push(entry)) =~= name_models(names).push((entry.0, entry.1@)));
}

/// The models of the parses with one more.
pub proof fn lemma_operation_models_push(operations: Seq<ParseOperation>, operation: ParseOperation)
    ensures
        operation_models(operations.push(operation)) == operation_models(operations).push(
            operation@,
        ),
{
    assert(operation_models(operations.push(operation)) =~= operation_models(operations).push(
        operation@,
    ));
}

/// The models of a queue with one more parse.
pub proof fn lemma_name_queue_models_push(
    queue: Seq<(String, ParseOperation)>,
    entry: (String, ParseOperation),
)
    ensures
        name_queue_models(queue.push(entry)) == name_queue_models(queue).push(
            (entry.0@, entry.1@),
        ),
{
    assert(name_queue_models(queue.push(entry)) =~= name_queue_models(queue).push(
        (entry.0@, entry.1@),
    ));
}

/// The models of a queue with one more parse.
pub proof fn lemma_id_queue_models_push(
    queue: Seq<(Identifier, ParseOperation)>,
    entry: (Identifier, ParseOperation),
)
    ensures
        id_queue_models(queue.push(entry)) == id_queue_models(queue).push((entry.0, entry.1@)),
{
    assert(id_queue_models(queue.push(entry)) =~= id_queue_models(queue).push(
        (entry.0, entry.1@),
    ));
}

/// The models of the parsed bindings with one more.
pub proof fn lemma_complete_models_push(
    entries: Seq<(Identifier, (Expression, PartOfSpeech))>,
    entry: (Identifier, (Expression, PartOfSpeech)),
)
    ensures
        complete_models(entries.push(entry)) == complete_models(entries).push(
            (entry.0, (entry.1.0@, entry.1.1)),
        ),
{
    assert(complete_models(entries.push(entry)) =~= complete_models(entries).push(
        (entry.0, (entry.1.0@, entry.1.1)),
    ));
}

/// The models of the failed bindings with one more.
pub proof fn lemma_failed_models_push(
    entries: Seq<(Identifier, ParseError)>,
    entry: (Identifier, ParseError),
)
    ensures
        failed_models(entries.push(entry)) == failed_models(entries).push((entry.0, entry.1@)),
{
    assert(failed_models(entries.push(entry)) =~= failed_models(entries).push(
        (entry.0, entry.1@),
    ));
}

/// Parts the parses that wait for `name` from the others.
pub fn split_on_name(queue: Vec<(String, ParseOperation)>, name: &String) -> (parts: (
    Vec<ParseOperation>,
    Vec<(String, ParseOperation)>,
))
    ensures
        operation_models(parts.0@) == waiting(name_queue_models(queue@), name@),
        name_queue_models(parts.1@) == others(name_queue_models(queue@), name@),
{
    let mut woken: Vec<ParseOperation> = Vec::new();
    let mut left: Vec<(String, ParseOperation)> = Vec::new();
    let ghost all = queue@;
    assert(operation_models(woken@) =~= Seq::empty());
    assert(name_queue_models(left@) =~= Seq::empty());
    for entry in it: queue
        invariant
            it.seq() == all,
            operation_models(woken@) == waiting(
                name_queue_models(all.take(it.index() as int)),
                name@,
            ),
            name_queue_models(left@) == others(
                name_queue_models(all.take(it.index() as int)),
                name@,
            ),
    {
        proof {
            let i = it.index() as int;
            assert(all.take(i + 1).drop_last() =~= all.take(i));
            assert(name_queue_models(all.take(i + 1)).drop_last() =~= name_queue_models(
                all.take(i),
            ));
            lemma_operation_models_push(woken@, entry.1);
            lemma_name_queue_models_push(left@, entry);
        }
        if entry.0 == *name {
            woken.push(entry.1);
        } else {
            left.push(entry);
        }
    }
    proof {
        assert(all.take(all.len() as int) =~= all);
    }
    (woken, left)
}

/// Parts the parses that wait for the binding `id` from the others.
pub fn split_on_id(queue: Vec<(Identifier, ParseOperation)>, id: Identifier) -> (parts: (
    Vec<ParseOperation>,
    Vec<(Identifier, ParseOperation)>,
))
    ensures
        operation_models(parts.0@) == waiting(id_queue_models(queue@), id),
        id_queue_models(parts.1@) == others(id_queue_models(queue@), id),
{
    let mut woken: Vec<ParseOperation> = Vec::new();
    let mut left: Vec<(Identifier, ParseOperation)> = Vec::new();
    let ghost all = queue@;
    assert(operation_models(woken@) =~= Seq::empty());
    assert(id_queue_models(left@) =~= Seq::empty());
    for entry in it: queue
        invariant
            it.seq() == all,
            operation_models(woken@) == waiting(id_queue_models(all.take(it.index() as int)), id),
            id_queue_models(left@) == others(id_queue_models(all.take(it.index() as int)), id),
    {
        proof {
            let i = it.index() as int;
            assert(all.take(i + 1).drop_last() =~= all.take(i));
            assert(id_queue_models(all.take(i + 1)).drop_last() =~= id_queue_models(all.take(i)));
            lemma_operation_models_push(woken@, entry.1);
            lemma_id_queue_models_push(left@, entry);
        }
        if entry.0 == id {
            woken.push(entry.1);
        } else {
            left.push(entry);
        }
    }
    proof {
        assert(all.take(all.len() as int) =~= all);
    }
    (woken, left)
}

/// Makes every parse of `operations` wait for the binding `id`.
fn park_all(queue: &mut Vec<(Identifier, ParseOperation)>, operations: Vec<ParseOperation>, id: Identifier)
    ensures
        id_queue_models(final(queue)@) == id_queue_models(old(queue)@) + parked(
            operation_models(operations@),
            id,
        ),
{
    let ghost all = operations@;
    let ghost before = id_queue_models(queue@);
    assert(before =~= before + parked(operation_models(all.take(0)), id));
    for operation in it: operations
        invariant
            it.seq() == all,
            id_queue_models(queue@) == before + parked(
                operation_models(all.take(it.index() as int)),
                id,
            ),
    {
        proof {
            let i = it.index() as int;
            lemma_id_queue_models_push(queue@, (id, operation));
            assert(before + parked(operation_models(all.take(i + 1)), id) =~= (before + parked(
                operation_models(all.take(i)),
                id,
            )).push((id, operation@)));
        }
        queue.push((id, operation));
    }
    proof {
        assert(all.take(all.len() as int) =~= all);
    }
}

/// Whether one of the bindings has this name.
fn has_name(names: &Vec<(Identifier, String)>, name: &String) -> (found: bool)
    ensures
        found == binds(name_models(names@), name@),
{
    let ghost all = name_models(names@);
    let mut found = false;
    let mut i: usize = 0;
    assert(all.take(0) =~= Seq::empty());
    while i < names.len()
        invariant
            i <= names.len(),
            all == name_models(names@),
            found == binds(all.take(i as int), name@),
        decreases names.len() - i,
    {
        assert(all.take(i + 1).drop_last() =~= all.take(i as int));
        if names[i].1 == *name {
            found = true;
        }
        i += 1;
    }
    assert(all.take(i as int) =~= all);
    found
}

/// The last binding of `name` that was allocated before `as_of`.
fn find_previous(names: &Vec<(Identifier, String)>, name: &String, as_of: Identifier) -> (found:
    Option<Identifier>)
    ensures
        found == previous(name_models(names@), name@, as_of),
{
    let ghost all = name_models(names@);
    let mut i: usize = names.len();
    assert(all.take(i as int) =~= all);
    while i > 0
        invariant
            i <= names.len(),
            all == name_models(names@),
            previous(all, name@, as_of) == previous(all.take(i as int), name@, as_of),
        decreases i,
    {
        assert(all.take(i as int).drop_last() =~= all.take(i - 1));
        i -= 1;
        if names[i].1 == *name && names[i].0 < as_of {
            return Some(names[i].0);
        }
    }
    None
}

/// The first binding of `name` that was allocated at `as_of` or after it.
fn find_following(names: &Vec<(Identifier, String)>, name: &String, as_of: Identifier) -> (found:
    Option<Identifier>)
    ensures
        found == following(name_models(names@), name@, as_of),
{
    let ghost all = name_models(names@);
    let mut found: Option<Identifier> = None;
    let mut i: usize = 0;
    assert(all.take(0) =~= Seq::empty());
    while i < names.len()
        invariant
            i <= names.len(),
            all == name_models(names@),
            found == following(all.take(i as int), name@, as_of),
        decreases names.len() - i,
    {
        assert(all.take(i + 1).drop_last() =~= all.take(i as int));
        if found.is_none() && names[i].1 == *name && names[i].0 >= as_of {
            found = Some(names[i].0);
        }
        i += 1;
    }
    assert(all.take(i as int) =~= all);
    found
}

/// Where the binding `id` stands among the bindings.
pub fn find_name(names: &Vec<(Identifier, String)>, id: Identifier) -> (found: Option<usize>)
    ensures
        match found {
            Some(k) => k < names@.len() && name_of(name_models(names@), id) == Some(names@[k as int].1@),
            None => name_of(name_models(names@), id) is None,
        },
{
    let ghost all = name_models(names@);
    let mut found: Option<usize> = None;
    let mut i: usize = 0;
    assert(all.take(0) =~= Seq::empty());
    while i < names.len()
        invariant
            i <= names.len(),
            all == name_models(names@),
            match found {
                Some(k) => k < i && name_of(all.take(i as int), id) == Some(names@[k as int].1@),
                None => name_of(all.take(i as int), id) is None,
            },
        decreases names.len() - i,
    {
        assert(all.take(i + 1).drop_last() =~= all.take(i as int));
        if found.is_none() && names[i].0 == id {
            found = Some(i);
        }
        i += 1;
    }
    assert(all.take(i as int) =~= all);
    found
}

/// Where the parsed binding `id` stands among the parsed bindings.
fn find_complete(entries: &Vec<(Identifier, (Expression, PartOfSpeech))>, id: Identifier) -> (found:
    Option<usize>)
    ensures
        match found {
            Some(k) => k < entries@.len() && recorded(complete_models(entries@), id) == Some(
                (entries@[k as int].1.0@, entries@[k as int].1.1),
            ),
            None => recorded(complete_models(entries@), id) is None,
        },
{
    let ghost all = complete_models(entries@);
    let mut found: Option<usize> = None;
    let mut i: usize = 0;
    assert(all.take(0) =~= Seq::empty());
    while i < entries.len()
        invariant
            i <= entries.len(),
            all == complete_models(entries@),
            match found {
                Some(k) => k < i && recorded(all.take(i as int), id) == Some(
                    (entries@[k as int].1.0@, entries@[k as int].1.1),
                ),
                None => recorded(all.take(i as int), id) is None,
            },
        decreases entries.len() - i,
    {
        assert(all.take(i + 1).drop_last() =~= all.take(i as int));
        if found.is_none() && entries[i].0 == id {
            found = Some(i);
        }
        i += 1;
    }
    assert(all.take(i as int) =~= all);
    found
}

/// Where the failed binding `id` stands among the failed bindings.
fn find_failed(entries: &Vec<(Identifier, ParseError)>, id: Identifier) -> (found: Option<usize>)
    ensures
        match found {
            Some(k) => k < entries@.len() && recorded(failed_models(entries@), id) == Some(
                entries@[k as int].1@,
            ),
            None => recorded(failed_models(entries@), id) is None,
        },
{
    let ghost all = failed_models(entries@);
    let mut found: Option<usize> = None;
    let mut i: usize = 0;
    assert(all.take(0) =~= Seq::empty());
    while i < entries.len()
        invariant
            i <= entries.len(),
            all == failed_models(entries@),
            match found {
                Some(k) => k < i && recorded(all.take(i as int), id) == Some(entries@[k as int].1@),
                None => recorded(all.take(i as int), id) is None,
            },
        decreases entries.len() - i,
    {
        assert(all.take(i + 1).drop_last() =~= all.take(i as int));
        if found.is_none() && entries[i].0 == id {
            found = Some(i);
        }
        i += 1;
    }
    assert(all.take(i as int) =~= all);
    found
}

/// Whether every parse of the sequence can go on or be told a part of speech.
pub open spec fn all_ready(operations: Seq<OperationModel>) -> bool {
    forall|i: int| 0 <= i < operations.len() ==> ready((#[trigger] operations[i]).state)
}

/// Whether every parse of the queue can go on or be told a part of speech.
pub open spec fn queue_ready<K>(queue: Seq<(K, OperationModel)>) -> bool {
    forall|i: int| 0 <= i < queue.len() ==> ready((#[trigger] queue[i]).1.state)
}

/// Parting a queue of ready parses leaves ready parses on both sides.
pub proof fn lemma_split_ready<K>(queue: Seq<(K, OperationModel)>, key: K)
    requires
        queue_ready(queue),
    ensures
        all_ready(waiting(queue, key)),
        queue_ready(others(queue, key)),
    decreases queue.len(),
{
    if queue.len() > 0 {
        assert forall|i: int| 0 <= i < queue.drop_last().len() implies ready(
            (#[trigger] queue.drop_last()[i]).1.state,
        ) by {
            assert(queue.drop_last()[i] == queue[i]);
        }
        lemma_split_ready(queue.drop_last(), key);
        assert(ready(queue[queue.len() - 1].1.state));
    }
}

/// Tells every parse of `operations` the part of speech of the binding
/// that it waited for, and puts it with the parses that can go on.
pub fn resume_all(
    queue: &mut Vec<ParseOperation>,
    operations: Vec<ParseOperation>,
    rich: &RichIdentifier,
    pos: PartOfSpeech,
)
    requires
        all_ready(operation_models(operations@)),
    ensures
        operation_models(final(queue)@) == operation_models(old(queue)@) + resumed(
            operation_models(operations@),
            rich@,
            pos,
        ),
{
    let ghost all = operations@;
    let ghost before = operation_models(queue@);
    assert(before =~= before + resumed(operation_models(all.take(0)), rich@, pos));
    for operation in it: operations
        invariant
            it.seq() == all,
            all_ready(operation_models(all)),
            operation_models(queue@) == before + resumed(
                operation_models(all.take(it.index() as int)),
                rich@,
                pos,
            ),
    {
        let ghost i = it.index() as int;
        let mut operation = operation;
        assert(operation@ == operation_models(all)[i]);
        operation.state.provide(rich.clone(), pos);
        proof {
            lemma_operation_models_push(queue@, operation);
            assert(before + resumed(operation_models(all.take(i + 1)), rich@, pos) =~= (before
                + resumed(operation_models(all.take(i)), rich@, pos)).push(operation@));
        }
        queue.push(operation);
    }
    proof {
        assert(all.take(all.len() as int) =~= all);
    }
}

/// Records, for every parse of `waiters`, that it fails with a reference to the binding `id`.
fn push_bad_references(
    worklist: &mut Vec<(Identifier, ParseError)>,
    waiters: Vec<ParseOperation>,
    id: Identifier,
)
    ensures
        failed_models(final(worklist)@) == failed_models(old(worklist)@) + bad_references(
            operation_models(waiters@),
            id,
        ),
{
    let ghost all = waiters@;
    let ghost before = failed_models(worklist@);
    assert(before =~= before + bad_references(operation_models(all.take(0)), id));
    for waiter in it: waiters
        invariant
            it.seq() == all,
            failed_models(worklist@) == before + bad_references(
                operation_models(all.take(it.index() as int)),
                id,
            ),
    {
        let ghost i = it.index() as int;
        let entry = (waiter.id, ParseError::BadReference(id));
        proof {
            lemma_failed_models_push(worklist@, entry);
            assert(before + bad_references(operation_models(all.take(i + 1)), id) =~= (before
                + bad_references(operation_models(all.take(i)), id)).push((entry.0, entry.1@)));
        }
        worklist.push(entry);
    }
    proof {
        assert(all.take(all.len() as int) =~= all);
    }
}

/// An assignment of a block: a name, and the terms of what it is bound to.
#[derive(Debug)]
pub struct Assignment {
    pub name: String,
    pub expression: Vec<Term>,
}

/// The model of an [`Assignment`].
pub struct AssignmentModel {
    pub name: Seq<char>,
    pub expression: Seq<TermModel>,
}

impl View for Assignment {
    type V = AssignmentModel;

    open spec fn view(&self) -> AssignmentModel {
        AssignmentModel { name: self.name@, expression: term_models(self.expression@) }
    }
}

/// What a name stands for in an assignment, without what has been parsed or gone wrong.
#[derive(Debug, PartialEq, Eq, Copy, Clone, Structural)]
pub enum Resolution {
    Unknown,
    Pending(Identifier),
    Failed(Identifier),
    Complete(Identifier, PartOfSpeech),
}

/// The resolution that a lookup amounts to.
pub open spec fn resolution_of(found: LookupModel) -> Resolution {
    match found {
        LookupModel::Unknown => Resolution::Unknown,
        LookupModel::Pending(id) => Resolution::Pending(id),
        LookupModel::Failed(id, _) => Resolution::Failed(id),
        LookupModel::Complete(id, _, pos) => Resolution::Complete(id, pos),
    }
}

/// The models of the parses without the last.
pub proof fn lemma_operation_models_drop_last(operations: Seq<ParseOperation>)
    requires
        operations.len() > 0,
    ensures
        operation_models(operations.drop_last()) == operation_models(operations).drop_last(),
{
    assert(operation_models(operations.drop_last()) =~= operation_models(operations).drop_last());
}

impl Scope {
    /// A scope that has bound nothing yet, inside `parent_scope` if there is one.
    pub fn new(parent_scope: Option<Rc<Scope>>) -> (scope: Scope)
        ensures
            scope@ == ScopeModel::new(
                match parent_scope {
                    Some(parent) => Some((*parent)@),
                    None => None,
                },
            ),
            scope.parent_scope == parent_scope,
            scope@.tasks_ready(),
    {
        let allocator = match &parent_scope {
            None => Allocator::new(),
            Some(parent) => Allocator { current: parent.allocator.current },
        };
        let scope = Scope {
            names: Vec::new(),
            blocked_on_name: Vec::new(),
            blocked_on_id: Vec::new(),
            complete: Vec::new(),
            failed: Vec::new(),
            unblocked: Vec::new(),
            parent_scope,
            allocator,
        };
        assert(scope@.names =~= Seq::empty());
        assert(scope@.blocked_on_name =~= Seq::empty());
        assert(scope@.blocked_on_id =~= Seq::empty());
        assert(scope@.complete =~= Seq::empty());
        assert(scope@.failed =~= Seq::empty());
        assert(scope@.unblocked =~= Seq::empty());
        scope
    }

    /// A scope that has bound nothing yet, inside `parent_scope` if there is
    /// one, which goes on with the identifiers of `allocator`: that of the
    /// scope before it, so that the two share no identifier.
    pub fn with_allocator(parent_scope: Option<Rc<Scope>>, allocator: Allocator) -> (scope: Scope)
        ensures
            scope@ == (ScopeModel {
                next_id: allocator.current,
                ..ScopeModel::new(
                    match parent_scope {
                        Some(parent) => Some((*parent)@),
                        None => None,
                    },
                )
            }),
            scope.parent_scope == parent_scope,
            scope@.tasks_ready(),
    {
        let mut scope = Scope::new(parent_scope);
        scope.allocator = allocator;
        scope
    }

    /// Binds `name` once more and hands out the identifier of the new binding.
    pub fn learn_name(&mut self, name: String) -> (id: Identifier)
        requires
            old(self)@.next_id < u64::MAX,
        ensures
            id == old(self)@.next_id,
            final(self)@ == old(self)@.learn_name(name@),
            final(self).parent_scope == old(self).parent_scope,
    {
        let id = self.allocator.next();
        let mut queue: Vec<(String, ParseOperation)> = Vec::new();
        core::mem::swap(&mut queue, &mut self.blocked_on_name);
        let (woken, left) = split_on_name(queue, &name);
        self.blocked_on_name = left;
        park_all(&mut self.blocked_on_id, woken, id);
        proof {
            lemma_name_models_push(self.names@, (id, name));
        }
        self.names.push((id, name));
        id
    }

    /// Binds `name` to something that needs no parse: a reference to the
    /// binding itself, with the part of speech `pos`.
    pub fn add_builtin(&mut self, name: &str, pos: PartOfSpeech)
        requires
            old(self)@.next_id < u64::MAX,
        ensures
            final(self)@ == old(self)@.add_builtin(name@, pos),
            final(self).parent_scope == old(self).parent_scope,
    {
        let name = name.to_owned();
        let id = self.learn_name(name.clone());
        let entry = (id, (Expression::id(RichIdentifier::new(id, name)), pos));
        proof {
            lemma_complete_models_push(self.complete@, entry);
        }
        self.complete.push(entry);
    }

    /// Takes up an assignment: binds its name and makes its parse ready to start.
    pub fn begin(&mut self, assignment: Assignment)
        requires
            old(self)@.next_id < u64::MAX,
        ensures
            final(self)@ == old(self)@.begin(assignment.name@, term_models(assignment.expression@)),
            final(self).parent_scope == old(self).parent_scope,
    {
        let Assignment { name, expression } = assignment;
        let state = ExpressionParsnip::new(expression);
        let id = self.learn_name(name);
        let operation = ParseOperation::new(id, state);
        proof {
            lemma_operation_models_push(self.unblocked@, operation);
        }
        self.unblocked.push(operation);
    }

    /// Makes a parse wait until `prereq_name` is bound.
    pub fn blocked_on_name(&mut self, prereq_name: String, parse: ParseOperation)
        ensures
            final(self)@ == old(self)@.park_on_name(prereq_name@, parse@),
            final(self).parent_scope == old(self).parent_scope,
    {
        proof {
            lemma_name_queue_models_push(self.blocked_on_name@, (prereq_name, parse));
        }
        self.blocked_on_name.push((prereq_name, parse));
    }

    /// Makes a parse wait until the binding `prereq_id` has been parsed.
    pub fn blocked_on_id(&mut self, prereq_id: Identifier, parse: ParseOperation)
        ensures
            final(self)@ == old(self)@.park_on_id(prereq_id, parse@),
            final(self).parent_scope == old(self).parent_scope,
    {
        proof {
            lemma_id_queue_models_push(self.blocked_on_id@, (prereq_id, parse));
        }
        self.blocked_on_id.push((prereq_id, parse));
    }

    /// Records that the binding `id` has failed with `error`. Every parse
    /// that waited for the binding fails with a reference to it, and so, in
    /// their turn, do the parses that waited for those.
    ///
    /// A binding fails once: nothing may be recorded of its failure yet.
    pub fn failed(&mut self, id: Identifier, error: ParseError)
        requires
            recorded(old(self)@.failed, id) is None,
        ensures
            final(self)@ == old(self)@.failed(id, error@),
            final(self).parent_scope == old(self).parent_scope,
    {
        let mut worklist: Vec<(Identifier, ParseError)> = vec![(id, error)];
        assert(failed_models(worklist@) =~= seq![(id, error@)]);
        loop
            invariant
                self@.fail_all(failed_models(worklist@)) == old(self)@.failed(id, error@),
                self.parent_scope == old(self).parent_scope,
            ensures
                self@ == old(self)@.failed(id, error@),
                self.parent_scope == old(self).parent_scope,
            decreases self.blocked_on_id@.len() + worklist@.len(),
        {
            let ghost before = self@;
            let ghost pending = failed_models(worklist@);
            match worklist.pop() {
                None => {
                    assert(pending.len() == 0);
                    break ;
                },
                Some(entry) => {
                    let failed_id = entry.0;
                    proof {
                        assert(failed_models(worklist@) =~= pending.drop_last());
                        assert(pending.last() == (entry.0, entry.1@));
                        lemma_waiting_others_len(before.blocked_on_id, failed_id);
                        lemma_failed_models_push(self.failed@, entry);
                    }
                    let mut queue: Vec<(Identifier, ParseOperation)> = Vec::new();
                    core::mem::swap(&mut queue, &mut self.blocked_on_id);
                    let (waiters, left) = split_on_id(queue, failed_id);
                    self.blocked_on_id = left;
                    self.failed.push(entry);
                    push_bad_references(&mut worklist, waiters, failed_id);
                },
            }
        }
    }

    /// Records that the binding `id` has been parsed. Every parse that
    /// waited for it is told its part of speech and can go on.
    ///
    /// A binding is completed once: nothing may be recorded of it yet. It
    /// must be a binding of this scope or of a scope around it, and every
    /// parse that waits for a binding must be able to go on.
    pub fn complete(&mut self, id: Identifier, expr: Expression, pos: PartOfSpeech)
        requires
            recorded(old(self)@.complete, id) is None,
            old(self)@.name_of_id(id) is Some,
            queue_ready(old(self)@.blocked_on_id),
        ensures
            final(self)@ == old(self)@.complete(id, expr@, pos),
            final(self).parent_scope == old(self).parent_scope,
    {
        let rich_id = RichIdentifier::new(id, self.name_of_id(&id));
        proof {
            lemma_split_ready(self@.blocked_on_id, id);
            lemma_complete_models_push(self.complete@, (id, (expr, pos)));
        }
        let mut queue: Vec<(Identifier, ParseOperation)> = Vec::new();
        core::mem::swap(&mut queue, &mut self.blocked_on_id);
        let (woken, left) = split_on_id(queue, id);
        self.blocked_on_id = left;
        resume_all(&mut self.unblocked, woken, &rich_id, pos);
        self.complete.push((id, (expr, pos)));
    }

    /// The binding of `name` that an assignment with the identifier `as_of`
    /// looks back to: the latest one before it.
    pub fn lookup_previous_identifier(&self, name: &str, as_of: Identifier) -> (id: Option<
        Identifier,
    >)
        ensures
            id == self@.lookup_previous_identifier(name@, as_of),
    {
        self.previous_binding(&name.to_owned(), as_of)
    }

    fn previous_binding(&self, name: &String, as_of: Identifier) -> (id: Option<Identifier>)
        ensures
            id == self@.lookup_previous_identifier(name@, as_of),
        decreases self,
    {
        if has_name(&self.names, name) {
            find_previous(&self.names, name, as_of)
        } else {
            match &self.parent_scope {
                None => None,
                Some(scope) => scope.previous_binding(name, as_of),
            }
        }
    }

    /// The binding of `name` that an assignment with the identifier `as_of`
    /// looks ahead to: the earliest one that is not before it.
    pub fn lookup_next_identifier(&self, name: &str, as_of: Identifier) -> (id: Option<Identifier>)
        ensures
            id == self@.lookup_next_identifier(name@, as_of),
    {
        self.next_binding(&name.to_owned(), as_of)
    }

    fn next_binding(&self, name: &String, as_of: Identifier) -> (id: Option<Identifier>)
        ensures
            id == self@.lookup_next_identifier(name@, as_of),
        decreases self,
    {
        if has_name(&self.names, name) {
            find_following(&self.names, name, as_of)
        } else {
            match &self.parent_scope {
                None => None,
                Some(scope) => scope.next_binding(name, as_of),
            }
        }
    }

    /// The binding that `name` stands for in an assignment with the
    /// identifier `as_of`: the latest binding before the assignment, or
    /// else the earliest one that is not before it.
    pub fn lookup_identifier(&self, name: &str, as_of: Identifier) -> (id: Option<Identifier>)
        ensures
            id == self@.lookup_identifier(name@, as_of),
    {
        match self.lookup_previous_identifier(name, as_of) {
            Some(id) => Some(id),
            None => self.lookup_next_identifier(name, as_of),
        }
    }

    /// What has come of the binding `id`.
    pub fn lookup_by_id<'a>(&'a self, id: Identifier) -> (result: LookupResult<'a>)
        ensures
            result@ == self@.lookup_by_id(id),
        decreases self,
    {
        match find_complete(&self.complete, id) {
            Some(k) => LookupResult::Complete(id, &self.complete[k].1.0, self.complete[k].1.1),
            None => match find_failed(&self.failed, id) {
                Some(k) => LookupResult::Failed(id, &self.failed[k].1),
                None => match &self.parent_scope {
                    None => LookupResult::Pending(id),
                    Some(scope) => scope.lookup_by_id(id),
                },
            },
        }
    }

    /// What has come of the binding that `name` stands for in an
    /// assignment with the identifier `as_of`.
    pub fn lookup<'a>(&'a self, name: &str, as_of: Identifier) -> (result: LookupResult<'a>)
        ensures
            result@ == self@.lookup(name@, as_of),
    {
        match self.lookup_identifier(name, as_of) {
            Some(id) => self.lookup_by_id(id),
            None => LookupResult::Unknown,
        }
    }

    /// What `name` stands for in an assignment with the identifier `as_of`.
    pub fn resolve(&self, name: &String, as_of: Identifier) -> (found: Resolution)
        ensures
            found == resolution_of(self@.lookup(name@, as_of)),
    {
        match self.lookup(name.as_str(), as_of) {
            LookupResult::Unknown => Resolution::Unknown,
            LookupResult::Pending(id) => Resolution::Pending(id),
            LookupResult::Failed(id, _) => Resolution::Failed(id),
            LookupResult::Complete(id, _, pos) => Resolution::Complete(id, pos),
        }
    }

    /// Takes the parse that is next to run, if there is one.
    pub fn take_next(&mut self) -> (next: Option<ParseOperation>)
        ensures
            final(self).parent_scope == old(self).parent_scope,
            old(self)@.unblocked.len() == 0 ==> next is None && final(self)@ == old(self)@,
            old(self)@.unblocked.len() > 0 ==> next is Some && next->Some_0@
                == old(self)@.unblocked.last() && final(self)@ == (ScopeModel {
                unblocked: old(self)@.unblocked.drop_last(),
                ..old(self)@
            }),
    {
        proof {
            if self.unblocked@.len() > 0 {
                lemma_operation_models_drop_last(self.unblocked@);
            }
        }
        self.unblocked.pop()
    }

    /// The name of a binding of this scope or of a scope around it.
    pub fn name_of_id(&self, id: &Identifier) -> (name: String)
        requires
            self@.name_of_id(*id) is Some,
        ensures
            Some(name@) == self@.name_of_id(*id),
        decreases self,
    {
        match find_name(&self.names, *id) {
            Some(k) => self.names[k].1.clone(),
            None => match &self.parent_scope {
                Some(scope) => scope.name_of_id(id),
                None => unreached(),
            },
        }
    }
}

} // verus!
