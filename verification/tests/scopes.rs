use petal_syntax::error::ParseError;
use petal_syntax::expression::{Atom, Expression, RichIdentifier};
use petal_syntax::frame::ParseResult;
use petal_syntax::parsnip::{ExpressionParsnip, Parsnip};
use petal_syntax::pos::{Arity, PartOfSpeech};
use petal_syntax::scope::{Allocator, Assignment, LookupResult, ParseOperation, Resolution, Scope};
use petal_syntax::terms::Term;
use std::rc::Rc;

fn word(name: &str) -> Term {
    Term::Identifier(name.to_string())
}

// A parse that has stopped for the name `name`.
fn waiting_for(id: u64, name: &str) -> ParseOperation {
    let mut state = ExpressionParsnip::new(vec![Term::NumericLiteral(1), word("+"), word(name)]);
    match state.parse() {
        Ok(ParseResult::PendingName(found)) => assert_eq!(found, name),
        other => panic!("{:?}", other),
    }
    ParseOperation::new(id, state)
}

fn top_of(parse: &ParseOperation) -> Option<&(Expression, PartOfSpeech)> {
    parse.state.0.last().unwrap().stack.last().unwrap().as_ref()
}

#[test]
fn identifiers_are_handed_out_in_order() {
    let mut allocator = Allocator::new();
    assert_eq!(allocator.current, 0);
    assert_eq!(allocator.next(), 0);
    assert_eq!(allocator.next(), 1);
    assert_eq!(allocator.next(), 2);
    assert_eq!(allocator.current, 3);
}

#[test]
fn a_new_scope_is_empty() {
    let scope = Scope::new(None);
    assert!(scope.names.is_empty());
    assert!(scope.blocked_on_name.is_empty());
    assert!(scope.blocked_on_id.is_empty());
    assert!(scope.complete.is_empty());
    assert!(scope.failed.is_empty());
    assert!(scope.unblocked.is_empty());
    assert!(scope.parent_scope.is_none());
    assert_eq!(scope.allocator.current, 0);
}

#[test]
fn an_inner_scope_goes_on_with_the_identifiers() {
    let mut outer = Scope::new(None);
    assert_eq!(outer.learn_name("a".to_string()), 0);
    assert_eq!(outer.learn_name("b".to_string()), 1);
    let mut inner = Scope::new(Some(Rc::new(outer)));
    assert_eq!(inner.allocator.current, 2);
    assert_eq!(inner.learn_name("a".to_string()), 2);
    assert_eq!(inner.name_of_id(&2), "a");
    assert_eq!(inner.name_of_id(&1), "b");
    assert_eq!(inner.name_of_id(&0), "a");
}

#[test]
fn learning_a_name_binds_it_once_more() {
    let mut scope = Scope::new(None);
    let first = scope.learn_name("foo".to_string());
    let other = scope.learn_name("bar".to_string());
    let second = scope.learn_name("foo".to_string());
    assert_eq!((first, other, second), (0, 1, 2));
    assert_eq!(
        scope.names,
        vec![(0, "foo".to_string()), (1, "bar".to_string()), (2, "foo".to_string())]
    );
    assert_eq!(scope.name_of_id(&second), "foo");
    assert_eq!(scope.name_of_id(&other), "bar");
}

#[test]
fn parses_that_waited_for_a_name_wait_for_its_first_binding() {
    let mut scope = Scope::new(None);
    let a = scope.learn_name("a".to_string());
    let b = scope.learn_name("b".to_string());
    scope.blocked_on_name("foo".to_string(), waiting_for(a, "foo"));
    scope.blocked_on_name("other".to_string(), waiting_for(b, "other"));
    assert_eq!(scope.blocked_on_name.len(), 2);
    let foo = scope.learn_name("foo".to_string());
    assert_eq!(scope.blocked_on_name.len(), 1);
    assert_eq!(scope.blocked_on_name[0].0, "other");
    assert_eq!(scope.blocked_on_name[0].1.id, b);
    assert_eq!(scope.blocked_on_id.len(), 1);
    assert_eq!(scope.blocked_on_id[0].0, foo);
    assert_eq!(scope.blocked_on_id[0].1.id, a);
    // A later binding of the name does not take the parse over.
    let later = scope.learn_name("foo".to_string());
    assert_ne!(later, foo);
    assert_eq!(scope.blocked_on_id.len(), 1);
    assert_eq!(scope.blocked_on_id[0].0, foo);
}

#[test]
fn looking_back_and_ahead() {
    let mut scope = Scope::new(None);
    scope.learn_name("pad".to_string());
    let first = scope.learn_name("foo".to_string());
    scope.learn_name("pad".to_string());
    let second = scope.learn_name("foo".to_string());
    let third = scope.learn_name("foo".to_string());
    assert_eq!((first, second, third), (1, 3, 4));

    assert_eq!(scope.lookup_previous_identifier("foo", 0), None);
    assert_eq!(scope.lookup_previous_identifier("foo", 1), None);
    assert_eq!(scope.lookup_previous_identifier("foo", 2), Some(1));
    assert_eq!(scope.lookup_previous_identifier("foo", 3), Some(1));
    assert_eq!(scope.lookup_previous_identifier("foo", 4), Some(3));
    assert_eq!(scope.lookup_previous_identifier("foo", 5), Some(4));
    assert_eq!(scope.lookup_previous_identifier("foo", 100), Some(4));
    assert_eq!(scope.lookup_previous_identifier("nothing", 100), None);

    assert_eq!(scope.lookup_next_identifier("foo", 0), Some(1));
    assert_eq!(scope.lookup_next_identifier("foo", 1), Some(1));
    assert_eq!(scope.lookup_next_identifier("foo", 2), Some(3));
    assert_eq!(scope.lookup_next_identifier("foo", 3), Some(3));
    assert_eq!(scope.lookup_next_identifier("foo", 4), Some(4));
    assert_eq!(scope.lookup_next_identifier("foo", 5), None);
    assert_eq!(scope.lookup_next_identifier("nothing", 0), None);

    // An assignment sees the latest binding before it, and its own only if there is none.
    assert_eq!(scope.lookup_identifier("foo", 0), Some(1));
    assert_eq!(scope.lookup_identifier("foo", 1), Some(1));
    assert_eq!(scope.lookup_identifier("foo", 2), Some(1));
    assert_eq!(scope.lookup_identifier("foo", 3), Some(1));
    assert_eq!(scope.lookup_identifier("foo", 4), Some(3));
    assert_eq!(scope.lookup_identifier("foo", 5), Some(4));
    assert_eq!(scope.lookup_identifier("nothing", 5), None);
}

#[test]
fn a_name_of_the_inner_scope_hides_the_outer_one() {
    let mut outer = Scope::new(None);
    let outer_foo = outer.learn_name("foo".to_string());
    let outer_bar = outer.learn_name("bar".to_string());
    let mut inner = Scope::new(Some(Rc::new(outer)));
    let first = inner.learn_name("first".to_string());
    let inner_foo = inner.learn_name("foo".to_string());
    // The inner scope binds foo: the outer binding is not looked at, though it is older.
    assert_eq!(inner.lookup_previous_identifier("foo", first), None);
    assert_eq!(inner.lookup_identifier("foo", first), Some(inner_foo));
    assert_eq!(inner.lookup_identifier("foo", inner_foo + 1), Some(inner_foo));
    // The inner scope does not bind bar: the outer scope is asked.
    assert_eq!(inner.lookup_identifier("bar", first), Some(outer_bar));
    assert_eq!(inner.lookup_previous_identifier("bar", first), Some(outer_bar));
    assert_eq!(inner.lookup_next_identifier("bar", first), None);
    assert_eq!(inner.lookup_next_identifier("bar", 0), Some(outer_bar));
    assert!(outer_foo < first);
}

#[test]
fn what_has_come_of_a_binding() {
    let mut outer = Scope::new(None);
    outer.add_builtin("+", PartOfSpeech::Verb(Arity::Binary));
    let outer_pending = outer.learn_name("later".to_string());
    let mut inner = Scope::new(Some(Rc::new(outer)));
    let done = inner.learn_name("done".to_string());
    let broken = inner.learn_name("broken".to_string());
    let open = inner.learn_name("open".to_string());
    inner.complete(done, Expression::num(5), PartOfSpeech::Noun);
    inner.failed(broken, ParseError::ArrayLiteralNotNoun);

    match inner.lookup_by_id(done) {
        LookupResult::Complete(id, expr, pos) => {
            assert_eq!(id, done);
            assert_eq!(*expr, Expression::num(5));
            assert_eq!(pos, PartOfSpeech::Noun);
        }
        _ => panic!("not complete"),
    }
    match inner.lookup_by_id(broken) {
        LookupResult::Failed(id, ParseError::ArrayLiteralNotNoun) => assert_eq!(id, broken),
        _ => panic!("not failed"),
    }
    match inner.lookup_by_id(open) {
        LookupResult::Pending(id) => assert_eq!(id, open),
        _ => panic!("not pending"),
    }
    match inner.lookup_by_id(outer_pending) {
        LookupResult::Pending(id) => assert_eq!(id, outer_pending),
        _ => panic!("not pending"),
    }
    match inner.lookup_by_id(0) {
        LookupResult::Complete(0, expr, PartOfSpeech::Verb(Arity::Binary)) => match expr {
            Expression::Atom(Atom::Identifier(rich)) => {
                assert_eq!(rich.id, 0);
                assert_eq!(rich.name, "+");
            }
            other => panic!("{:?}", other),
        },
        _ => panic!("not complete"),
    }
    assert_eq!(inner.resolve(&"done".to_string(), open), Resolution::Complete(done, PartOfSpeech::Noun));
    assert_eq!(inner.resolve(&"broken".to_string(), open), Resolution::Failed(broken));
    assert_eq!(inner.resolve(&"open".to_string(), done), Resolution::Pending(open));
    assert_eq!(inner.resolve(&"later".to_string(), done), Resolution::Pending(outer_pending));
    assert_eq!(inner.resolve(&"nothing".to_string(), done), Resolution::Unknown);
    match inner.lookup("nothing", done) {
        LookupResult::Unknown => {}
        _ => panic!("known"),
    }
}

#[test]
fn a_builtin_is_complete_at_once() {
    let mut scope = Scope::new(None);
    scope.add_builtin("fold", PartOfSpeech::Adverb(Arity::Unary, Arity::Unary));
    scope.add_builtin("x", PartOfSpeech::Noun);
    assert_eq!(scope.names, vec![(0, "fold".to_string()), (1, "x".to_string())]);
    assert_eq!(scope.complete.len(), 2);
    assert_eq!(scope.complete[1].0, 1);
    assert_eq!(scope.complete[1].1 .1, PartOfSpeech::Noun);
    match &scope.complete[0].1 .0 {
        Expression::Atom(Atom::Identifier(rich)) => {
            assert_eq!(rich.id, 0);
            assert_eq!(rich.name, "fold");
        }
        other => panic!("{:?}", other),
    }
    assert_eq!(scope.allocator.current, 2);
}

#[test]
fn beginning_an_assignment_makes_its_parse_ready() {
    let mut scope = Scope::new(None);
    scope.begin(Assignment { name: "foo".to_string(), expression: vec![Term::NumericLiteral(1)] });
    scope.begin(Assignment { name: "bar".to_string(), expression: vec![] });
    assert_eq!(scope.names, vec![(0, "foo".to_string()), (1, "bar".to_string())]);
    assert_eq!(scope.unblocked.len(), 2);
    assert_eq!(scope.unblocked[0].id, 0);
    assert_eq!(scope.unblocked[1].id, 1);
    let frames = &scope.unblocked[0].state.0;
    assert_eq!(frames.len(), 1);
    assert_eq!(frames[0].input, vec![Term::NumericLiteral(1)]);
    assert_eq!(frames[0].stack, vec![None, None, None, None]);
    let next = scope.take_next().unwrap();
    assert_eq!(next.id, 1);
    assert_eq!(scope.unblocked.len(), 1);
}

#[test]
fn completing_a_binding_wakes_what_waited_for_it() {
    let mut scope = Scope::new(None);
    let foo = scope.learn_name("foo".to_string());
    let a = scope.learn_name("a".to_string());
    let b = scope.learn_name("b".to_string());
    let c = scope.learn_name("c".to_string());
    scope.blocked_on_id(foo, waiting_for(a, "foo"));
    scope.blocked_on_id(c, waiting_for(b, "c"));
    scope.blocked_on_id(foo, waiting_for(c, "foo"));
    scope.complete(foo, Expression::num(1), PartOfSpeech::Verb(Arity::Unary));

    assert_eq!(scope.complete.len(), 1);
    assert_eq!(scope.complete[0].0, foo);
    assert_eq!(scope.blocked_on_id.len(), 1);
    assert_eq!(scope.blocked_on_id[0].0, c);
    assert_eq!(scope.blocked_on_id[0].1.id, b);
    let woken: Vec<u64> = scope.unblocked.iter().map(|parse| parse.id).collect();
    assert_eq!(woken, vec![a, c]);
    for parse in &scope.unblocked {
        match top_of(parse) {
            Some((Expression::Atom(Atom::Identifier(rich)), pos)) => {
                assert_eq!(rich.id, foo);
                assert_eq!(rich.name, "foo");
                assert_eq!(*pos, PartOfSpeech::Verb(Arity::Unary));
            }
            other => panic!("{:?}", other),
        }
    }
}

#[test]
fn a_failure_fails_what_waited_for_it() {
    let mut scope = Scope::new(None);
    let foo = scope.learn_name("foo".to_string());
    let a = scope.learn_name("a".to_string());
    let b = scope.learn_name("b".to_string());
    let c = scope.learn_name("c".to_string());
    let d = scope.learn_name("d".to_string());
    scope.blocked_on_id(foo, waiting_for(a, "foo"));
    scope.blocked_on_id(a, waiting_for(b, "a"));
    scope.blocked_on_id(d, waiting_for(c, "d"));
    scope.failed(foo, ParseError::ArrayLiteralNotNoun);

    let failure = |id: u64| scope.failed.iter().find(|(failed, _)| *failed == id).map(|(_, e)| e);
    match failure(foo) {
        Some(ParseError::ArrayLiteralNotNoun) => {}
        other => panic!("{:?}", other),
    }
    match failure(a) {
        Some(ParseError::BadReference(awaited)) => assert_eq!(*awaited, foo),
        other => panic!("{:?}", other),
    }
    match failure(b) {
        Some(ParseError::BadReference(awaited)) => assert_eq!(*awaited, a),
        other => panic!("{:?}", other),
    }
    assert!(failure(c).is_none());
    assert_eq!(scope.failed.len(), 3);
    assert_eq!(scope.blocked_on_id.len(), 1);
    assert_eq!(scope.blocked_on_id[0].1.id, c);
    assert!(scope.unblocked.is_empty());
}

#[test]
fn a_parse_goes_on_with_the_name_it_was_told() {
    let mut parse = waiting_for(7, "foo");
    parse.state.provide(RichIdentifier::new(3, "foo".to_string()), PartOfSpeech::Noun);
    match parse.state.parse() {
        Ok(ParseResult::PendingName(name)) => assert_eq!(name, "+"),
        other => panic!("{:?}", other),
    }
    assert_eq!(parse.id, 7);
}

#[test]
fn scopes_that_follow_each_other_share_no_identifier() {
    let mut outer = Scope::new(None);
    outer.add_builtin("x", PartOfSpeech::Noun);
    let outer = Rc::new(outer);
    let mut first = Scope::new(Some(Rc::clone(&outer)));
    assert_eq!(first.learn_name("a".to_string()), 1);
    assert_eq!(first.learn_name("b".to_string()), 2);
    let mut second = Scope::with_allocator(Some(Rc::clone(&outer)), first.allocator);
    assert!(second.names.is_empty());
    assert_eq!(second.learn_name("a".to_string()), 3);
    assert_eq!(second.name_of_id(&0), "x");
    let mut third = Scope::with_allocator(None, second.allocator);
    assert_eq!(third.learn_name("c".to_string()), 4);
    assert!(third.parent_scope.is_none());
}
