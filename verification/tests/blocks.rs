use petal_syntax::block::{parse_body, BlockParsnip};
use petal_syntax::error::ParseError;
use petal_syntax::expression::{Atom, Builtin, Expression, Identifier, RichIdentifier};
use petal_syntax::frame::ParseResult;
use petal_syntax::parsnip::Parsnip;
use petal_syntax::pos::{Arity, PartOfSpeech};
use petal_syntax::scope::{Assignment, LookupResult, Scope};
use petal_syntax::terms::Term;
use std::collections::HashMap;
use std::rc::Rc;

// ---- reading source text into terms ----

#[derive(Debug, Clone, PartialEq)]
enum Token {
    Number(i64, bool),
    Word(String),
    Open(char),
    Close(char),
    Semicolons(usize),
}

fn tokenize(input: &str) -> Vec<Token> {
    let chars: Vec<char> = input.chars().collect();
    let mut tokens = Vec::new();
    let mut i = 0;
    while i < chars.len() {
        let c = chars[i];
        if c.is_whitespace() {
            i += 1;
        } else if c.is_ascii_digit() {
            let mut n: i64 = 0;
            while i < chars.len() && chars[i].is_ascii_digit() {
                n = n * 10 + chars[i].to_digit(10).unwrap() as i64;
                i += 1;
            }
            let glued = i < chars.len() && (chars[i].is_alphabetic() || chars[i] == '(');
            tokens.push(Token::Number(n, glued));
        } else if c.is_alphabetic() || c == '_' {
            let mut word = String::new();
            while i < chars.len() && (chars[i].is_alphanumeric() || chars[i] == '_') {
                word.push(chars[i]);
                i += 1;
            }
            tokens.push(Token::Word(word));
        } else if c == '(' || c == '[' {
            tokens.push(Token::Open(c));
            i += 1;
        } else if c == ')' || c == ']' {
            tokens.push(Token::Close(c));
            i += 1;
        } else if c == ';' {
            let mut n = 0;
            while i < chars.len() && chars[i] == ';' {
                n += 1;
                i += 1;
            }
            tokens.push(Token::Semicolons(n));
        } else {
            tokens.push(Token::Word(c.to_string()));
            i += 1;
        }
    }
    tokens
}

enum Item {
    Term(Term),
    Break(usize),
}

fn resolve(items: Vec<Item>, brackets: bool) -> Vec<Term> {
    let mut rank = 0;
    for item in &items {
        if let Item::Break(n) = item {
            rank = rank.max(*n);
        }
    }
    if rank == 0 {
        return items
            .into_iter()
            .map(|item| match item {
                Item::Term(term) => term,
                Item::Break(_) => unreachable!(),
            })
            .collect();
    }
    let mut chunks: Vec<Vec<Item>> = vec![Vec::new()];
    for item in items {
        match item {
            Item::Break(n) if n == rank => chunks.push(Vec::new()),
            other => chunks.last_mut().unwrap().push(other),
        }
    }
    chunks
        .into_iter()
        .map(|chunk| {
            let inner = resolve(chunk, brackets);
            if brackets {
                Term::Brackets(inner)
            } else {
                Term::Parens(inner)
            }
        })
        .collect()
}

fn group(tokens: &[Token], at: &mut usize, brackets: bool) -> Vec<Term> {
    let mut items = Vec::new();
    while *at < tokens.len() {
        match &tokens[*at] {
            Token::Number(n, glued) => {
                items.push(Item::Term(if *glued {
                    Term::Coefficient(*n)
                } else {
                    Term::NumericLiteral(*n)
                }));
                *at += 1;
            }
            Token::Word(word) => {
                items.push(Item::Term(Term::Identifier(word.clone())));
                *at += 1;
            }
            Token::Semicolons(n) => {
                items.push(Item::Break(*n));
                *at += 1;
            }
            Token::Open(c) => {
                *at += 1;
                let inner = group(tokens, at, *c == '[');
                items.push(Item::Term(if *c == '[' {
                    Term::Brackets(inner)
                } else {
                    Term::Parens(inner)
                }));
            }
            Token::Close(_) => {
                *at += 1;
                break;
            }
        }
    }
    resolve(items, brackets)
}

fn preparse(input: &str) -> Vec<Term> {
    let tokens = tokenize(input);
    let mut at = 0;
    group(&tokens, &mut at, false)
}

// ---- writing expressions out ----

fn show_builtin(builtin: &Builtin) -> &'static str {
    match builtin {
        Builtin::Scale => "<scale>",
        Builtin::Compose => "<comp>",
        Builtin::ComposeLeft => "<comp-lhs>",
        Builtin::ComposeRight => "<comp-rhs>",
        Builtin::PartialApplicationLeft => "<lhs>",
        Builtin::PartialApplicationRight => "<rhs>",
    }
}

// Tuples and array literals hold the item that was written last first:
// they are written out from the back.
fn show_items(items: &[Expression]) -> String {
    items.iter().rev().map(show).collect::<Vec<_>>().join(" ")
}

fn show(expr: &Expression) -> String {
    match expr {
        Expression::Atom(Atom::Number(n)) => format!("{}", n),
        Expression::Atom(Atom::Identifier(rich)) => rich.name.clone(),
        Expression::Implicit(builtin) => show_builtin(builtin).to_string(),
        Expression::UnaryApplication(f, x) => format!("({} {})", show(f), show(x)),
        Expression::BinaryApplication(f, x, y) => {
            format!("({} {} {})", show(f), show(x), show(y))
        }
        Expression::Parens(inner) => show(inner),
        Expression::Tuple(items) => {
            if items.is_empty() {
                "(<tuple>)".to_string()
            } else {
                format!("(<tuple> {})", show_items(items))
            }
        }
        Expression::Brackets(items) => format!("[{}]", show_items(items)),
        Expression::Compound(bindings, result) => {
            let mut out = String::from("{");
            for (rich, expr) in bindings {
                out.push_str(&format!("{} = {}; ", rich.name, show(expr)));
            }
            out.push_str(&format!("_ = {}}}", show(result)));
            out
        }
    }
}


fn assign(name: &str, expr: &str) -> Assignment {
    Assignment {
        name: name.to_string(),
        expression: preparse(expr),
    }
}

struct Disambiguator {
    name_indices: HashMap<String, u64>,
    name_seen_at: HashMap<Identifier, u64>,
}

impl Disambiguator {
    fn new() -> Self {
        Disambiguator {
            name_indices: HashMap::new(),
            name_seen_at: HashMap::new(),
        }
    }

    fn see(&mut self, rich_id: &RichIdentifier) {
        if !self.name_seen_at.contains_key(&rich_id.id) {
            let ix = self.name_indices.entry(rich_id.name.clone()).or_insert(0);
            self.name_seen_at.insert(rich_id.id, *ix);
            *ix = *ix + 1;
        }
    }

    fn view(&self, rich_id: &RichIdentifier) -> String {
        let name_index = *self.name_seen_at.get(&rich_id.id).unwrap();
        if name_index == 0 {
            rich_id.name.clone()
        } else {
            format!("{}_{}", rich_id.name, name_index)
        }
    }
}

#[derive(Debug)]
enum AssignmentStatus<'a> {
    Complete(&'a Expression, &'a PartOfSpeech),
    Failed(&'a ParseError),
    Cyclic(&'a Identifier),
    Pending(&'a str),
}

fn rewrite_atoms<F: FnMut(&Atom) -> Atom>(expr: &Expression, f: &mut F) -> Expression {
    match expr {
        Expression::Atom(a) => Expression::Atom(f(a)),
        Expression::Parens(inner) => Expression::Parens(Box::new(rewrite_atoms(inner, f))),
        Expression::Implicit(x) => Expression::Implicit(*x),
        Expression::Tuple(exprs) => {
            Expression::Tuple(exprs.iter().map(|expr| rewrite_atoms(expr, f)).collect())
        }
        Expression::Brackets(exprs) => {
            Expression::Brackets(exprs.iter().map(|expr| rewrite_atoms(expr, f)).collect())
        }
        Expression::UnaryApplication(expr1, expr2) => {
            Expression::unary(rewrite_atoms(expr1, f), rewrite_atoms(expr2, f))
        }
        Expression::BinaryApplication(expr1, expr2, expr3) => Expression::binary(
            rewrite_atoms(expr1, f),
            rewrite_atoms(expr2, f),
            rewrite_atoms(expr3, f),
        ),
        Expression::Compound(bindings, expr) => Expression::Compound(
            bindings
                .iter()
                .map(|(id, expr)| (id.clone(), rewrite_atoms(expr, f)))
                .collect(),
            Box::new(rewrite_atoms(expr, f)),
        ),
    }
}

fn print_assignments(scope: &Scope) -> String {
    let mut disambiguator = Disambiguator::new();

    let completes = scope
        .complete
        .iter()
        .map(|(id, (expr, pos))| (*id, AssignmentStatus::Complete(expr, pos)));
    let failures = scope
        .failed
        .iter()
        .map(|(id, error)| (*id, AssignmentStatus::Failed(error)));
    let cyclics = scope
        .blocked_on_id
        .iter()
        .map(|(missing_id, parse)| (parse.id, AssignmentStatus::Cyclic(missing_id)));
    let pendings = scope
        .blocked_on_name
        .iter()
        .map(|(missing_name, parse)| (parse.id, AssignmentStatus::Pending(missing_name)));

    let mut kvps = completes
        .chain(failures)
        .chain(cyclics)
        .chain(pendings)
        .collect::<Vec<_>>();
    kvps.sort_by_key(|x| x.0);
    let mut first = true;
    let mut result = String::new();

    for (id, status) in kvps {
        let name = scope.name_of_id(&id);
        let rich_id = RichIdentifier::new(id, name);
        disambiguator.see(&rich_id);

        if first {
            first = false;
        } else {
            result.push('\n');
        }

        match status {
            AssignmentStatus::Complete(expr, pos) => {
                let mut f = |atom: &Atom| match atom {
                    Atom::Identifier(rich_id) => {
                        disambiguator.see(rich_id);
                        Atom::Identifier(RichIdentifier::new(
                            rich_id.id,
                            disambiguator.view(rich_id),
                        ))
                    }
                    Atom::Number(n) => Atom::Number(*n),
                };
                let expr = rewrite_atoms(expr, &mut f);

                result.push_str(&format!(
                    "{} ({}) = {}",
                    disambiguator.view(&rich_id),
                    pos.to_text(),
                    show(&expr)
                ));
            }
            AssignmentStatus::Failed(ParseError::BadReference(prereq_id)) => {
                let prereq_name = scope.name_of_id(prereq_id);
                let rich_prereq_id = RichIdentifier::new(*prereq_id, prereq_name);
                disambiguator.see(&rich_prereq_id);
                result.push_str(&format!(
                    "{} depends on failed {}",
                    disambiguator.view(&rich_id),
                    disambiguator.view(&rich_prereq_id)
                ));
            }
            AssignmentStatus::Failed(error) => {
                result.push_str(&format!(
                    "{} failed: {:?}",
                    disambiguator.view(&rich_id),
                    error
                ));
            }
            AssignmentStatus::Cyclic(prereq_id) => {
                let prereq_name = scope.name_of_id(prereq_id);
                let rich_prereq_id = RichIdentifier::new(*prereq_id, prereq_name);
                disambiguator.see(&rich_prereq_id);
                result.push_str(&format!(
                    "{} depends on {}",
                    disambiguator.view(&rich_id),
                    disambiguator.view(&rich_prereq_id)
                ));
            }
            AssignmentStatus::Pending(prereq_name) => {
                result.push_str(&format!(
                    "{} depends on unseen {}",
                    disambiguator.view(&rich_id),
                    prereq_name
                ));
            }
        }
    }
    result
}

fn top_level() -> Rc<Scope> {
    let mut top_level_scope = Scope::new(None);
    top_level_scope.add_builtin("+", PartOfSpeech::Verb(Arity::Binary));
    top_level_scope.add_builtin("*", PartOfSpeech::Verb(Arity::Binary));
    top_level_scope.add_builtin(".", PartOfSpeech::Adverb(Arity::Binary, Arity::Binary));
    top_level_scope.add_builtin("fold", PartOfSpeech::Adverb(Arity::Unary, Arity::Unary));
    top_level_scope.add_builtin("flip", PartOfSpeech::Adverb(Arity::Unary, Arity::Binary));
    top_level_scope.add_builtin("x", PartOfSpeech::Noun);
    top_level_scope.add_builtin("y", PartOfSpeech::Noun);
    Rc::new(top_level_scope)
}

fn test_body(assignments: Vec<Assignment>) -> String {
    let top_level_scope = top_level();
    let scope = Scope::new(Some(Rc::clone(&top_level_scope)));
    let mut parsnip = BlockParsnip::new(scope, assignments);
    let _ = parsnip.parse();
    print_assignments(&parsnip.0)
}

fn run_block(assignments: Vec<Assignment>) -> (Result<ParseResult, ParseError>, Scope) {
    let scope = Scope::new(Some(top_level()));
    let mut parsnip = BlockParsnip::new(scope, assignments);
    let result = parsnip.parse();
    (result, parsnip.0)
}

// A snapshot of several lines is written with a line break before and after it.
fn snapshot(actual: String, expected: &str) {
    let expected = if expected.starts_with('\n') && expected.ends_with('\n') {
        &expected[1..expected.len() - 1]
    } else {
        expected
    };
    assert_eq!(actual, expected);
}

#[test]
fn test_independent_assignments() {
    snapshot(
        test_body(vec![assign("foo", "1 + 2"), assign("bar", "3 + 4")]),
        "
foo (n) = (+ 1 2)
bar (n) = (+ 3 4)
",
    );
}

#[test]
fn test_shadowing() {
    snapshot(
        test_body(vec![assign("foo", "1"), assign("foo", "2")]),
        "
foo (n) = 1
foo_1 (n) = 2
",
    );
}

#[test]
fn test_backreference() {
    snapshot(
        test_body(vec![assign("foo", "1"), assign("bar", "foo + 1")]),
        "
foo (n) = 1
bar (n) = (+ foo 1)
",
    );

    snapshot(
        test_body(vec![
            assign("foo", "1"),
            assign("foo", "foo + 1"),
            assign("foo", "foo + 1"),
        ]),
        "
foo (n) = 1
foo_1 (n) = (+ foo 1)
foo_2 (n) = (+ foo_1 1)
",
    );
}

#[test]
fn test_recursive_reference() {
    snapshot(
        test_body(vec![assign("foo", "foo + 1")]),
        "foo depends on foo",
    );
}

#[test]
fn test_error_propagation() {
    snapshot(
        test_body(vec![assign("foo", "[+]"), assign("bar", "foo + 1")]),
        "
foo failed: ArrayLiteralNotNoun
bar depends on failed foo
",
    );
}

#[test]
fn test_cyclic_reference() {
    snapshot(
        test_body(vec![assign("foo", "bar + 1"), assign("bar", "foo + 1")]),
        "
foo depends on bar
bar depends on foo
",
    );

    snapshot(
        test_body(vec![
            assign("foo", "bar + 1"),
            assign("bar", "baz + 1"),
            assign("baz", "foo + 1"),
        ]),
        "
foo depends on bar
bar depends on baz
baz depends on foo
",
    );
}

#[test]
fn test_forward_reference() {
    snapshot(
        test_body(vec![assign("foo", "bar + 1"), assign("bar", "1")]),
        "
foo (n) = (+ bar 1)
bar (n) = 1
",
    );
}

// ---- further cases ----

fn compound(result: Result<ParseResult, ParseError>) -> (Vec<(RichIdentifier, Expression)>, Expression, PartOfSpeech) {
    match result {
        Ok(ParseResult::Complete(Expression::Compound(bindings, result), pos)) => {
            (bindings, *result, pos)
        }
        other => panic!("no compound: {:?}", other),
    }
}

fn reference_of(expr: &Expression) -> &RichIdentifier {
    match expr {
        Expression::Atom(Atom::Identifier(rich)) => rich,
        other => panic!("no reference: {:?}", other),
    }
}

#[test]
fn a_block_with_a_result_is_a_compound() {
    let (result, scope) = run_block(vec![
        assign("foo", "bar + 1"),
        assign("bar", "1"),
        assign("_", "foo"),
    ]);
    let (bindings, result, pos) = compound(result);
    assert_eq!(pos, PartOfSpeech::Noun);
    // The seven names of the outer scope come first: foo is 7, bar is 8.
    assert_eq!(bindings.len(), 2);
    let foo = bindings.iter().find(|(rich, _)| rich.name == "foo").unwrap();
    let bar = bindings.iter().find(|(rich, _)| rich.name == "bar").unwrap();
    assert_eq!(foo.0.id, 7);
    assert_eq!(bar.0.id, 8);
    assert_eq!(show(&foo.1), "(+ bar 1)");
    assert_eq!(show(&bar.1), "1");
    match &foo.1 {
        Expression::BinaryApplication(_, x, _) => assert_eq!(reference_of(x).id, 8),
        other => panic!("{:?}", other),
    }
    assert_eq!(reference_of(&result).id, 7);
    assert_eq!(reference_of(&result).name, "foo");
    // The block has handed over what its bindings were parsed to.
    assert!(scope.complete.is_empty());
    assert!(scope.unblocked.is_empty());
}

#[test]
fn a_later_binding_shadows_an_earlier_one() {
    let (result, _) = run_block(vec![assign("foo", "1"), assign("foo", "2"), assign("_", "foo")]);
    let (bindings, result, _) = compound(result);
    assert_eq!(bindings.len(), 2);
    assert_eq!(bindings[0].0.name, "foo");
    assert_eq!(bindings[1].0.name, "foo");
    assert_ne!(bindings[0].0.id, bindings[1].0.id);
    let second = bindings.iter().find(|(_, expr)| *expr == Expression::num(2)).unwrap();
    let first = bindings.iter().find(|(_, expr)| *expr == Expression::num(1)).unwrap();
    assert!(first.0.id < second.0.id);
    assert_eq!(reference_of(&result).id, second.0.id);
}

#[test]
fn a_name_refers_to_the_latest_binding_before_it() {
    let (result, _) = run_block(vec![
        assign("foo", "1"),
        assign("foo", "foo + 1"),
        assign("foo", "foo + 1"),
        assign("_", "foo"),
    ]);
    let (bindings, result, _) = compound(result);
    assert_eq!(bindings.len(), 3);
    let by_id = |id: Identifier| &bindings.iter().find(|(rich, _)| rich.id == id).unwrap().1;
    assert_eq!(*by_id(7), Expression::num(1));
    match by_id(8) {
        Expression::BinaryApplication(_, x, _) => assert_eq!(reference_of(x).id, 7),
        other => panic!("{:?}", other),
    }
    match by_id(9) {
        Expression::BinaryApplication(_, x, _) => assert_eq!(reference_of(x).id, 8),
        other => panic!("{:?}", other),
    }
    assert_eq!(reference_of(&result).id, 9);
}

#[test]
fn the_last_binding_of_the_result_counts() {
    let (result, _) = run_block(vec![assign("_", "1"), assign("_", "2 + 2")]);
    let (bindings, result, pos) = compound(result);
    assert_eq!(pos, PartOfSpeech::Noun);
    assert_eq!(show(&result), "(+ 2 2)");
    assert_eq!(bindings.len(), 1);
    assert_eq!(bindings[0].0.name, "_");
    assert_eq!(bindings[0].1, Expression::num(1));
}

#[test]
fn the_compound_has_the_part_of_speech_of_its_result() {
    let (result, _) = run_block(vec![assign("_", "fold +")]);
    let (bindings, result, pos) = compound(result);
    assert!(bindings.is_empty());
    assert_eq!(pos, PartOfSpeech::Verb(Arity::Unary));
    assert_eq!(show(&result), "(fold +)");
}

#[test]
fn an_assignment_that_refers_to_itself_is_a_cycle() {
    let (result, _) = run_block(vec![assign("foo", "foo + 1"), assign("_", "foo")]);
    match result {
        Err(ParseError::CyclicAssignments) => {}
        other => panic!("{:?}", other),
    }
}

#[test]
fn every_assignment_of_a_cycle_waits_for_another() {
    let (result, scope) = run_block(vec![
        assign("foo", "bar + 1"),
        assign("bar", "baz + 1"),
        assign("baz", "foo + 1"),
        assign("_", "1"),
    ]);
    match result {
        Err(ParseError::CyclicAssignments) => {}
        other => panic!("{:?}", other),
    }
    let waiting: Vec<(Identifier, Identifier)> = scope
        .blocked_on_id
        .iter()
        .map(|(awaited, parse)| (parse.id, *awaited))
        .collect();
    assert_eq!(waiting.len(), 3);
    for (_, awaited) in &waiting {
        assert!(waiting.iter().any(|(id, _)| id == awaited));
    }
    assert!(waiting.contains(&(7, 8)));
    assert!(waiting.contains(&(8, 9)));
    assert!(waiting.contains(&(9, 7)));
}

#[test]
fn a_block_without_a_result_fails() {
    let (result, scope) = run_block(vec![assign("foo", "1")]);
    match result {
        Err(ParseError::BlockWithoutResult) => {}
        other => panic!("{:?}", other),
    }
    assert_eq!(scope.complete.len(), 1);
    let (result, _) = run_block(vec![]);
    match result {
        Err(ParseError::BlockWithoutResult) => {}
        other => panic!("{:?}", other),
    }
}

#[test]
fn a_failed_assignment_fails_the_block() {
    let (result, scope) = run_block(vec![assign("foo", "* +"), assign("_", "1")]);
    match result {
        Err(ParseError::SubAssignmentFailed) => {}
        other => panic!("{:?}", other),
    }
    assert_eq!(scope.failed.len(), 1);
    assert_eq!(scope.failed[0].0, 7);
    match &scope.failed[0].1 {
        ParseError::DidNotFullyReduce(residual) => assert_eq!(residual.len(), 2),
        other => panic!("{:?}", other),
    }
    // The other assignment was parsed all the same.
    assert_eq!(scope.complete.len(), 1);
    assert_eq!(scope.complete[0].0, 8);
}

#[test]
fn failure_reaches_what_waits_through_others() {
    // baz waits for bar, bar waits for foo, and foo, which is parsed last, fails.
    let (result, scope) = run_block(vec![
        assign("baz", "bar + 1"),
        assign("bar", "foo + 1"),
        assign("foo", "[+]"),
        assign("_", "baz"),
    ]);
    match result {
        Err(ParseError::SubAssignmentFailed) => {}
        other => panic!("{:?}", other),
    }
    let failure = |id: Identifier| &scope.failed.iter().find(|(failed, _)| *failed == id).unwrap().1;
    match failure(9) {
        ParseError::ArrayLiteralNotNoun => {}
        other => panic!("{:?}", other),
    }
    match failure(8) {
        ParseError::BadReference(9) => {}
        other => panic!("{:?}", other),
    }
    match failure(7) {
        ParseError::BadReference(8) => {}
        other => panic!("{:?}", other),
    }
    match failure(10) {
        ParseError::BadReference(7) => {}
        other => panic!("{:?}", other),
    }
    assert_eq!(scope.failed.len(), 4);
    assert!(scope.blocked_on_id.is_empty());
    snapshot(
        print_assignments(&scope),
        "
baz depends on failed bar
bar depends on failed foo
foo failed: ArrayLiteralNotNoun
_ depends on failed baz
",
    );
}

#[test]
fn a_block_waits_for_a_name_that_nothing_binds() {
    let scope = Scope::new(Some(top_level()));
    let mut parsnip = BlockParsnip::new(scope, vec![assign("foo", "1 + outer"), assign("_", "foo")]);
    match parsnip.parse() {
        Ok(ParseResult::PendingName(name)) => assert_eq!(name, "outer"),
        other => panic!("{:?}", other),
    }
    assert_eq!(print_assignments(&parsnip.0), "foo depends on unseen outer\n_ depends on foo");
    parsnip.provide(RichIdentifier::new(100, "outer".to_string()), PartOfSpeech::Noun);
    let (bindings, result, pos) = compound(parsnip.parse());
    assert_eq!(pos, PartOfSpeech::Noun);
    assert_eq!(bindings.len(), 1);
    assert_eq!(show(&bindings[0].1), "(+ 1 outer)");
    match &bindings[0].1 {
        Expression::BinaryApplication(_, _, y) => assert_eq!(reference_of(y).id, 100),
        other => panic!("{:?}", other),
    }
    assert_eq!(reference_of(&result).name, "foo");
}

#[test]
fn a_block_waits_for_a_binding_of_the_scope_around_it() {
    let mut outer = Scope::new(None);
    outer.add_builtin("+", PartOfSpeech::Verb(Arity::Binary));
    let pending = outer.learn_name("later".to_string());
    let scope = Scope::new(Some(Rc::new(outer)));
    let mut parsnip = BlockParsnip::new(scope, vec![assign("_", "later + 1")]);
    match parsnip.parse() {
        Ok(ParseResult::PendingId(id)) => assert_eq!(id, pending),
        other => panic!("{:?}", other),
    }
    parsnip.provide(RichIdentifier::new(pending, "later".to_string()), PartOfSpeech::Noun);
    let (bindings, result, _) = compound(parsnip.parse());
    assert!(bindings.is_empty());
    assert_eq!(show(&result), "(+ later 1)");
}

#[test]
fn the_body_of_a_block_is_handed_back() {
    let scope = Scope::new(Some(top_level()));
    let scope = parse_body(scope, vec![assign("foo", "1 + 2"), assign("bar", "foo +")]);
    assert_eq!(print_assignments(&scope), "foo (n) = (+ 1 2)\nbar (v1) = (<lhs> foo +)");
}

#[test]
fn the_first_assignment_is_parsed_first() {
    let scope = Scope::new(Some(top_level()));
    let parsnip = BlockParsnip::new(scope, vec![assign("a", "1"), assign("b", "2"), assign("c", "3")]);
    let ids: Vec<Identifier> = parsnip.0.unblocked.iter().map(|parse| parse.id).collect();
    assert_eq!(ids, vec![9, 8, 7]);
    assert_eq!(parsnip.0.allocator.current, 10);
}

#[test]
fn what_a_scope_knows_of_a_name() {
    let top = top_level();
    match top.lookup("+", 100) {
        LookupResult::Complete(0, expr, PartOfSpeech::Verb(Arity::Binary)) => {
            assert_eq!(show(expr), "+")
        }
        _ => panic!("+ is not known"),
    }
    match top.lookup("nothing", 100) {
        LookupResult::Unknown => {}
        _ => panic!("nothing is known"),
    }
    let mut scope = Scope::new(Some(top));
    let foo = scope.learn_name("foo".to_string());
    match scope.lookup("foo", foo + 1) {
        LookupResult::Pending(id) => assert_eq!(id, foo),
        _ => panic!("foo is not pending"),
    }
    scope.failed(foo, ParseError::ArrayLiteralNotNoun);
    match scope.lookup("foo", foo + 1) {
        LookupResult::Failed(id, ParseError::ArrayLiteralNotNoun) => assert_eq!(id, foo),
        _ => panic!("foo has not failed"),
    }
    match scope.lookup("y", foo) {
        LookupResult::Complete(6, _, PartOfSpeech::Noun) => {}
        _ => panic!("y is not known"),
    }
}

#[test]
fn an_assignment_fails_with_what_its_parse_meets_first() {
    // bar names foo, but its parse fails before it comes to the name.
    let (result, scope) = run_block(vec![
        assign("foo", "[+]"),
        assign("bar", "foo + [*]"),
        assign("_", "1"),
    ]);
    match result {
        Err(ParseError::SubAssignmentFailed) => {}
        other => panic!("{:?}", other),
    }
    snapshot(
        print_assignments(&scope),
        "
foo failed: ArrayLiteralNotNoun
bar failed: ArrayLiteralNotNoun
_ (n) = 1
",
    );
}
