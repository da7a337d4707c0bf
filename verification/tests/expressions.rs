use petal_syntax::error::ParseError;
use petal_syntax::expression::{Atom, Builtin, Expression, RichIdentifier};
use petal_syntax::frame::ParseResult;
use petal_syntax::parsnip::{just_parse, ExpressionParsnip, Parsnip};
use petal_syntax::pos::{Arity, PartOfSpeech};
use petal_syntax::terms::Term;

// ---- reading source text into terms ----

#[derive(Debug, Clone, PartialEq)]
enum Token {
    Number(i64, bool),
    Word(String),
    Open(char),
    Close(char),
    Semicolons(usize),
}

fn tokenize(input: &str) -> Vec<Token> {
    let chars: Vec<char> = input.chars().collect();
    let mut tokens = Vec::new();
    let mut i = 0;
    while i < chars.len() {
        let c = chars[i];
        if c.is_whitespace() {
            i += 1;
        } else if c.is_ascii_digit() {
            let mut n: i64 = 0;
            while i < chars.len() && chars[i].is_ascii_digit() {
                n = n * 10 + chars[i].to_digit(10).unwrap() as i64;
                i += 1;
            }
            let glued = i < chars.len() && (chars[i].is_alphabetic() || chars[i] == '(');
            tokens.push(Token::Number(n, glued));
        } else if c.is_alphabetic() || c == '_' {
            let mut word = String::new();
            while i < chars.len() && (chars[i].is_alphanumeric() || chars[i] == '_') {
                word.push(chars[i]);
                i += 1;
            }
            tokens.push(Token::Word(word));
        } else if c == '(' || c == '[' {
            tokens.push(Token::Open(c));
            i += 1;
        } else if c == ')' || c == ']' {
            tokens.push(Token::Close(c));
            i += 1;
        } else if c == ';' {
            let mut n = 0;
            while i < chars.len() && chars[i] == ';' {
                n += 1;
                i += 1;
            }
            tokens.push(Token::Semicolons(n));
        } else {
            tokens.push(Token::Word(c.to_string()));
            i += 1;
        }
    }
    tokens
}

enum Item {
    Term(Term),
    Break(usize),
}

fn resolve(items: Vec<Item>, brackets: bool) -> Vec<Term> {
    let mut rank = 0;
    for item in &items {
        if let Item::Break(n) = item {
            rank = rank.max(*n);
        }
    }
    if rank == 0 {
        return items
            .into_iter()
            .map(|item| match item {
                Item::Term(term) => term,
                Item::Break(_) => unreachable!(),
            })
            .collect();
    }
    let mut chunks: Vec<Vec<Item>> = vec![Vec::new()];
    for item in items {
        match item {
            Item::Break(n) if n == rank => chunks.push(Vec::new()),
            other => chunks.last_mut().unwrap().push(other),
        }
    }
    chunks
        .into_iter()
        .map(|chunk| {
            let inner = resolve(chunk, brackets);
            if brackets {
                Term::Brackets(inner)
            } else {
                Term::Parens(inner)
            }
        })
        .collect()
}

fn group(tokens: &[Token], at: &mut usize, brackets: bool) -> Vec<Term> {
    let mut items = Vec::new();
    while *at < tokens.len() {
        match &tokens[*at] {
            Token::Number(n, glued) => {
                items.push(Item::Term(if *glued {
                    Term::Coefficient(*n)
                } else {
                    Term::NumericLiteral(*n)
                }));
                *at += 1;
            }
            Token::Word(word) => {
                items.push(Item::Term(Term::Identifier(word.clone())));
                *at += 1;
            }
            Token::Semicolons(n) => {
                items.push(Item::Break(*n));
                *at += 1;
            }
            Token::Open(c) => {
                *at += 1;
                let inner = group(tokens, at, *c == '[');
                items.push(Item::Term(if *c == '[' {
                    Term::Brackets(inner)
                } else {
                    Term::Parens(inner)
                }));
            }
            Token::Close(_) => {
                *at += 1;
                break;
            }
        }
    }
    resolve(items, brackets)
}

fn preparse(input: &str) -> Vec<Term> {
    let tokens = tokenize(input);
    let mut at = 0;
    group(&tokens, &mut at, false)
}

// ---- writing expressions out ----

fn show_builtin(builtin: &Builtin) -> &'static str {
    match builtin {
        Builtin::Scale => "<scale>",
        Builtin::Compose => "<comp>",
        Builtin::ComposeLeft => "<comp-lhs>",
        Builtin::ComposeRight => "<comp-rhs>",
        Builtin::PartialApplicationLeft => "<lhs>",
        Builtin::PartialApplicationRight => "<rhs>",
    }
}

// Tuples and array literals hold the item that was written last first:
// they are written out from the back.
fn show_items(items: &[Expression]) -> String {
    items.iter().rev().map(show).collect::<Vec<_>>().join(" ")
}

fn show(expr: &Expression) -> String {
    match expr {
        Expression::Atom(Atom::Number(n)) => format!("{}", n),
        Expression::Atom(Atom::Identifier(rich)) => rich.name.clone(),
        Expression::Implicit(builtin) => show_builtin(builtin).to_string(),
        Expression::UnaryApplication(f, x) => format!("({} {})", show(f), show(x)),
        Expression::BinaryApplication(f, x, y) => {
            format!("({} {} {})", show(f), show(x), show(y))
        }
        Expression::Parens(inner) => show(inner),
        Expression::Tuple(items) => {
            if items.is_empty() {
                "(<tuple>)".to_string()
            } else {
                format!("(<tuple> {})", show_items(items))
            }
        }
        Expression::Brackets(items) => format!("[{}]", show_items(items)),
        Expression::Compound(bindings, result) => {
            let mut out = String::from("{");
            for (rich, expr) in bindings {
                out.push_str(&format!("{} = {}; ", rich.name, show(expr)));
            }
            out.push_str(&format!("_ = {}}}", show(result)));
            out
        }
    }
}

fn show_annotated_expr(annotated_expr: &(Expression, PartOfSpeech)) -> String {
    let (expr, pos) = annotated_expr;
    format!("{}:{}", pos.to_text(), show(expr))
}

fn show_annotated_exprs(annotated_exprs: Vec<(Expression, PartOfSpeech)>) -> String {
    annotated_exprs
        .iter()
        .map(show_annotated_expr)
        .collect::<Vec<_>>()
        .join(" ")
}

fn parse_to_completion(input: Vec<Term>) -> Result<(Expression, PartOfSpeech), ParseError> {
    let mut call_stack = ExpressionParsnip::new(input);
    loop {
        match call_stack.parse()? {
            ParseResult::Complete(expr, pos) => return Ok((expr, pos)),
            ParseResult::PendingId(_) => unreachable!(),
            ParseResult::PendingName(name) => {
                let pos = match name.as_str() {
                    "+" | "*" => PartOfSpeech::Verb(Arity::Binary),
                    "neg" | "sign" => PartOfSpeech::Verb(Arity::Unary),
                    "." => PartOfSpeech::Adverb(Arity::Binary, Arity::Binary),
                    "fold" => PartOfSpeech::Adverb(Arity::Unary, Arity::Unary),
                    "flip" => PartOfSpeech::Adverb(Arity::Unary, Arity::Binary),
                    "x" | "y" => PartOfSpeech::Noun,
                    _ => panic!("unknown identifier"),
                };
                call_stack.provide(RichIdentifier::new(0, name), pos);
            }
        }
    }
}

fn test(input: &str) -> String {
    match parse_to_completion(preparse(input)) {
        Ok(expr) => show_annotated_expr(&expr),
        Err(ParseError::DidNotFullyReduce(exprs)) => {
            format!("incomplete parse: {}", show_annotated_exprs(exprs))
        }
        Err(error) => format!("error: {:?}", error),
    }
}

fn begin_parse(input: &str) -> ExpressionParsnip {
    ExpressionParsnip::new(preparse(input))
}

fn advance(call_stack: &mut ExpressionParsnip) -> String {
    match call_stack.parse() {
        Ok(ParseResult::Complete(expr, pos)) => show_annotated_expr(&(expr, pos)),
        Ok(ParseResult::PendingName(id)) => format!("awaiting {}", id),
        Ok(ParseResult::PendingId(_)) => unreachable!(),
        Err(ParseError::DidNotFullyReduce(exprs)) => {
            format!("incomplete parse: {}", show_annotated_exprs(exprs))
        }
        Err(error) => format!("error: {:?}", error),
    }
}

fn id(name: &str) -> RichIdentifier {
    RichIdentifier::new(0, name.to_string())
}

#[test]
fn test_parser() {
    assert_eq!(test("neg 1 + 2"), "n:(neg (+ 1 2))");
    assert_eq!(test("fold +"), "v1:(fold +)");
    assert_eq!(test("fold + x"), "n:((fold +) x)");
    assert_eq!(test("x + y"), "n:(+ x y)");
    assert_eq!(test("x +.* y"), "n:((. + *) x y)");
    assert_eq!(test("x fold + . * y"), "n:((. (fold +) *) x y)");
    assert_eq!(test("x + . fold * y"), "n:((. + (fold *)) x y)");
    assert_eq!(test("x fold + . fold * y"), "n:((. (fold +) (fold *)) x y)");
    assert_eq!(
        test("x fold * . fold + . fold * y"),
        "n:((. (fold *) (. (fold +) (fold *))) x y)"
    );
}

#[test]
fn test_adverbs() {
    assert_eq!(test("1 + 2"), "n:(+ 1 2)");
    assert_eq!(test("1 flip + 2"), "n:((flip +) 1 2)");
}

#[test]
fn test_tuples() {
    assert_eq!(test("1 + 1 2"), "n:(+ 1 (<tuple> 1 2))");
    assert_eq!(test("1 + 1 2 3 4 5"), "n:(+ 1 (<tuple> 1 2 3 4 5))");
    assert_eq!(test("1 + 1 neg 2"), "n:(+ 1 (<tuple> 1 (neg 2)))");
    assert_eq!(test("1 2 + 1 2"), "n:(+ (<tuple> 1 2) (<tuple> 1 2))");
    assert_eq!(test("1 + (1 2) 3"), "n:(+ 1 (<tuple> (<tuple> 1 2) 3))");
    assert_eq!(test("1 + (1 2 3)"), "n:(+ 1 (<tuple> 1 2 3))");
    assert_eq!(test("1 + 2; 3"), "n:(<tuple> (+ 1 2) 3)");
}

// A section is written with its operands in the order of the source
// text: the noun of a left section comes before its verb.
#[test]
fn test_operator_sections() {
    assert_eq!(test("+ 1"), "v1:(<rhs> + 1)");
    assert_eq!(test("+ 1 2"), "v1:(<rhs> + (<tuple> 1 2))");
    assert_eq!(test("(+ 1) 2"), "n:((<rhs> + 1) 2)");
    assert_eq!(test("1 +"), "v1:(<lhs> 1 +)");
    assert_eq!(test("1 2 +"), "v1:(<lhs> (<tuple> 1 2) +)");

    assert_eq!(test("flip + 1"), "v1:(<rhs> (flip +) 1)");
    assert_eq!(test("flip + 1 2"), "v1:(<rhs> (flip +) (<tuple> 1 2))");
    assert_eq!(test("(flip + 1) 2"), "n:((<rhs> (flip +) 1) 2)");
    assert_eq!(test("1 flip +"), "v1:(<lhs> 1 (flip +))");
    assert_eq!(test("1 2 flip +"), "v1:(<lhs> (<tuple> 1 2) (flip +))");
}

#[test]
fn test_unary_composition() {
    assert_eq!(test("neg sign"), "v1:(<comp> neg sign)");
    assert_eq!(test("neg sign neg"), "v1:(<comp> neg (<comp> sign neg))");

    assert_eq!(test("fold + fold *"), "v1:(<comp> (fold +) (fold *))");
    assert_eq!(
        test("fold + fold * fold +"),
        "v1:(<comp> (fold +) (<comp> (fold *) (fold +)))"
    );
}

// A composition is written with its verbs in the order of the source text.
#[test]
fn test_implicit_composition() {
    assert_eq!(
        test("neg + sign"),
        "v2:(<comp-lhs> neg (<comp-rhs> + sign))"
    );
    assert_eq!(
        test("neg sign + neg"),
        "v2:(<comp-lhs> neg (<comp-lhs> sign (<comp-rhs> + neg)))"
    );
    assert_eq!(
        test("neg + sign neg"),
        "v2:(<comp-lhs> neg (<comp-rhs> + (<comp> sign neg)))"
    );

    assert_eq!(
        test("neg + (sign neg)"),
        "v2:(<comp-lhs> neg (<comp-rhs> + (<comp> sign neg)))"
    );

    assert_eq!(test("+ neg"), "v2:(<comp-rhs> + neg)");
    assert_eq!(test("neg +"), "v2:(<comp-lhs> neg +)");
    assert_eq!(test("neg + 1"), "v1:(<comp> neg (<rhs> + 1))");

    assert_eq!(test("flip + neg"), "v2:(<comp-rhs> (flip +) neg)");
    assert_eq!(test("neg flip +"), "v2:(<comp-lhs> neg (flip +))");
    assert_eq!(test("neg flip + 1"), "v1:(<comp> neg (<rhs> (flip +) 1))");
}

#[test]
fn test_array_literals() {
    assert_eq!(test("[]"), "n:[]");
    assert_eq!(test("[1 2 3]"), "n:[1 2 3]");
    assert_eq!(test("[1 2 3; 4 5 6]"), "n:[[1 2 3] [4 5 6]]");
    assert_eq!(
        test("[1 2 3; 4 5 6;; 7 8 9; 10 11 12]"),
        "n:[[[1 2 3] [4 5 6]] [[7 8 9] [10 11 12]]]"
    );
}

#[test]
fn test_confusing_expressions() {
    assert_eq!(test("* 1 +"), "v2:(<comp-rhs> * (<lhs> 1 +))");
    assert_eq!(test("* + 1"), "v2:(<comp-rhs> * (<rhs> + 1))");
    assert_eq!(test("1 * +"), "v2:(<comp-lhs> (<lhs> 1 *) +)");
}

#[test]
fn test_implicit_equivalences() {
    assert_eq!(
        test("neg + sign"),
        "v2:(<comp-lhs> neg (<comp-rhs> + sign))"
    );
    assert_eq!(
        test("neg (+ sign)"),
        "v2:(<comp-lhs> neg (<comp-rhs> + sign))"
    );

    assert_eq!(test("neg + 1"), "v1:(<comp> neg (<rhs> + 1))");
    assert_eq!(test("neg (+ 1)"), "v1:(<comp> neg (<rhs> + 1))");

    assert_eq!(test("+ sign neg"), "v2:(<comp-rhs> + (<comp> sign neg))");
    assert_eq!(test("+ (sign neg)"), "v2:(<comp-rhs> + (<comp> sign neg))");
}

#[test]
fn test_parse_errors() {
    assert_eq!(test("* +"), "incomplete parse: v2:+ v2:*");
    assert_eq!(test("* flip +"), "incomplete parse: v2:(flip +) v2:*");
    assert_eq!(test(". +"), "incomplete parse: v2:+ a2:.");
    assert_eq!(test("+ ."), "incomplete parse: a2:. v2:+");
    assert_eq!(test("flip ."), "incomplete parse: a2:. a1:flip");
    assert_eq!(test("fold ."), "incomplete parse: a2:. a1:fold");
    assert_eq!(test(". flip"), "incomplete parse: a1:flip a2:.");
    assert_eq!(test(". fold"), "incomplete parse: a1:fold a2:.");
    assert_eq!(test("flip fold"), "incomplete parse: a1:fold a1:flip");
}

#[test]
fn test_partial_parsing() {
    let mut call_stack = begin_parse("x + foo");
    assert_eq!(advance(&mut call_stack), "awaiting foo");
    call_stack.provide(id("foo"), PartOfSpeech::Noun);
    assert_eq!(advance(&mut call_stack), "awaiting +");
    call_stack.provide(id("+"), PartOfSpeech::Verb(Arity::Binary));
    assert_eq!(advance(&mut call_stack), "awaiting x");
    call_stack.provide(id("x"), PartOfSpeech::Noun);
    assert_eq!(advance(&mut call_stack), "n:(+ x foo)");
}

// ---- further cases ----

#[test]
fn parsing_twice_gives_the_same() {
    for input in ["neg 1 + 2", "x +.* y", "[1 2 3; 4 5 6]", "* +", "1 2 3 4 5"] {
        let first = parse_to_completion(preparse(input));
        let second = parse_to_completion(preparse(input));
        match (first, second) {
            (Ok(a), Ok(b)) => {
                assert_eq!(a.0, b.0);
                assert_eq!(a.1, b.1);
            }
            (Err(ParseError::DidNotFullyReduce(a)), Err(ParseError::DidNotFullyReduce(b))) => {
                assert_eq!(a, b)
            }
            _ => panic!("the two parses of {} differ", input),
        }
    }
}

#[test]
fn just_parse_takes_terms_without_names() {
    let (expr, pos) = just_parse(preparse("1 2 3")).unwrap();
    assert_eq!(pos, PartOfSpeech::Noun);
    assert_eq!(
        expr,
        Expression::Tuple(vec![Expression::num(3), Expression::num(2), Expression::num(1)])
    );
    let (expr, pos) = just_parse(vec![]).unwrap();
    assert_eq!(pos, PartOfSpeech::Noun);
    assert_eq!(expr, Expression::Tuple(vec![]));
    let (expr, pos) = just_parse(vec![Term::NumericLiteral(7)]).unwrap();
    assert_eq!(pos, PartOfSpeech::Noun);
    assert_eq!(expr, Expression::num(7));
}

#[test]
fn just_parse_reports_errors() {
    match just_parse(vec![Term::Brackets(vec![Term::Coefficient(2)])]) {
        Err(ParseError::ArrayLiteralNotNoun) => {}
        other => panic!("{:?}", other),
    }
    match just_parse(vec![Term::Coefficient(2), Term::Coefficient(3), Term::Parens(vec![])]) {
        Ok((expr, pos)) => {
            assert_eq!(pos, PartOfSpeech::Noun);
            assert_eq!(show(&expr), "((<scale> 2) ((<scale> 3) (<tuple>)))");
        }
        other => panic!("{:?}", other),
    }
}

#[test]
fn a_coefficient_scales_what_follows() {
    assert_eq!(test("2x"), "n:((<scale> 2) x)");
    assert_eq!(test("2(1 + 1)"), "n:((<scale> 2) (+ 1 1))");
    let (expr, pos) = just_parse(vec![Term::Coefficient(5)]).unwrap();
    assert_eq!(pos, PartOfSpeech::Verb(Arity::Unary));
    assert_eq!(
        expr,
        Expression::unary(Expression::Implicit(Builtin::Scale), Expression::num(5))
    );
}

#[test]
fn a_verb_in_an_array_literal_is_an_error() {
    assert_eq!(test("[+]"), "error: ArrayLiteralNotNoun");
    assert_eq!(test("1 + [neg]"), "error: ArrayLiteralNotNoun");
    assert_eq!(test("[1 +]"), "error: ArrayLiteralNotNoun");
}

#[test]
fn parens_are_kept_in_the_tree() {
    let (expr, _) = just_parse(preparse("(1)")).unwrap();
    assert_eq!(expr, Expression::Parens(Box::new(Expression::num(1))));
    let (expr, _) = just_parse(preparse("()")).unwrap();
    assert_eq!(expr, Expression::Parens(Box::new(Expression::Tuple(vec![]))));
    let (expr, _) = just_parse(preparse("[4]")).unwrap();
    assert_eq!(expr, Expression::Brackets(vec![Expression::num(4)]));
}

#[test]
fn a_tuple_in_parens_is_not_taken_apart() {
    let (expr, _) = just_parse(preparse("1 (2 3)")).unwrap();
    assert_eq!(
        expr,
        Expression::Tuple(vec![
            Expression::Parens(Box::new(Expression::Tuple(vec![
                Expression::num(3),
                Expression::num(2)
            ]))),
            Expression::num(1),
        ])
    );
}

#[test]
fn the_tag_of_each_part_of_speech() {
    assert_eq!(PartOfSpeech::Noun.to_text(), "n");
    assert_eq!(PartOfSpeech::Verb(Arity::Unary).to_text(), "v1");
    assert_eq!(PartOfSpeech::Verb(Arity::Binary).to_text(), "v2");
    assert_eq!(PartOfSpeech::Adverb(Arity::Unary, Arity::Binary).to_text(), "a1");
    assert_eq!(PartOfSpeech::Adverb(Arity::Unary, Arity::Unary).to_text(), "a1");
    assert_eq!(PartOfSpeech::Adverb(Arity::Binary, Arity::Unary).to_text(), "a2");
    assert_eq!(PartOfSpeech::Adverb(Arity::Binary, Arity::Binary).to_text(), "a2");
}

#[test]
fn rich_identifiers_are_equal_by_identifier() {
    assert_eq!(RichIdentifier::new(3, "a".to_string()), RichIdentifier::new(3, "b".to_string()));
    assert_ne!(RichIdentifier::new(3, "a".to_string()), RichIdentifier::new(4, "a".to_string()));
    let rich = RichIdentifier::new(9, "name".to_string());
    let copy = rich.clone();
    assert_eq!(copy.id, 9);
    assert_eq!(copy.name, "name");
}

#[test]
fn an_adverb_takes_its_verb_at_once() {
    let mut call_stack = begin_parse("x fold +");
    assert_eq!(advance(&mut call_stack), "awaiting +");
    call_stack.provide(id("+"), PartOfSpeech::Verb(Arity::Binary));
    assert_eq!(advance(&mut call_stack), "awaiting fold");
    call_stack.provide(id("fold"), PartOfSpeech::Adverb(Arity::Unary, Arity::Unary));
    assert_eq!(advance(&mut call_stack), "awaiting x");
    // The frame holds the four sentinels and one verb: the adverb has
    // been applied before the next term was looked at.
    let frame = &call_stack.0[0];
    assert_eq!(frame.stack.len(), 5);
    match &frame.stack[4] {
        Some((expr, pos)) => {
            assert_eq!(show(expr), "(fold +)");
            assert_eq!(*pos, PartOfSpeech::Verb(Arity::Unary));
        }
        None => panic!("a sentinel"),
    }
}
