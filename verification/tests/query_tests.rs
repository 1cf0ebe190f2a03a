use inverted_index::query::LogicNode;
use inverted_index::query::Operator;
use inverted_index::query::QueryError;
use inverted_index::query::parse_logic_expr;

#[test]
fn precedence_values() {
    assert_eq!(Operator::Next.precedence(), 100);
    assert_eq!(Operator::Near(7).precedence(), 50);
    assert_eq!(Operator::Not.precedence(), 4);
    assert_eq!(Operator::Subtract.precedence(), 3);
    assert_eq!(Operator::And.precedence(), 2);
    assert_eq!(Operator::Or.precedence(), 1);
    assert_eq!(Operator::LeftBracket.precedence(), 0);
}

#[test]
fn parse_and() {
    let ast = parse_logic_expr("cat & dog").unwrap();
    match ast {
        LogicNode::And(a, b) => {
            assert!(matches!(*a, LogicNode::Term(ref t) if t == "cat"));
            assert!(matches!(*b, LogicNode::Term(ref t) if t == "dog"));
        },
        other => panic!("unexpected node: {:?}", other),
    }
}

#[test]
fn parse_precedence_or_and() {
    let ast = parse_logic_expr("a | b & c").unwrap();
    match ast {
        LogicNode::Or(a, bc) => {
            assert!(matches!(*a, LogicNode::Term(ref t) if t == "a"));
            assert!(matches!(*bc, LogicNode::And(_, _)));
        },
        other => panic!("unexpected node: {:?}", other),
    }
}

#[test]
fn parse_brackets_override() {
    let ast = parse_logic_expr("(a | b) & c").unwrap();
    match ast {
        LogicNode::And(ab, c) => {
            assert!(matches!(*ab, LogicNode::Or(_, _)));
            assert!(matches!(*c, LogicNode::Term(ref t) if t == "c"));
        },
        other => panic!("unexpected node: {:?}", other),
    }
}

#[test]
fn parse_not_binds_tighter_than_and() {
    let ast = parse_logic_expr("!a & b").unwrap();
    match ast {
        LogicNode::And(na, b) => {
            assert!(matches!(*na, LogicNode::Not(_)));
            assert!(matches!(*b, LogicNode::Term(ref t) if t == "b"));
        },
        other => panic!("unexpected node: {:?}", other),
    }
}

#[test]
fn parse_subtract() {
    let ast = parse_logic_expr("a \\ b").unwrap();
    assert!(matches!(ast, LogicNode::Subtract(_, _)));
}

#[test]
fn parse_phrase_next() {
    let ast = parse_logic_expr("a > b").unwrap();
    match ast {
        LogicNode::Near(a, b, left, right) => {
            assert!(matches!(*a, LogicNode::Term(ref t) if t == "a"));
            assert!(matches!(*b, LogicNode::Term(ref t) if t == "b"));
            assert_eq!(left, 0);
            assert_eq!(right, 1);
        },
        other => panic!("unexpected node: {:?}", other),
    }
}

#[test]
fn parse_near_distance() {
    let ast = parse_logic_expr("a {3} b").unwrap();
    match ast {
        LogicNode::Near(_, _, left, right) => {
            assert_eq!(left, 3);
            assert_eq!(right, 3);
        },
        other => panic!("unexpected node: {:?}", other),
    }
}

#[test]
fn parse_phrase_literal() {
    let ast = parse_logic_expr("\"one two three\"").unwrap();
    match ast {
        LogicNode::Near(one, rest, left, right) => {
            assert_eq!(left, 0);
            assert_eq!(right, 1);
            assert!(matches!(*one, LogicNode::Term(ref t) if t == "one"));
            match *rest {
                LogicNode::Near(two, three, 0, 1) => {
                    assert!(matches!(*two, LogicNode::Term(ref t) if t == "two"));
                    assert!(matches!(*three, LogicNode::Term(ref t) if t == "three"));
                },
                other => panic!("unexpected node: {:?}", other),
            }
        },
        other => panic!("unexpected node: {:?}", other),
    }
}

#[test]
fn parse_empty_is_false() {
    let ast = parse_logic_expr("").unwrap();
    assert!(matches!(ast, LogicNode::False));
}

#[test]
fn parse_lowercases_terms() {
    let ast = parse_logic_expr("CaT").unwrap();
    assert!(matches!(ast, LogicNode::Term(ref t) if t == "cat"));
}

#[test]
fn lex_error_invalid_char() {
    assert_eq!(parse_logic_expr("a $ b").err(), Some(QueryError::InvalidChar('$')));
}

#[test]
fn lex_error_number_too_large() {
    assert_eq!(parse_logic_expr("a {99999999999999999999999999} b").err(), Some(QueryError::InvalidNumber));
}

#[test]
fn parse_error_near_number() {
    assert_eq!(parse_logic_expr("a { } b").err(), Some(QueryError::ExpectedNearNumber));
    assert_eq!(parse_logic_expr("a {").err(), Some(QueryError::ExpectedNearNumber));
}

#[test]
fn parse_error_near_close() {
    assert_eq!(parse_logic_expr("a {3 b").err(), Some(QueryError::ExpectedNearClose));
}

#[test]
fn parse_error_phrase_token() {
    assert_eq!(parse_logic_expr("\"a & b\"").err(), Some(QueryError::PhraseToken));
}

#[test]
fn parse_error_unclosed_phrase() {
    assert_eq!(parse_logic_expr("\"a b").err(), Some(QueryError::UnclosedPhrase));
}

#[test]
fn parse_error_unexpected_token() {
    assert_eq!(parse_logic_expr("3").err(), Some(QueryError::UnexpectedToken));
    assert_eq!(parse_logic_expr("}").err(), Some(QueryError::UnexpectedToken));
}

#[test]
fn parse_error_missing_argument() {
    assert_eq!(parse_logic_expr("&").err(), Some(QueryError::MissingArgument));
    assert_eq!(parse_logic_expr("a &").err(), Some(QueryError::MissingArgument));
}

#[test]
fn parse_error_multiple_expressions() {
    assert_eq!(parse_logic_expr("a b").err(), Some(QueryError::MultipleExpressions));
}
