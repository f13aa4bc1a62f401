use kaleidoscope::ast::{Expr, Function, Prototype};
use kaleidoscope::error::{Expected, LexError, ParseError};
use kaleidoscope::lexer::Lexer;
use kaleidoscope::operator::Operator;
use kaleidoscope::parser::Parser;
use kaleidoscope::token::Token;
use kaleidoscope::util::str_from_u8;

type Statement = (Function, Vec<u8>);

fn parse_all(text: &str) -> Result<Vec<Statement>, ParseError> {
    let source: Vec<u8> = text.as_bytes().to_vec();
    let lexer = Lexer::new(&source);
    let mut parser = match Parser::new(lexer) {
        Ok(parser) => parser,
        Err(e) => return Err(ParseError::Lex(e)),
    };
    let mut out = Vec::new();
    while let Some(statement) = parser.emit_node()? {
        out.push(statement);
    }
    Ok(out)
}

fn parse_one(text: &str) -> Statement {
    let mut all = parse_all(text).unwrap();
    assert_eq!(all.len(), 1);
    all.remove(0)
}

fn body_of(text: &str) -> Expr {
    let (function, _) = parse_one(text);
    assert_eq!(function.prototype, None);
    function.body.unwrap()
}

fn num(value: usize) -> Expr {
    Expr::NumberLiteral(value)
}

fn var(name: &str) -> Expr {
    Expr::VariableRef(name.as_bytes().to_vec())
}

fn bin(op: Operator, lhs: Expr, rhs: Expr) -> Expr {
    Expr::BinaryOp { op, lhs: Box::new(lhs), rhs: Box::new(rhs) }
}

fn call(name: &str, args: Vec<Expr>) -> Expr {
    Expr::Call { name: name.as_bytes().to_vec(), args }
}

fn ident(name: &str) -> Token {
    Token::Identifier(name.as_bytes().to_vec())
}

fn proto(name: &str, args: &[&str]) -> Prototype {
    Prototype {
        name: name.as_bytes().to_vec(),
        args: args.iter().map(|a| a.as_bytes().to_vec()).collect(),
    }
}

#[test]
fn multiplication_binds_tighter_than_addition() {
    assert_eq!(
        body_of("1+2*3"),
        bin(Operator::Add, num(1), bin(Operator::Mul, num(2), num(3)))
    );
}

#[test]
fn equal_precedence_groups_to_the_left() {
    assert_eq!(
        body_of("1-2-3"),
        bin(Operator::Sub, bin(Operator::Sub, num(1), num(2)), num(3))
    );
}

#[test]
fn parentheses_override_precedence() {
    assert_eq!(
        body_of("(1+2)*3"),
        bin(Operator::Mul, bin(Operator::Add, num(1), num(2)), num(3))
    );
}

#[test]
fn conditional_has_three_parts() {
    assert_eq!(
        body_of("if 1 then 2 else 3"),
        Expr::Conditional {
            predicate: Box::new(num(1)),
            then_branch: Box::new(num(2)),
            else_branch: Box::new(num(3)),
        }
    );
}

#[test]
fn prototype_commas_are_optional() {
    let spaced = parse_one("extern foo(a b)").0;
    let separated = parse_one("extern foo(a, b)").0;
    let doubled = parse_one("extern foo(a,,b)").0;
    let expected = Function { prototype: Some(proto("foo", &["a", "b"])), body: None };
    assert_eq!(spaced, expected);
    assert_eq!(separated, expected);
    assert_eq!(doubled, expected);
}

#[test]
fn call_arguments_need_commas() {
    assert_eq!(
        parse_all("foo(1 2)"),
        Err(ParseError::BadArgumentList { callee: b"foo".to_vec(), found: Token::Number(2) })
    );
}

#[test]
fn provenance_is_the_source_without_blanks() {
    let (function, text) = parse_one("  1 + 2  ");
    assert_eq!(function.body, Some(bin(Operator::Add, num(1), num(2))));
    assert_eq!(text, b"1+2".to_vec());
}

#[test]
fn end_of_input_is_reached_again_and_again() {
    let source: Vec<u8> = b"1 ".to_vec();
    let mut lexer = Lexer::new(&source);
    assert_eq!(lexer.emit_token(), Ok((Token::Number(1), b"1".to_vec())));
    for _ in 0..3 {
        assert_eq!(lexer.emit_token(), Ok((Token::Eof, Vec::new())));
    }
    let mut parser = Parser::new(Lexer::new(&source)).unwrap();
    assert!(parser.emit_node().unwrap().is_some());
    for _ in 0..3 {
        assert_eq!(parser.emit_node(), Ok(None));
    }
}

#[test]
fn every_statement_has_one_of_three_shapes() {
    let all = parse_all("def f(x) x+1 extern g(a) f(2) 7").unwrap();
    let shapes: Vec<(bool, bool)> =
        all.iter().map(|(f, _)| (f.prototype.is_some(), f.body.is_some())).collect();
    assert_eq!(shapes, vec![(true, true), (true, false), (false, true), (false, true)]);
    assert_eq!(all[0].0.prototype, Some(proto("f", &["x"])));
    assert_eq!(all[0].0.body, Some(bin(Operator::Add, var("x"), num(1))));
    assert_eq!(all[0].1, b"deff(x)x+1".to_vec());
    assert_eq!(all[1].0.prototype, Some(proto("g", &["a"])));
    assert_eq!(all[1].1, b"externg(a)".to_vec());
    assert_eq!(all[2].0.body, Some(call("f", vec![num(2)])));
    assert_eq!(all[2].1, b"f(2)".to_vec());
    assert_eq!(all[3].0.body, Some(num(7)));
    assert_eq!(all[3].1, b"7".to_vec());
}

#[test]
fn empty_input_has_no_statement() {
    assert_eq!(parse_all(""), Ok(vec![]));
    assert_eq!(parse_all(" \n\r "), Ok(vec![]));
}

#[test]
fn lower_precedence_after_higher_closes_the_group() {
    assert_eq!(
        body_of("1*2+3<4-5/6"),
        bin(
            Operator::Less,
            bin(Operator::Add, bin(Operator::Mul, num(1), num(2)), num(3)),
            bin(Operator::Sub, num(4), bin(Operator::Div, num(5), num(6)))
        )
    );
}

#[test]
fn comparison_binds_weakest() {
    assert_eq!(
        body_of("a<b+c*d"),
        bin(
            Operator::Less,
            var("a"),
            bin(Operator::Add, var("b"), bin(Operator::Mul, var("c"), var("d")))
        )
    );
}

#[test]
fn calls_take_any_number_of_arguments() {
    assert_eq!(body_of("f()"), call("f", vec![]));
    assert_eq!(body_of("f(1)"), call("f", vec![num(1)]));
    assert_eq!(
        body_of("f(1, g(x), 2+3)"),
        call("f", vec![num(1), call("g", vec![var("x")]), bin(Operator::Add, num(2), num(3))])
    );
}

#[test]
fn trailing_comma_in_a_call_is_refused() {
    assert_eq!(
        parse_all("f(1,)"),
        Err(ParseError::Unexpected { expected: Expected::Primary, found: Token::RightParen })
    );
}

#[test]
fn nested_conditionals_and_parentheses() {
    assert_eq!(
        body_of("if a < 1 then (if b then 2 else 3) else f(4) * 5"),
        Expr::Conditional {
            predicate: Box::new(bin(Operator::Less, var("a"), num(1))),
            then_branch: Box::new(Expr::Conditional {
                predicate: Box::new(var("b")),
                then_branch: Box::new(num(2)),
                else_branch: Box::new(num(3)),
            }),
            else_branch: Box::new(bin(Operator::Mul, call("f", vec![num(4)]), num(5))),
        }
    );
}

#[test]
fn definition_without_parameters() {
    let (function, text) = parse_one("def one() 1");
    assert_eq!(function, Function { prototype: Some(proto("one", &[])), body: Some(num(1)) });
    assert_eq!(text, b"defone()1".to_vec());
}

#[test]
fn missing_then_is_an_error() {
    assert_eq!(
        parse_all("if 1 2 else 3"),
        Err(ParseError::Unexpected { expected: Expected::Then, found: Token::Number(2) })
    );
}

#[test]
fn missing_else_is_an_error() {
    assert_eq!(
        parse_all("if 1 then 2"),
        Err(ParseError::Unexpected { expected: Expected::Else, found: Token::Eof })
    );
}

#[test]
fn missing_right_parenthesis_is_an_error() {
    assert_eq!(
        parse_all("(1+2 3"),
        Err(ParseError::Unexpected { expected: Expected::RightParen, found: Token::Number(3) })
    );
    assert_eq!(
        parse_all("(1+2"),
        Err(ParseError::Unexpected { expected: Expected::RightParen, found: Token::Eof })
    );
}

#[test]
fn operator_without_operand_is_an_error() {
    assert_eq!(
        parse_all("1+"),
        Err(ParseError::Unexpected { expected: Expected::Primary, found: Token::Eof })
    );
    assert_eq!(
        parse_all("*1"),
        Err(ParseError::Unexpected {
            expected: Expected::Primary,
            found: Token::Operator(Operator::Mul)
        })
    );
}

#[test]
fn prototype_needs_a_name_and_a_parenthesis() {
    assert_eq!(
        parse_all("def 1(x) x"),
        Err(ParseError::Unexpected { expected: Expected::PrototypeName, found: Token::Number(1) })
    );
    assert_eq!(
        parse_all("def f x"),
        Err(ParseError::Unexpected { expected: Expected::LeftParen, found: ident("x") })
    );
    assert_eq!(
        parse_all("def f(x 1) x"),
        Err(ParseError::Unexpected { expected: Expected::Parameter, found: Token::Number(1) })
    );
}

#[test]
fn unknown_byte_fails_the_statement_before_it() {
    assert_eq!(parse_all("1 $"), Err(ParseError::Lex(LexError::UnexpectedByte(36))));
    assert_eq!(parse_all("$"), Err(ParseError::Lex(LexError::UnexpectedByte(36))));
    assert_eq!(parse_all("1 2 $"), Err(ParseError::Lex(LexError::UnexpectedByte(36))));
}

#[test]
fn first_statement_is_handed_out_before_a_later_error() {
    let source: Vec<u8> = b"1 2 )".to_vec();
    let mut parser = Parser::new(Lexer::new(&source)).unwrap();
    let first = parser.emit_node().unwrap().unwrap();
    assert_eq!(first.0.body, Some(num(1)));
    assert_eq!(first.1, b"1".to_vec());
    let second = parser.emit_node().unwrap().unwrap();
    assert_eq!(second.0.body, Some(num(2)));
    let error = ParseError::Unexpected { expected: Expected::Primary, found: Token::RightParen };
    assert_eq!(parser.emit_node(), Err(error.clone()));
    assert_eq!(parser.emit_node(), Err(error.clone()));
    assert_eq!(parser.pop_parsed_buffer(), Vec::<u8>::new());
    assert_eq!(parser.emit_node(), Err(error));
}

#[test]
fn parser_hands_out_pending_text_once() {
    let source: Vec<u8> = b"1 + 2".to_vec();
    let mut parser = Parser::new(Lexer::new(&source)).unwrap();
    assert_eq!(parser.pop_parsed_buffer(), Vec::<u8>::new());
    let (_, text) = parser.emit_node().unwrap().unwrap();
    assert_eq!(text, b"1+2".to_vec());
    assert_eq!(parser.pop_parsed_buffer(), Vec::<u8>::new());
}

#[test]
fn parser_starts_where_the_scanner_stands() {
    let source: Vec<u8> = b"def 1 + 2".to_vec();
    let mut lexer = Lexer::new(&source);
    assert_eq!(lexer.emit_token(), Ok((Token::Def, b"def".to_vec())));
    let mut parser = Parser::new(lexer).unwrap();
    let (function, text) = parser.emit_node().unwrap().unwrap();
    let sum = bin(Operator::Add, num(1), num(2));
    assert_eq!(function, Function { prototype: None, body: Some(sum) });
    assert_eq!(text, b"1+2".to_vec());
}

#[test]
fn zero_byte_ends_the_input() {
    let all = parse_all("1+2\u{0}3").unwrap();
    assert_eq!(all.len(), 1);
    assert_eq!(all[0].1, b"1+2".to_vec());
}

#[test]
fn keywords_are_not_names() {
    assert_eq!(
        parse_all("then"),
        Err(ParseError::Unexpected { expected: Expected::Primary, found: Token::Then })
    );
    assert_eq!(body_of("thence"), var("thence"));
    assert_eq!(body_of("iffy + def1"), bin(Operator::Add, var("iffy"), var("def1")));
}

#[test]
fn unknown_byte_is_reported_before_the_token_in_front_of_it() {
    assert_eq!(parse_all("foo(1 2 $"), Err(ParseError::Lex(LexError::UnexpectedByte(36))));
    assert_eq!(parse_all("(1 2 $"), Err(ParseError::Lex(LexError::UnexpectedByte(36))));
    assert_eq!(parse_all("def 1 $"), Err(ParseError::Lex(LexError::UnexpectedByte(36))));
}

#[test]
fn number_too_large_fails_the_parse() {
    assert_eq!(
        parse_all("1 + 340282366920938463463374607431768211456"),
        Err(ParseError::Lex(LexError::NumberTooLarge))
    );
}

#[test]
fn assignment_sign_is_not_a_token() {
    assert_eq!(parse_all("a = 1"), Err(ParseError::Lex(LexError::UnexpectedByte(61))));
}

#[test]
fn operand_may_be_a_call_or_a_conditional() {
    assert_eq!(
        body_of("f(1) + if a then b else c * 2"),
        bin(
            Operator::Add,
            call("f", vec![num(1)]),
            Expr::Conditional {
                predicate: Box::new(var("a")),
                then_branch: Box::new(var("b")),
                else_branch: Box::new(bin(Operator::Mul, var("c"), num(2))),
            }
        )
    );
}

#[test]
fn statements_follow_one_another_without_separators() {
    let all = parse_all("1 2\n(3)").unwrap();
    let bodies: Vec<Option<Expr>> = all.into_iter().map(|(f, _)| f.body).collect();
    assert_eq!(bodies, vec![Some(num(1)), Some(num(2)), Some(num(3))]);
}

#[test]
fn name_followed_by_parenthesis_is_a_call() {
    assert_eq!(parse_all("a (1)").map(|all| all.len()), Ok(1));
    assert_eq!(body_of("a (1)"), call("a", vec![num(1)]));
}

#[test]
fn every_name_is_a_word_and_reads_as_text() {
    let all = parse_all("def fib1(n, acc2) g(n) extern Sin(x) y9").unwrap();
    let first = all[0].0.prototype.as_ref().unwrap();
    assert_eq!(str_from_u8(&first.name), "fib1");
    let params: Vec<&str> = first.args.iter().map(|p| str_from_u8(p)).collect();
    assert_eq!(params, vec!["n", "acc2"]);
    match all[0].0.body.as_ref().unwrap() {
        Expr::Call { name, args } => {
            assert_eq!(str_from_u8(name), "g");
            assert_eq!(args, &vec![var("n")]);
        }
        other => panic!("{:?}", other),
    }
    assert_eq!(str_from_u8(&all[1].0.prototype.as_ref().unwrap().name), "Sin");
    assert_eq!(all[2].0.body, Some(var("y9")));
}
