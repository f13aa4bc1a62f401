use kaleidoscope::ast::Prototype;
use kaleidoscope::operator::Operator;
use kaleidoscope::token::Token;
use kaleidoscope::util::{copy_bytes, is_alnum, is_alpha, is_digit, is_space, str_from_u8};

#[test]
fn precedence_table() {
    assert_eq!(Operator::Assign.precedence(), 10);
    assert_eq!(Operator::Less.precedence(), 20);
    assert_eq!(Operator::Add.precedence(), 30);
    assert_eq!(Operator::Sub.precedence(), 30);
    assert_eq!(Operator::Mul.precedence(), 40);
    assert_eq!(Operator::Div.precedence(), 40);
}

#[test]
fn operators_are_ordered_by_precedence() {
    let all = [
        Operator::Assign,
        Operator::Less,
        Operator::Add,
        Operator::Sub,
        Operator::Mul,
        Operator::Div,
    ];
    for a in all {
        for b in all {
            assert_eq!(a < b, a.precedence() < b.precedence());
            assert_eq!(a > b, a.precedence() > b.precedence());
            assert_eq!(a <= b, a.precedence() <= b.precedence());
            assert_eq!(a.partial_cmp(&b), a.precedence().partial_cmp(&b.precedence()));
        }
    }
    assert!(Operator::Add != Operator::Sub);
    assert!(!(Operator::Add < Operator::Sub) && !(Operator::Sub < Operator::Add));
}

#[test]
fn assign_is_not_a_binary_operator() {
    assert!(!Operator::Assign.is_binary_op());
    assert!(Operator::Less.is_binary_op());
    assert!(Operator::Add.is_binary_op());
    assert!(Operator::Sub.is_binary_op());
    assert!(Operator::Mul.is_binary_op());
    assert!(Operator::Div.is_binary_op());
}

#[test]
fn byte_classes() {
    for c in 0..=255u8 {
        assert_eq!(is_space(&c), c == b' ' || c == b'\n' || c == b'\r');
        assert_eq!(is_digit(&c), c.is_ascii_digit());
        assert_eq!(is_alpha(&c), c.is_ascii_alphabetic());
        assert_eq!(is_alnum(&c), c.is_ascii_alphanumeric());
    }
}

#[test]
fn names_are_read_as_text() {
    assert_eq!(str_from_u8(&b"foo_1".to_vec()), "foo_1");
    assert_eq!(str_from_u8(&Vec::new()), "");
    assert_eq!(str_from_u8(&vec![0xc3, 0xa9]), "\u{e9}");
}

#[test]
fn default_prototype_is_the_anonymous_function() {
    let prototype = Prototype::default();
    assert_eq!(prototype.name, b"__anon_fn".to_vec());
    assert!(prototype.args.is_empty());
}

#[test]
fn copies_are_equal() {
    assert_eq!(copy_bytes(&b"abc".to_vec()), b"abc".to_vec());
    assert_eq!(copy_bytes(&Vec::new()), Vec::<u8>::new());
    let token = Token::Identifier(b"abc".to_vec());
    assert_eq!(token.clone(), token);
    assert_eq!(Token::Number(5).clone(), Token::Number(5));
}
