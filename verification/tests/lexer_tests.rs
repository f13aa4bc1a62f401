use kaleidoscope::error::LexError;
use kaleidoscope::lexer::Lexer;
use kaleidoscope::operator::Operator;
use kaleidoscope::token::Token;

fn tokens_of(text: &str) -> Result<Vec<(Token, Vec<u8>)>, LexError> {
    let source: Vec<u8> = text.as_bytes().to_vec();
    let mut lexer = Lexer::new(&source);
    let mut out = Vec::new();
    loop {
        let (token, read) = lexer.emit_token()?;
        let done = token == Token::Eof;
        out.push((token, read));
        if done {
            return Ok(out);
        }
    }
}

fn kinds_of(text: &str) -> Vec<Token> {
    tokens_of(text).unwrap().into_iter().map(|(token, _)| token).collect()
}

#[test]
fn one_plus_two_gives_four_tokens() {
    assert_eq!(
        kinds_of("1+2"),
        vec![Token::Number(1), Token::Operator(Operator::Add), Token::Number(2), Token::Eof]
    );
}

#[test]
fn blanks_are_never_part_of_a_token() {
    let tokens = tokens_of(" \r\n 12  foo\n+ ").unwrap();
    assert_eq!(
        tokens,
        vec![
            (Token::Number(12), b"12".to_vec()),
            (Token::Identifier(b"foo".to_vec()), b"foo".to_vec()),
            (Token::Operator(Operator::Add), b"+".to_vec()),
            (Token::Eof, Vec::new()),
        ]
    );
}

#[test]
fn tab_is_not_a_blank() {
    assert_eq!(tokens_of("1\t2"), Err(LexError::UnexpectedByte(9)));
}

#[test]
fn keywords_and_names() {
    assert_eq!(
        kinds_of("def extern if then else define x1 If"),
        vec![
            Token::Def,
            Token::Extern,
            Token::If,
            Token::Then,
            Token::Else,
            Token::Identifier(b"define".to_vec()),
            Token::Identifier(b"x1".to_vec()),
            Token::Identifier(b"If".to_vec()),
            Token::Eof,
        ]
    );
}

#[test]
fn punctuation_and_operators() {
    assert_eq!(
        kinds_of("()*+,-/<"),
        vec![
            Token::LeftParen,
            Token::RightParen,
            Token::Operator(Operator::Mul),
            Token::Operator(Operator::Add),
            Token::Comma,
            Token::Operator(Operator::Sub),
            Token::Operator(Operator::Div),
            Token::Operator(Operator::Less),
            Token::Eof,
        ]
    );
}

#[test]
fn digits_then_letters_are_two_tokens() {
    assert_eq!(
        kinds_of("12ab 007"),
        vec![Token::Number(12), Token::Identifier(b"ab".to_vec()), Token::Number(7), Token::Eof]
    );
}

#[test]
fn largest_number_is_accepted_and_the_next_refused() {
    let largest = usize::MAX.to_string();
    assert_eq!(kinds_of(&largest), vec![Token::Number(usize::MAX), Token::Eof]);
    let mut digits: Vec<u8> = largest.into_bytes();
    let last = digits.len() - 1;
    digits[last] += 1;
    let text = String::from_utf8(digits).unwrap();
    assert_eq!(tokens_of(&text), Err(LexError::NumberTooLarge));
    assert_eq!(tokens_of("1 99999999999999999999999999"), Err(LexError::NumberTooLarge));
}

#[test]
fn error_leaves_the_scanner_where_it_was() {
    let source: Vec<u8> = b"7  ? 8".to_vec();
    let mut lexer = Lexer::new(&source);
    assert_eq!(lexer.emit_token(), Ok((Token::Number(7), b"7".to_vec())));
    assert_eq!(lexer.emit_token(), Err(LexError::UnexpectedByte(63)));
    assert_eq!(lexer.emit_token(), Err(LexError::UnexpectedByte(63)));
    assert_eq!(lexer.pop_parsed_buffer(), Vec::<u8>::new());
    let long: Vec<u8> = b"x 123456789012345678901234567890".to_vec();
    let mut lexer = Lexer::new(&long);
    assert_eq!(lexer.emit_token(), Ok((Token::Identifier(b"x".to_vec()), b"x".to_vec())));
    assert_eq!(lexer.emit_token(), Err(LexError::NumberTooLarge));
    assert_eq!(lexer.pop_parsed_buffer(), Vec::<u8>::new());
    assert_eq!(lexer.emit_token(), Err(LexError::NumberTooLarge));
}

#[test]
fn zero_byte_is_the_end() {
    let source: Vec<u8> = vec![49, 0, 50];
    let mut lexer = Lexer::new(&source);
    assert_eq!(lexer.emit_token(), Ok((Token::Number(1), b"1".to_vec())));
    assert_eq!(lexer.emit_token(), Ok((Token::Eof, Vec::new())));
    assert_eq!(lexer.emit_token(), Ok((Token::Eof, Vec::new())));
}

#[test]
fn non_ascii_byte_is_refused() {
    let source: Vec<u8> = vec![200];
    let mut lexer = Lexer::new(&source);
    assert_eq!(lexer.emit_token(), Err(LexError::UnexpectedByte(200)));
}
