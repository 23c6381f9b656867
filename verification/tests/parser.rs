use calculator::parser::{ParseError, Parser};
use calculator::tokenizer::{tokenize, Token};

#[test]
fn empty_token_list() {
    assert_eq!(Parser::new(vec![]).err(), Some(ParseError::NoInput));
}

#[test]
fn token_list_with_single_num() {
    let mut parser = Parser::new(vec![Token::Num(2)]).unwrap();
    assert_eq!(parser.parse().unwrap(), 2);
}

#[test]
fn token_list_with_simple_sum() {
    let mut parser = Parser::new(vec![Token::Num(2), Token::Plus, Token::Num(2)]).unwrap();
    assert_eq!(parser.parse().unwrap(), 4)
}

#[test]
fn token_list_with_simple_parenthesised_sum() {
    let mut parser = Parser::new(vec![
        Token::LBracket,
        Token::Num(2),
        Token::Plus,
        Token::Num(2),
        Token::RBracket,
    ])
    .unwrap();
    assert_eq!(parser.parse().unwrap(), 4)
}

fn parse_line(line: &str) -> Result<u32, ParseError> {
    Parser::new(tokenize(line).unwrap()).unwrap().parse()
}

#[test]
fn sums_of_scanned_lines() {
    assert_eq!(parse_line("2+2"), Ok(4));
    assert_eq!(parse_line("(2+2)"), Ok(4));
    assert_eq!(parse_line("(10+ 122)"), Ok(132));
}

#[test]
fn nested_brackets() {
    assert_eq!(parse_line("((1+1)+1)"), Ok(3));
    assert_eq!(parse_line("(1+(1+1))"), Ok(3));
    assert_eq!(parse_line("1+((2+3)+(4+(5)))+6"), Ok(21));
    assert_eq!(parse_line("(((7)))"), Ok(7));
}

#[test]
fn plus_without_a_term_is_malformed() {
    assert_eq!(parse_line("3+"), Err(ParseError::GenericError));
    assert_eq!(parse_line("3++4"), Err(ParseError::GenericError));
    assert_eq!(parse_line("+3"), Err(ParseError::GenericError));
}

#[test]
fn eof_alone_is_malformed_not_empty() {
    let mut parser = Parser::new(vec![Token::EOF]).unwrap();
    assert_eq!(parser.parse(), Err(ParseError::GenericError));
    assert_eq!(parse_line(""), Err(ParseError::GenericError));
}

#[test]
fn bracket_that_is_not_closed_is_malformed() {
    assert_eq!(parse_line("(1+2"), Err(ParseError::GenericError));
    assert_eq!(parse_line("((1)+2"), Err(ParseError::GenericError));
    assert_eq!(parse_line("()"), Err(ParseError::GenericError));
    assert_eq!(parse_line(")"), Err(ParseError::GenericError));
    let mut parser = Parser::new(vec![Token::LBracket, Token::Num(1)]).unwrap();
    assert_eq!(parser.parse(), Err(ParseError::GenericError));
}

#[test]
fn tokens_behind_the_expression_are_left_alone() {
    assert_eq!(parse_line("2 2"), Ok(2));
    assert_eq!(parse_line("(1+2) 7"), Ok(3));
    assert_eq!(parse_line("1+2)"), Ok(3));
}

#[test]
fn second_parse_goes_on_behind_the_first() {
    let mut parser = Parser::new(tokenize("1+2 30+4").unwrap()).unwrap();
    assert_eq!(parser.parse(), Ok(3));
    assert_eq!(parser.parse(), Ok(34));
    assert_eq!(parser.parse(), Err(ParseError::GenericError));
}

#[test]
fn sum_past_32_bits_wraps_around() {
    assert_eq!(parse_line("4294967295+1"), Ok(0));
    assert_eq!(parse_line("4294967295+(4294967295+3)"), Ok(1));
    assert_eq!(parse_line("4294967290+5"), Ok(4294967295));
}

#[test]
fn parsing_twice_gives_the_same_value() {
    let tokens = tokenize("(1+2)+(3+4)").unwrap();
    let first = Parser::new(tokens.clone()).unwrap().parse();
    let second = Parser::new(tokens).unwrap().parse();
    assert_eq!(first, Ok(10));
    assert_eq!(first, second);
}

#[test]
fn value_is_the_sum_of_the_numbers_however_grouped() {
    for line in ["1+2+3+4", "(1+2)+(3+4)", "((1+2)+3)+4", "1+(2+(3+4))", "(((1)+((2)))+3+4)"] {
        assert_eq!(parse_line(line), Ok(10));
    }
}

#[test]
fn cursor_stays_before_eof_after_a_value() {
    let mut parser = Parser::new(tokenize("1+2").unwrap()).unwrap();
    assert_eq!(parser.parse(), Ok(3));
    // Only `EOF` is left, which is no expression.
    assert_eq!(parser.parse(), Err(ParseError::GenericError));
    // `EOF` was taken by the failure: the list has ended now.
    assert_eq!(parser.parse(), Err(ParseError::GenericError));
}

#[test]
fn end_of_the_list_is_read_as_eof() {
    let without = vec![Token::Num(5), Token::Plus, Token::Num(6)];
    let mut with = without.clone();
    with.push(Token::EOF);
    assert_eq!(
        Parser::new(without).unwrap().parse(),
        Parser::new(with).unwrap().parse()
    );
    let mut parser = Parser::new(vec![Token::Num(5), Token::Plus]).unwrap();
    assert_eq!(parser.parse(), Err(ParseError::GenericError));
}
