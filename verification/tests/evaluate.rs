use calculator::parser::ParseError;
use calculator::tokenizer::TokenizerError;
use calculator::{evaluate, process_user_input, InputError};

#[test]
fn evaluate_gives_the_sum() {
    assert_eq!(evaluate("2+2"), Ok(4));
    assert_eq!(evaluate("(10+ 122)"), Ok(132));
    assert_eq!(evaluate("((1+1)+1)"), Ok(3));
}

#[test]
fn evaluate_names_the_unexpected_character() {
    assert_eq!(
        evaluate("2 * 3"),
        Err(InputError::Tokenizer(TokenizerError::UnexpectedCharacter('*')))
    );
    assert_eq!(
        evaluate("2+2\n"),
        Err(InputError::Tokenizer(TokenizerError::UnexpectedCharacter('\n')))
    );
}

#[test]
fn evaluate_refuses_a_malformed_expression() {
    assert_eq!(evaluate("3+"), Err(InputError::Parser(ParseError::GenericError)));
    assert_eq!(evaluate(""), Err(InputError::Parser(ParseError::GenericError)));
}

#[test]
fn user_input_is_trimmed_first() {
    assert_eq!(process_user_input("2+2\n"), Ok(4));
    assert_eq!(process_user_input("\t (1+2)+3 \r\n"), Ok(6));
    assert_eq!(
        process_user_input("\n"),
        Err(InputError::Parser(ParseError::GenericError))
    );
}

#[test]
fn user_input_is_trimmed_at_its_ends_only() {
    assert_eq!(
        process_user_input(" 1\t+2 "),
        Err(InputError::Tokenizer(TokenizerError::UnexpectedCharacter('\t')))
    );
}

#[test]
fn evaluating_twice_gives_the_same_result() {
    assert_eq!(process_user_input("(4+5)+6\n"), process_user_input("(4+5)+6\n"));
    assert_eq!(process_user_input("4+\n"), process_user_input("4+\n"));
    assert_eq!(process_user_input("4+a\n"), process_user_input("4+a\n"));
}

#[test]
fn messages_for_the_user() {
    assert_eq!(
        TokenizerError::UnexpectedCharacter('x').message(),
        "Unexpected character x"
    );
    assert_eq!(ParseError::GenericError.message(), "Unable to parse input.");
    assert_eq!(ParseError::NoInput.message(), "Unable to parse input.");
    assert_eq!(
        InputError::Tokenizer(TokenizerError::UnexpectedCharacter('é')).message(),
        "Unexpected character é"
    );
    assert_eq!(
        InputError::Parser(ParseError::GenericError).message(),
        "Unable to parse input."
    );
    assert_eq!(
        process_user_input("1 - 2\n").unwrap_err().message(),
        "Unexpected character -"
    );
}
