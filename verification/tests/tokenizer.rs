use calculator::tokenizer::{
    add_num_to_token_list, numeric_char_vec_to_u32, tokenize, Token, TokenizerError,
};

#[test]
fn single_digit_numbers() {
    assert_eq!(numeric_char_vec_to_u32(&vec!['1']), 1);
    assert_eq!(numeric_char_vec_to_u32(&vec!['7']), 7);
    assert_eq!(numeric_char_vec_to_u32(&vec!['0']), 0);
}

#[test]
fn multiple_digit_numbers() {
    assert_eq!(numeric_char_vec_to_u32(&vec!['2', '0']), 20);
    assert_eq!(numeric_char_vec_to_u32(&vec!['7', '0', '0']), 700);
    assert_eq!(
        numeric_char_vec_to_u32(&vec!['1', '0', '4', '3', '5']),
        10435
    );
}

#[test]
fn empty_string() {
    assert_eq!(tokenize("").unwrap(), vec![Token::EOF]);
}

#[test]
fn single_digit_number() {
    assert_eq!(tokenize("2").unwrap(), vec![Token::Num(2), Token::EOF])
}

#[test]
fn multiple_digit_number() {
    assert_eq!(
        tokenize("1012").unwrap(),
        vec![Token::Num(1012), Token::EOF]
    )
}

#[test]
fn simple_parenthesised_sum() {
    assert_eq!(
        tokenize("(2+2)").unwrap(),
        vec![
            Token::LBracket,
            Token::Num(2),
            Token::Plus,
            Token::Num(2),
            Token::RBracket,
            Token::EOF
        ]
    )
}

#[test]
fn simple_multiple_digit_parenthesized_sum() {
    assert_eq!(
        tokenize("(10+ 122)").unwrap(),
        vec![
            Token::LBracket,
            Token::Num(10),
            Token::Plus,
            Token::Num(122),
            Token::RBracket,
            Token::EOF
        ]
    )
}

#[test]
fn valid_string_with_spaces() {
    assert_eq!(
        tokenize("   (2 + 2)   ").unwrap(),
        vec![
            Token::LBracket,
            Token::Num(2),
            Token::Plus,
            Token::Num(2),
            Token::RBracket,
            Token::EOF
        ]
    )
}

#[test]
fn simple_invalid_arithmetic_with_correct_tokens() {
    assert_eq!(
        tokenize("3+").unwrap(),
        vec![Token::Num(3), Token::Plus, Token::EOF]
    )
}

#[test]
fn simple_invalid_string() {
    assert_eq!(
        tokenize("X").err(),
        Some(TokenizerError::UnexpectedCharacter('X'))
    )
}

#[test]
fn word_sum() {
    assert_eq!(
        tokenize("animal + bourgeoisie").err(),
        Some(TokenizerError::UnexpectedCharacter('a'))
    )
}

#[test]
fn largest_number_is_kept() {
    assert_eq!(
        tokenize("4294967295").unwrap(),
        vec![Token::Num(4294967295), Token::EOF]
    );
    assert_eq!(numeric_char_vec_to_u32(&"4294967295".chars().collect()), u32::MAX);
}

#[test]
fn number_past_32_bits_wraps_around() {
    assert_eq!(
        tokenize("4294967296").unwrap(),
        vec![Token::Num(0), Token::EOF]
    );
    assert_eq!(
        tokenize("4294967301").unwrap(),
        vec![Token::Num(5), Token::EOF]
    );
    // 10122490909809809234 = 2356826073 * 2^32 + 3914700626
    assert_eq!(
        tokenize("10122490909809809234").unwrap(),
        vec![Token::Num(3914700626), Token::EOF]
    );
}

#[test]
fn leading_zeros_do_not_change_a_number() {
    assert_eq!(
        tokenize("000000000000000000000012").unwrap(),
        vec![Token::Num(12), Token::EOF]
    );
    assert_eq!(numeric_char_vec_to_u32(&vec!['0', '0', '7']), 7);
}

#[test]
fn space_between_digits_makes_two_numbers() {
    assert_eq!(
        tokenize("1 2").unwrap(),
        vec![Token::Num(1), Token::Num(2), Token::EOF]
    );
    assert_eq!(tokenize("12").unwrap(), vec![Token::Num(12), Token::EOF]);
}

#[test]
fn only_spaces_give_only_eof() {
    assert_eq!(tokenize("     ").unwrap(), vec![Token::EOF]);
}

#[test]
fn brackets_and_plus_signs_in_any_order() {
    assert_eq!(
        tokenize(")+(").unwrap(),
        vec![Token::RBracket, Token::Plus, Token::LBracket, Token::EOF]
    );
}

#[test]
fn first_unexpected_character_is_named() {
    assert_eq!(
        tokenize("12 + x - y").err(),
        Some(TokenizerError::UnexpectedCharacter('x'))
    );
    assert_eq!(
        tokenize("1-2*3").err(),
        Some(TokenizerError::UnexpectedCharacter('-'))
    );
    assert_eq!(
        tokenize("7\n").err(),
        Some(TokenizerError::UnexpectedCharacter('\n'))
    );
    assert_eq!(
        tokenize("1\t+ 2").err(),
        Some(TokenizerError::UnexpectedCharacter('\t'))
    );
}

#[test]
fn digits_of_other_scripts_are_unexpected() {
    assert_eq!(
        tokenize("1٣").err(),
        Some(TokenizerError::UnexpectedCharacter('٣'))
    );
    assert_eq!(
        tokenize("½").err(),
        Some(TokenizerError::UnexpectedCharacter('½'))
    );
}

#[test]
fn add_num_appends_a_number_and_clears_the_digits() {
    let mut digits = vec!['4', '2'];
    let mut tokens = vec![Token::LBracket];
    add_num_to_token_list(&mut digits, &mut tokens);
    assert_eq!(tokens, vec![Token::LBracket, Token::Num(42)]);
    assert!(digits.is_empty());
}

#[test]
fn scanning_twice_gives_the_same_tokens() {
    let line = "(1 + 23) + 4";
    assert_eq!(tokenize(line), tokenize(line));
    assert_eq!(tokenize("1 ? 2"), tokenize("1 ? 2"));
}

#[test]
fn space_that_parts_no_number_changes_no_token() {
    let line = "(10+2)+3";
    let expected = tokenize(line);
    for at in 0..=line.len() {
        let parts_a_number = at == 2;
        let mut spaced = String::from(line);
        spaced.insert(at, ' ');
        if parts_a_number {
            assert_ne!(tokenize(&spaced), expected);
        } else {
            assert_eq!(tokenize(&spaced), expected);
        }
    }
    assert_eq!(tokenize("1 + x"), tokenize("1+x"));
}

#[test]
fn tokens_end_with_the_only_eof() {
    for line in ["", " ", "1", "(1+2)", ")) ((", "12 34 + 5"] {
        let tokens = tokenize(line).unwrap();
        let eofs = tokens.iter().filter(|t| **t == Token::EOF).count();
        assert_eq!(eofs, 1);
        assert_eq!(tokens.last(), Some(&Token::EOF));
    }
}

#[test]
fn every_number_written_in_digits_is_scanned_as_itself() {
    for n in [0u32, 1, 9, 10, 99, 100, 65535, 1000000000, 4294967294, u32::MAX] {
        assert_eq!(
            tokenize(&n.to_string()).unwrap(),
            vec![Token::Num(n), Token::EOF]
        );
    }
}
