use lexer::error::LexError;
use lexer::lexer::Lexer;
use lexer::token::keyword;
use lexer::token::TokenType;

#[test]
fn test_read_char() {
    let mut l = Lexer::new("abcde");
    l.read_position = 4;
    l.read_char();

    assert_eq!(l.ch, b'e')
}

#[test]
fn test_token() {
    let mut l = Lexer::new("create");

    assert_eq!(l.token().unwrap().literal, "create");
}

#[test]
fn keyword_input_yields_its_token() {
    let mut l = Lexer::new("create");
    let t = l.token().unwrap();
    assert_eq!(t.literal, "create");
    assert_eq!(t.token_type, TokenType::Create);
}

#[test]
fn second_call_after_lone_keyword_is_end_of_input() {
    let mut l = Lexer::new("create");
    let first = l.token().unwrap();
    assert_eq!(first.token_type, TokenType::Create);
    let second = l.token().unwrap();
    assert_eq!(second.token_type, TokenType::EndOfInput);
    assert_eq!(second.literal, "");
}

#[test]
fn unrecognized_word_fails_with_its_literal() {
    let mut l = Lexer::new("xyz");
    assert_eq!(
        l.token(),
        Err(LexError::UnrecognizedKeyword(String::from("xyz")))
    );
}

#[test]
fn whitespace_only_input_scans_to_end_of_input() {
    let mut l = Lexer::new("   \t\n");
    let t = l.token().unwrap();
    assert_eq!(t.token_type, TokenType::EndOfInput);
    assert_eq!(t.literal, "");
}

#[test]
fn surrounding_whitespace_never_reaches_the_literal() {
    let mut l = Lexer::new("  create  ");
    let t = l.token().unwrap();
    assert_eq!(t.literal, "create");
    assert_eq!(t.token_type, TokenType::Create);
    let end = l.token().unwrap();
    assert_eq!(end.token_type, TokenType::EndOfInput);
}

#[test]
fn advancing_past_the_end_is_idempotent() {
    let mut l = Lexer::new("ab");
    l.read_char();
    l.read_char();
    let (position, read_position, ch) = (l.position, l.read_position, l.ch);
    assert_eq!(ch, 0);
    for _ in 0..5 {
        l.read_char();
        assert_eq!(l.position, position);
        assert_eq!(l.read_position, read_position);
        assert_eq!(l.ch, ch);
    }
}

#[test]
fn advancing_an_empty_buffer_is_idempotent() {
    let mut l = Lexer::new("");
    assert_eq!((l.position, l.read_position, l.ch), (0, 1, 0));
    l.read_char();
    l.read_char();
    assert_eq!((l.position, l.read_position, l.ch), (0, 1, 0));
}

#[test]
fn literals_joined_by_spaces_rescan_to_the_same_words() {
    let mut l = Lexer::new(" create  create \t create");
    let mut literals: Vec<String> = Vec::new();
    loop {
        let t = l.token().unwrap();
        if t.token_type == TokenType::EndOfInput {
            break;
        }
        literals.push(t.literal);
    }
    assert_eq!(literals, vec!["create", "create", "create"]);

    let joined = literals.join(" ");
    assert_eq!(joined, "create create create");
    let mut l2 = Lexer::new(&joined);
    let mut rescanned: Vec<String> = Vec::new();
    loop {
        let t = l2.token().unwrap();
        if t.token_type == TokenType::EndOfInput {
            break;
        }
        rescanned.push(t.literal);
    }
    assert_eq!(rescanned, literals);
}

#[test]
fn padding_does_not_change_a_scan_failure() {
    let mut padded = Lexer::new(" \t xyz \r\n");
    let mut bare = Lexer::new("xyz");
    assert_eq!(padded.token(), bare.token());
}

#[test]
fn non_identifier_byte_gives_empty_identifier() {
    let mut l = Lexer::new("123");
    assert_eq!(l.token(), Err(LexError::EmptyIdentifier));
}

#[test]
fn nul_byte_in_the_buffer_is_not_end_of_input() {
    let mut l = Lexer::new("\0create");
    assert_eq!(l.token(), Err(LexError::EmptyIdentifier));
}

#[test]
fn underscores_belong_to_identifiers() {
    let mut l = Lexer::new("_create");
    assert_eq!(
        l.token(),
        Err(LexError::UnrecognizedKeyword(String::from("_create")))
    );
}

#[test]
fn identifier_stops_at_a_multi_byte_character() {
    let mut l = Lexer::new("cr\u{e9}ate");
    assert_eq!(
        l.token(),
        Err(LexError::UnrecognizedKeyword(String::from("cr")))
    );
}

#[test]
fn keyword_classifies_the_table_entry() {
    assert_eq!(keyword("create"), Ok(TokenType::Create));
}

#[test]
fn keyword_is_case_sensitive() {
    assert_eq!(
        keyword("Create"),
        Err(LexError::UnrecognizedKeyword(String::from("Create")))
    );
}

#[test]
fn keyword_rejects_an_unknown_word() {
    assert_eq!(
        keyword("delete"),
        Err(LexError::UnrecognizedKeyword(String::from("delete")))
    );
}
