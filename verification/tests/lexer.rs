use ling::lexer::{chars_of_lines, Lexer, Token};

#[test]
fn empty_input_yields_nothing() {
    let mut lexer = Lexer::new();
    let lexemes = lexer.lex(Vec::new());
    assert_eq!(lexemes.len(), 0);
}

#[test]
fn whitespace_only_yields_nothing() {
    let mut lexer = Lexer::new();
    let lexemes = lexer.lex(" \t  \n \r\n".chars().collect());
    assert_eq!(lexemes.len(), 0);
}

#[test]
fn no_hash_yields_nothing() {
    let mut lexer = Lexer::new();
    let lexemes = lexer.lex("abc def\nghi jkl\n".chars().collect());
    assert_eq!(lexemes.len(), 0);
}

#[test]
fn punctuation_is_not_emitted() {
    let mut lexer = Lexer::new();
    let lexemes = lexer.lex(",.+-\n".chars().collect());
    assert_eq!(lexemes.len(), 0);
}

#[test]
fn single_comment_line() {
    let mut lexer = Lexer::new();
    let lexemes = lexer.lex("# hello\n".chars().collect());
    assert_eq!(lexemes.len(), 1);
    assert_eq!(lexemes[0].row, 1);
    assert_eq!(lexemes[0].column, 1);
    match &lexemes[0].token {
        Token::Identifier(text) => assert_eq!(text.as_str(), " hello\n"),
        other => panic!("expected an identifier token, got {:?}", other),
    }
}

#[test]
fn comment_text_accumulates() {
    let mut lexer = Lexer::new();
    let lexemes = lexer.lex("#xy\n".chars().collect());
    assert_eq!(lexemes.len(), 1);
    match &lexemes[0].token {
        Token::Identifier(text) => assert_eq!(text.as_str(), "xy\n"),
        other => panic!("expected an identifier token, got {:?}", other),
    }
}

#[test]
fn indented_comment_keeps_its_column() {
    let mut lexer = Lexer::new();
    let lexemes = lexer.lex("  # c\n".chars().collect());
    assert_eq!(lexemes.len(), 1);
    assert_eq!(lexemes[0].column, 3);
    match &lexemes[0].token {
        Token::Identifier(text) => assert_eq!(text.as_str(), " c\n"),
        other => panic!("expected an identifier token, got {:?}", other),
    }
}

#[test]
fn two_comment_lines() {
    let mut lexer = Lexer::new();
    let lexemes = lexer.lex("# a\n# b\n".chars().collect());
    assert_eq!(lexemes.len(), 2);
    assert!(lexemes[0].row < lexemes[1].row);
    assert_eq!(lexemes[0].row, 1);
    assert_eq!(lexemes[1].row, 2);
    assert_eq!(lexemes[0].column, 1);
    assert_eq!(lexemes[1].column, 1);
    match &lexemes[0].token {
        Token::Identifier(text) => assert_eq!(text.as_str(), " a\n"),
        other => panic!("expected an identifier token, got {:?}", other),
    }
    match &lexemes[1].token {
        Token::Identifier(text) => assert_eq!(text.as_str(), " b\n"),
        other => panic!("expected an identifier token, got {:?}", other),
    }
}

#[test]
fn unterminated_comment_is_not_emitted() {
    let mut lexer = Lexer::new();
    let lexemes = lexer.lex("# abc".chars().collect());
    assert_eq!(lexemes.len(), 0);
}

#[test]
fn fresh_instances_agree() {
    let mut first = Lexer::new();
    let mut second = Lexer::new();
    let input = "# one\nword\n# two\n";
    let left = first.lex(input.chars().collect());
    let right = second.lex(input.chars().collect());
    assert_eq!(left, right);
}

#[test]
fn state_carries_across_calls_on_one_instance() {
    let mut lexer = Lexer::new();
    let head = lexer.lex("# a".chars().collect());
    assert_eq!(head.len(), 0);
    let tail = lexer.lex("\n".chars().collect());
    assert_eq!(tail.len(), 1);
    match &tail[0].token {
        Token::Identifier(text) => assert_eq!(text.as_str(), " a\n"),
        other => panic!("expected an identifier token, got {:?}", other),
    }
}

#[test]
fn lines_are_flattened_with_newlines() {
    let lines = vec![String::from("# a"), String::from("x")];
    let stream = chars_of_lines(&lines);
    let expected: Vec<char> = "# a\nx\n".chars().collect();
    assert_eq!(stream, expected);
}

#[test]
fn empty_line_list_gives_empty_stream() {
    let lines: Vec<String> = Vec::new();
    let stream = chars_of_lines(&lines);
    assert_eq!(stream.len(), 0);
}
