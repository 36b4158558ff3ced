use slabkit::lexer::{EToken, Lexer, Token};
use slabkit::text::decimal_string;
use slabkit::tokenizer::InputReader;

#[test]
fn test_placeholder_tokenization() {
    let input = "!{placeholder}! = value";
    let mut lexer = Lexer::new(input.to_string());
    let tokens = lexer.tokenize();
    assert_eq!(
        tokens,
        vec![
            Token {
                token: EToken::TEXT("!{placeholder}!".to_string()),
                line: 1,
                column: 1
            },
            Token {
                token: EToken::EQUAL_SYMBOL,
                line: 1,
                column: 17
            },
            Token {
                token: EToken::TEXT("value".to_string()),
                line: 1,
                column: 19
            }
        ]
    );
}

#[test]
fn tokens_of_an_element() {
    let tokens = Lexer::new("<a href='x'>t</a>".to_string()).tokenize();
    let kinds: Vec<EToken> = tokens.iter().map(|t| t.token.clone()).collect();
    assert_eq!(
        kinds,
        vec![
            EToken::LESSTHAN,
            EToken::TEXT("a".to_string()),
            EToken::TEXT("href".to_string()),
            EToken::EQUAL_SYMBOL,
            EToken::APOSTROPHE,
            EToken::TEXT("x".to_string()),
            EToken::APOSTROPHE,
            EToken::GREATERTHAN,
            EToken::TEXT("t".to_string()),
            EToken::LESS_THAN_SLASH,
            EToken::TEXT("a".to_string()),
            EToken::GREATERTHAN,
        ]
    );
}

#[test]
fn positions_follow_newlines() {
    let tokens = Lexer::new("<a>\n  b</a>".to_string()).tokenize();
    assert_eq!(tokens[3].token, EToken::TEXT("b".to_string()));
    assert_eq!((tokens[3].line, tokens[3].column), (2, 3));
    assert_eq!((tokens[4].line, tokens[4].column), (2, 4));
}

#[test]
fn text_runs_split_on_other_punctuation() {
    let tokens = Lexer::new("a#b".to_string()).tokenize();
    assert_eq!(tokens.len(), 2);
    assert_eq!(tokens[0].token, EToken::TEXT("a".to_string()));
    assert_eq!(tokens[1].token, EToken::TEXT("#b".to_string()));
    assert_eq!(tokens[1].column, 2);
}

#[test]
fn empty_text_has_no_tokens() {
    assert!(Lexer::new(String::new()).tokenize().is_empty());
    assert!(Lexer::new("  \n\t ".to_string()).tokenize().is_empty());
}

#[test]
fn symbols_of_token_kinds() {
    assert_eq!(EToken::LESS_THAN_SLASH.to_symbol(), "</");
    assert_eq!(EToken::APOSTROPHE.to_symbol(), "\"");
    assert_eq!(EToken::TEXT("abc".to_string()).to_symbol(), "abc");
}

#[test]
fn unexpected_token_messages() {
    let t = Token { line: 3, column: 120, token: EToken::GREATERTHAN };
    assert_eq!(t.format_unexpected_err(), "Unexpected token > at line 3, column 120");
    assert_eq!(
        t.format_unexpected_err_with_expected(EToken::EQUAL_SYMBOL),
        "Unexpected token > at line 3, column 120, expected : ="
    );
}

#[test]
fn decimal_rendering() {
    assert_eq!(decimal_string(0), "0");
    assert_eq!(decimal_string(7), "7");
    assert_eq!(decimal_string(1204), "1204");
}

#[test]
fn reader_tracks_line_and_column() {
    let mut r = slabkit::lexer::InputReader::new("a\nb".to_string());
    assert_eq!(r.last_char(), None);
    assert_eq!(r.peek_char(), Some('a'));
    assert_eq!(r.next_char(), Some('a'));
    assert_eq!((r.line, r.col), (1, 2));
    assert_eq!(r.next_char(), Some('\n'));
    assert_eq!((r.line, r.col), (2, 1));
    assert_eq!(r.last_char(), Some('\n'));
    assert_eq!(r.next_char(), Some('b'));
    assert_eq!(r.next_char(), None);
    assert_eq!(r.index, 3);
}

#[test]
fn reader_skips_white_space() {
    let mut r = slabkit::lexer::InputReader::new("  \n x".to_string());
    r.consume_whitespace();
    assert_eq!(r.index, 4);
    assert_eq!((r.line, r.col), (2, 2));
    let t = r.token(EToken::DOT);
    assert_eq!((t.line, t.column), (2, 2));
}

#[test]
fn plain_cursor_reads_characters() {
    let mut r = InputReader::new("  ab".to_string());
    r.consume_space();
    assert_eq!(r.index, 2);
    assert_eq!(r.peek(), Some('a'));
    assert_eq!(r.next_char(), Some('a'));
    assert_eq!(r.next_char(), Some('b'));
    assert_eq!(r.next_char(), None);
    assert_eq!(r.peek(), None);
}

#[test]
fn test_input_reader() {
    let content = "\n<div class='card'>\n  <p>!{name}!</p>\n</div>\n";
    let input = content.to_string();
    let mut reader = InputReader::new(input);
    for _ in 0..reader.input.len() - 1 {
        println!("{:?}", reader.next_char().unwrap());
    }
    assert_ne!(reader.input, "");
}

#[test]
fn unicode_white_space_separates_tokens() {
    let tokens = Lexer::new("a\u{a0}b\u{3000}c".to_string()).tokenize();
    assert_eq!(tokens.len(), 3);
    assert_eq!(tokens[2].token, EToken::TEXT("c".to_string()));
    assert_eq!(tokens[2].column, 5);
}
