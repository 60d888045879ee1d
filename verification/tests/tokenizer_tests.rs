use wl::tokenizer::{create_keywords_hashmap, is_alpha, is_digit, Token, TokenType, Tokenizer};

fn scan(code: &str) -> Vec<Token<'_>> {
    Tokenizer::new(code).tokenizer()
}

fn kinds(tokens: &[Token<'_>]) -> Vec<TokenType> {
    tokens.iter().map(|token| token.kind).collect()
}

fn lexemes<'a>(tokens: &[Token<'a>]) -> Vec<&'a str> {
    tokens.iter().map(|token| token.lexeme).collect()
}

fn lines(tokens: &[Token<'_>]) -> Vec<usize> {
    tokens.iter().map(|token| token.line).collect()
}

#[test]
fn digit_is_digit() {
    assert_eq!(is_digit(b'0'), true);
    assert_eq!(is_digit(b'9'), true);
}

#[test]
fn alpha_is_not_digit() {
    assert_eq!(is_digit(b'a'), false);
    assert_eq!(is_digit(b'A'), false);
}

#[test]
fn tokenizer_comment() {
    let code = "// it is a comment";
    let mut scanner = Tokenizer::new(&code);
    let tok = scanner.scan_token();
    assert_eq!(tok.kind, TokenType::Comment);
    assert_eq!(tok.lexeme, code);
}

#[test]
fn digits_are_exactly_zero_to_nine() {
    for c in 0..=255u8 {
        assert_eq!(is_digit(c), c.is_ascii_digit(), "byte {}", c);
    }
}

#[test]
fn alphas_are_letters_and_underscore() {
    for c in 0..=255u8 {
        assert_eq!(is_alpha(c), c.is_ascii_alphabetic() || c == b'_', "byte {}", c);
    }
}

#[test]
fn let_statement_tokens() {
    let tokens = scan("let a = 10;");
    assert_eq!(
        kinds(&tokens),
        vec![
            TokenType::Let,
            TokenType::Identifier,
            TokenType::Equal,
            TokenType::Number,
            TokenType::Semicolon,
            TokenType::Eof,
        ]
    );
    assert_eq!(lexemes(&tokens), vec!["let", "a", "=", "10", ";", ""]);
    assert_eq!(lines(&tokens), vec![1, 1, 1, 1, 1, 1]);
}

#[test]
fn empty_input_is_only_eof() {
    let tokens = scan("");
    assert_eq!(tokens.len(), 1);
    assert_eq!(tokens[0].kind, TokenType::Eof);
    assert_eq!(tokens[0].lexeme, "");
    assert_eq!(tokens[0].line, 1);
}

#[test]
fn blanks_only_is_only_eof() {
    let tokens = scan(" \t\r\n \n");
    assert_eq!(kinds(&tokens), vec![TokenType::Eof]);
    assert_eq!(tokens[0].line, 3);
    assert_eq!(tokens[0].lexeme, "");
}

#[test]
fn unterminated_string_is_an_error() {
    let tokens = scan("\"abc");
    assert_eq!(kinds(&tokens), vec![TokenType::Error, TokenType::Eof]);
    assert_eq!(tokens[0].lexeme, "Unterminated string.");
    assert_eq!(tokens[0].line, 1);
}

#[test]
fn unterminated_string_first_token() {
    let mut scanner = Tokenizer::new("\"abc");
    let token = scanner.scan_token();
    assert_eq!(token.kind, TokenType::Error);
    assert_eq!(token.lexeme, "Unterminated string.");
    assert_eq!(token.line, 1);
    assert_eq!(scanner.scan_token().kind, TokenType::Eof);
}

#[test]
fn unterminated_string_counts_its_newlines() {
    let tokens = scan("x \"ab\ncd\n");
    assert_eq!(kinds(&tokens), vec![TokenType::Identifier, TokenType::Error, TokenType::Eof]);
    assert_eq!(lines(&tokens), vec![1, 3, 3]);
}

#[test]
fn comment_then_statement() {
    let tokens = scan("// a comment\nlet a = 1;");
    assert_eq!(
        kinds(&tokens),
        vec![
            TokenType::Comment,
            TokenType::Let,
            TokenType::Identifier,
            TokenType::Equal,
            TokenType::Number,
            TokenType::Semicolon,
            TokenType::Eof,
        ]
    );
    assert_eq!(tokens[0].lexeme, "// a comment");
    assert_eq!(lines(&tokens), vec![1, 2, 2, 2, 2, 2, 2]);
}

#[test]
fn comment_runs_to_end_of_input() {
    let tokens = scan("a //");
    assert_eq!(kinds(&tokens), vec![TokenType::Identifier, TokenType::Comment, TokenType::Eof]);
    assert_eq!(tokens[1].lexeme, "//");
}

#[test]
fn single_byte_tokens() {
    let tokens = scan("( ) { } , . - + : ; / * ! = > <");
    assert_eq!(
        kinds(&tokens),
        vec![
            TokenType::LeftParen,
            TokenType::RightParen,
            TokenType::LeftBrace,
            TokenType::RightBrace,
            TokenType::Comma,
            TokenType::Dot,
            TokenType::Minus,
            TokenType::Plus,
            TokenType::Colon,
            TokenType::Semicolon,
            TokenType::Slash,
            TokenType::Star,
            TokenType::Bang,
            TokenType::Equal,
            TokenType::Greater,
            TokenType::Less,
            TokenType::Eof,
        ]
    );
    assert_eq!(
        lexemes(&tokens),
        vec!["(", ")", "{", "}", ",", ".", "-", "+", ":", ";", "/", "*", "!", "=", ">", "<", ""]
    );
}

#[test]
fn two_byte_operators() {
    let tokens = scan("== >= <= = = > = <");
    assert_eq!(
        kinds(&tokens),
        vec![
            TokenType::EqualEqual,
            TokenType::GreaterEqual,
            TokenType::LessEqual,
            TokenType::Equal,
            TokenType::Equal,
            TokenType::Greater,
            TokenType::Equal,
            TokenType::Less,
            TokenType::Eof,
        ]
    );
    assert_eq!(lexemes(&tokens), vec!["==", ">=", "<=", "=", "=", ">", "=", "<", ""]);
}

#[test]
fn operators_without_blanks() {
    let tokens = scan("===<==>=!=");
    assert_eq!(
        kinds(&tokens),
        vec![
            TokenType::EqualEqual,
            TokenType::Equal,
            TokenType::LessEqual,
            TokenType::Equal,
            TokenType::GreaterEqual,
            TokenType::Bang,
            TokenType::Equal,
            TokenType::Eof,
        ]
    );
}

#[test]
fn operator_at_end_of_input() {
    assert_eq!(kinds(&scan("=")), vec![TokenType::Equal, TokenType::Eof]);
    assert_eq!(kinds(&scan("<")), vec![TokenType::Less, TokenType::Eof]);
    assert_eq!(kinds(&scan(">")), vec![TokenType::Greater, TokenType::Eof]);
    assert_eq!(kinds(&scan("/")), vec![TokenType::Slash, TokenType::Eof]);
}

#[test]
fn numbers_with_and_without_fraction() {
    let tokens = scan("7 10 12.5 0.25");
    assert_eq!(
        kinds(&tokens),
        vec![
            TokenType::Number,
            TokenType::Number,
            TokenType::Number,
            TokenType::Number,
            TokenType::Eof,
        ]
    );
    assert_eq!(lexemes(&tokens), vec!["7", "10", "12.5", "0.25", ""]);
}

#[test]
fn trailing_dot_is_not_part_of_a_number() {
    let tokens = scan("12.");
    assert_eq!(kinds(&tokens), vec![TokenType::Number, TokenType::Dot, TokenType::Eof]);
    assert_eq!(lexemes(&tokens), vec!["12", ".", ""]);
}

#[test]
fn dot_before_a_name_is_not_part_of_a_number() {
    let tokens = scan("12.abs");
    assert_eq!(
        kinds(&tokens),
        vec![TokenType::Number, TokenType::Dot, TokenType::Identifier, TokenType::Eof]
    );
    assert_eq!(lexemes(&tokens), vec!["12", ".", "abs", ""]);
}

#[test]
fn a_number_has_one_fraction() {
    let tokens = scan("1.2.3");
    assert_eq!(
        kinds(&tokens),
        vec![TokenType::Number, TokenType::Dot, TokenType::Number, TokenType::Eof]
    );
    assert_eq!(lexemes(&tokens), vec!["1.2", ".", "3", ""]);
}

#[test]
fn a_single_digit_is_a_number() {
    let tokens = scan("1");
    assert_eq!(kinds(&tokens), vec![TokenType::Number, TokenType::Eof]);
    assert_eq!(tokens[0].lexeme, "1");
}

#[test]
fn every_reserved_word() {
    let tokens = scan(
        "if else while for false true const let function class null return break continue",
    );
    assert_eq!(
        kinds(&tokens),
        vec![
            TokenType::If,
            TokenType::Else,
            TokenType::While,
            TokenType::For,
            TokenType::False,
            TokenType::True,
            TokenType::Const,
            TokenType::Let,
            TokenType::Function,
            TokenType::Class,
            TokenType::Null,
            TokenType::Return,
            TokenType::Break,
            TokenType::Continue,
            TokenType::Eof,
        ]
    );
}

#[test]
fn words_that_only_resemble_reserved_words() {
    let tokens = scan("letter If _let let_ le t1 _ a_b2");
    assert_eq!(
        kinds(&tokens),
        vec![
            TokenType::Identifier,
            TokenType::Identifier,
            TokenType::Identifier,
            TokenType::Identifier,
            TokenType::Identifier,
            TokenType::Identifier,
            TokenType::Identifier,
            TokenType::Identifier,
            TokenType::Eof,
        ]
    );
    assert_eq!(lexemes(&tokens), vec!["letter", "If", "_let", "let_", "le", "t1", "_", "a_b2", ""]);
}

#[test]
fn digits_then_letters_are_two_tokens() {
    let tokens = scan("12ab");
    assert_eq!(kinds(&tokens), vec![TokenType::Number, TokenType::Identifier, TokenType::Eof]);
    assert_eq!(lexemes(&tokens), vec!["12", "ab", ""]);
}

#[test]
fn keyword_table_has_the_reserved_words() {
    let table = create_keywords_hashmap();
    assert_eq!(table.len(), 14);
    assert_eq!(table.get("if"), Some(&TokenType::If));
    assert_eq!(table.get("else"), Some(&TokenType::Else));
    assert_eq!(table.get("while"), Some(&TokenType::While));
    assert_eq!(table.get("for"), Some(&TokenType::For));
    assert_eq!(table.get("false"), Some(&TokenType::False));
    assert_eq!(table.get("true"), Some(&TokenType::True));
    assert_eq!(table.get("const"), Some(&TokenType::Const));
    assert_eq!(table.get("let"), Some(&TokenType::Let));
    assert_eq!(table.get("function"), Some(&TokenType::Function));
    assert_eq!(table.get("class"), Some(&TokenType::Class));
    assert_eq!(table.get("null"), Some(&TokenType::Null));
    assert_eq!(table.get("return"), Some(&TokenType::Return));
    assert_eq!(table.get("break"), Some(&TokenType::Break));
    assert_eq!(table.get("continue"), Some(&TokenType::Continue));
    assert_eq!(table.get("identifier"), None);
    assert_eq!(table.get(""), None);
}

#[test]
fn string_literal_keeps_its_quotes() {
    let tokens = scan("\"abc\" \"\"");
    assert_eq!(kinds(&tokens), vec![TokenType::String, TokenType::String, TokenType::Eof]);
    assert_eq!(lexemes(&tokens), vec!["\"abc\"", "\"\"", ""]);
}

#[test]
fn newline_inside_a_string_counts() {
    let tokens = scan("\"a\nb\" c");
    assert_eq!(kinds(&tokens), vec![TokenType::String, TokenType::Identifier, TokenType::Eof]);
    assert_eq!(tokens[0].lexeme, "\"a\nb\"");
    assert_eq!(lines(&tokens), vec![2, 2, 2]);
}

#[test]
fn newlines_between_tokens_count_once_each() {
    let tokens = scan("a\n\nb\r\n\tc\n");
    assert_eq!(lines(&tokens), vec![1, 3, 4, 5]);
}

#[test]
fn unexpected_character_is_an_error_and_the_scan_goes_on() {
    let tokens = scan("a @ b");
    assert_eq!(
        kinds(&tokens),
        vec![TokenType::Identifier, TokenType::Error, TokenType::Identifier, TokenType::Eof]
    );
    assert_eq!(tokens[1].lexeme, "Unexpected character.");
    assert_eq!(tokens[1].line, 1);
    assert_eq!(tokens[2].lexeme, "b");
}

#[test]
fn error_token_carries_its_line() {
    let tokens = scan("\n\n#");
    assert_eq!(kinds(&tokens), vec![TokenType::Error, TokenType::Eof]);
    assert_eq!(tokens[0].lexeme, "Unexpected character.");
    assert_eq!(tokens[0].line, 3);
}

#[test]
fn a_character_of_several_bytes_is_an_error_for_each_byte() {
    let tokens = scan("\u{e9}");
    assert_eq!(kinds(&tokens), vec![TokenType::Error, TokenType::Error, TokenType::Eof]);
    assert_eq!(tokens[0].lexeme, "Unexpected character.");
    assert_eq!(tokens[1].lexeme, "Unexpected character.");
}

#[test]
fn characters_of_several_bytes_inside_string_and_comment() {
    let code = "\"h\u{e9}llo\" x // caf\u{e9} \u{1f600}\ny";
    let tokens = scan(code);
    assert_eq!(
        kinds(&tokens),
        vec![
            TokenType::String,
            TokenType::Identifier,
            TokenType::Comment,
            TokenType::Identifier,
            TokenType::Eof,
        ]
    );
    assert_eq!(
        lexemes(&tokens),
        vec!["\"h\u{e9}llo\"", "x", "// caf\u{e9} \u{1f600}", "y", ""]
    );
    assert_eq!(lines(&tokens), vec![1, 1, 1, 2, 2]);
}

#[test]
fn word_next_to_a_character_of_several_bytes() {
    let tokens = scan("ab\u{e9}cd");
    assert_eq!(
        kinds(&tokens),
        vec![
            TokenType::Identifier,
            TokenType::Error,
            TokenType::Error,
            TokenType::Identifier,
            TokenType::Eof,
        ]
    );
    assert_eq!(tokens[0].lexeme, "ab");
    assert_eq!(tokens[3].lexeme, "cd");
}

#[test]
fn nul_byte_is_an_unexpected_character() {
    let tokens = scan("1\u{0}2");
    assert_eq!(
        kinds(&tokens),
        vec![TokenType::Number, TokenType::Error, TokenType::Number, TokenType::Eof]
    );
    assert_eq!(lexemes(&tokens), vec!["1", "Unexpected character.", "2", ""]);
}

#[test]
fn nul_byte_inside_a_string_and_a_comment() {
    let tokens = scan("\"a\u{0}b\" //c\u{0}d");
    assert_eq!(kinds(&tokens), vec![TokenType::String, TokenType::Comment, TokenType::Eof]);
    assert_eq!(lexemes(&tokens), vec!["\"a\u{0}b\"", "//c\u{0}d", ""]);
}

#[test]
fn scanning_twice_gives_the_same_tokens() {
    let code = "let a = 10;\n// note\nconst b = \"x\ny\" @ 1.5";
    let first = scan(code);
    let second = scan(code);
    assert_eq!(kinds(&first), kinds(&second));
    assert_eq!(lexemes(&first), lexemes(&second));
    assert_eq!(lines(&first), lines(&second));
}

#[test]
fn eof_is_last_and_only_last() {
    for code in ["", "a", "let a = 1;", "\"open", "@@", "// c", "1.", " \n "] {
        let tokens = scan(code);
        assert!(!tokens.is_empty());
        let last = tokens.len() - 1;
        assert_eq!(tokens[last].kind, TokenType::Eof);
        for token in &tokens[..last] {
            assert_ne!(token.kind, TokenType::Eof);
        }
    }
}

#[test]
fn lexemes_and_blanks_spell_the_text_again() {
    let code = "let a = 10;\n  // note\n\tconst bb=\"x\ny\"  <= 1.5 .\r\n";
    let tokens = scan(code);
    let bytes = code.as_bytes();
    let mut at = 0;
    let mut text = String::new();
    for token in &tokens {
        assert_ne!(token.kind, TokenType::Error);
        while at < bytes.len() && matches!(bytes[at], b' ' | b'\t' | b'\r' | b'\n') {
            text.push(bytes[at] as char);
            at += 1;
        }
        assert!(code[at..].starts_with(token.lexeme));
        text.push_str(token.lexeme);
        at += token.lexeme.len();
    }
    assert_eq!(at, code.len());
    assert_eq!(text, code);
}

#[test]
fn scan_token_by_token() {
    let mut scanner = Tokenizer::new("a\n= 1");
    let first = scanner.scan_token();
    assert_eq!((first.kind, first.lexeme, first.line), (TokenType::Identifier, "a", 1));
    let second = scanner.scan_token();
    assert_eq!((second.kind, second.lexeme, second.line), (TokenType::Equal, "=", 2));
    let third = scanner.scan_token();
    assert_eq!((third.kind, third.lexeme, third.line), (TokenType::Number, "1", 2));
    let fourth = scanner.scan_token();
    assert_eq!((fourth.kind, fourth.lexeme, fourth.line), (TokenType::Eof, "", 2));
    let fifth = scanner.scan_token();
    assert_eq!((fifth.kind, fifth.lexeme, fifth.line), (TokenType::Eof, "", 2));
}

#[test]
fn tokenizer_goes_on_from_where_the_scan_stands() {
    let mut scanner = Tokenizer::new("a b c");
    assert_eq!(scanner.scan_token().lexeme, "a");
    let rest = scanner.tokenizer();
    assert_eq!(lexemes(&rest), vec!["b", "c", ""]);
    let again = scanner.tokenizer();
    assert_eq!(kinds(&again), vec![TokenType::Eof]);
}
