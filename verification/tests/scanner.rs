use lib::scanner::{bytes_eq, is_alpha, is_digit, number_literals, Scanner, Token, TokenType};

fn tokens(src: &str) -> Vec<(TokenType, String, usize)> {
    let mut s = Scanner::new(src);
    let mut out = Vec::new();
    loop {
        let t = s.scan();
        out.push((t.kind, String::from_utf8(t.lexeme.to_vec()).unwrap(), t.line));
        if t.kind == TokenType::Eof {
            return out;
        }
    }
}

fn kinds(src: &str) -> Vec<TokenType> {
    tokens(src).into_iter().map(|t| t.0).collect()
}

#[test]
fn scans_a_declaration() {
    assert_eq!(
        tokens("var x = 12.5;"),
        vec![
            (TokenType::Var, "var".to_string(), 1),
            (TokenType::Identifier, "x".to_string(), 1),
            (TokenType::Equal, "=".to_string(), 1),
            (TokenType::Number, "12.5".to_string(), 1),
            (TokenType::Semicolon, ";".to_string(), 1),
            (TokenType::Eof, "".to_string(), 1),
        ]
    );
}

#[test]
fn scans_operators() {
    assert_eq!(
        kinds("( ) { } , . - + ; / * ! != = == > >= < <="),
        vec![
            TokenType::LeftParen,
            TokenType::RightParen,
            TokenType::LeftBrace,
            TokenType::RightBrace,
            TokenType::Comma,
            TokenType::Dot,
            TokenType::Minus,
            TokenType::Plus,
            TokenType::Semicolon,
            TokenType::Slash,
            TokenType::Star,
            TokenType::Bang,
            TokenType::BangEqual,
            TokenType::Equal,
            TokenType::EqualEqual,
            TokenType::Greater,
            TokenType::GreaterEqual,
            TokenType::Less,
            TokenType::LessEqual,
            TokenType::Eof,
        ]
    );
}

#[test]
fn scans_keywords() {
    assert_eq!(
        kinds("and class else false for fun if nil or print return super this true var while"),
        vec![
            TokenType::And,
            TokenType::Class,
            TokenType::Else,
            TokenType::False,
            TokenType::For,
            TokenType::Fun,
            TokenType::If,
            TokenType::Nil,
            TokenType::Or,
            TokenType::Print,
            TokenType::Return,
            TokenType::Super,
            TokenType::This,
            TokenType::True,
            TokenType::Var,
            TokenType::While,
            TokenType::Eof,
        ]
    );
    assert_eq!(kinds("classy _fun f0r"), vec![TokenType::Identifier, TokenType::Identifier, TokenType::Identifier, TokenType::Eof]);
}

#[test]
fn skips_comments_and_counts_lines() {
    let t = tokens("// note\nprint \"a\nb\";\n");
    assert_eq!(t[0], (TokenType::Print, "print".to_string(), 2));
    assert_eq!(t[1], (TokenType::String, "\"a\nb\"".to_string(), 3));
    assert_eq!(t[2], (TokenType::Semicolon, ";".to_string(), 3));
    assert_eq!(t[3], (TokenType::Eof, "".to_string(), 4));
}

#[test]
fn unterminated_string_is_an_error_token() {
    let t = tokens("\"abc");
    assert_eq!(t[0].0, TokenType::Error);
    assert_eq!(t[0].1, "Unterminated string.");
    assert_eq!(t[1].0, TokenType::Eof);
}

#[test]
fn unexpected_character_is_an_error_token() {
    let t = tokens("@");
    assert_eq!(t[0], (TokenType::Error, "Unexpected character.".to_string(), 1));
}

#[test]
fn number_without_fraction_digits_stops_before_the_dot() {
    assert_eq!(
        kinds("1.x"),
        vec![TokenType::Number, TokenType::Dot, TokenType::Identifier, TokenType::Eof]
    );
}

#[test]
fn eof_repeats() {
    let mut s = Scanner::new("");
    assert_eq!(s.scan().kind, TokenType::Eof);
    assert_eq!(s.scan().kind, TokenType::Eof);
}

#[test]
fn scanner_starts_at_line_one() {
    let s = Scanner::new("abc");
    assert_eq!((s.start, s.current, s.line), (0, 0, 1));
}

#[test]
fn token_new_keeps_its_parts() {
    let t = Token::new(TokenType::Identifier, b"name", 7);
    assert_eq!(t.kind, TokenType::Identifier);
    assert_eq!(t.lexeme, b"name");
    assert_eq!(t.line, 7);
}

#[test]
fn number_literals_in_order() {
    let lits: Vec<Vec<u8>> = number_literals("print 1 + 2.5; // 9\n\"7\" 30").iter().map(|b| b.to_vec()).collect();
    assert_eq!(lits, vec![b"1".to_vec(), b"2.5".to_vec(), b"30".to_vec()]);
}

#[test]
fn character_classes() {
    assert!(is_digit(b'0') && is_digit(b'9'));
    assert!(!is_digit(b'a') && !is_digit(b'/'));
    assert!(is_alpha(b'a') && is_alpha(b'Z') && is_alpha(b'_'));
    assert!(!is_alpha(b'1') && !is_alpha(b'@'));
}

#[test]
fn byte_strings_compare() {
    assert!(bytes_eq(b"abc", b"abc"));
    assert!(!bytes_eq(b"abc", b"abd"));
    assert!(!bytes_eq(b"ab", b"abc"));
}
