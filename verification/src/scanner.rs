use vstd::prelude::*;
use vstd::string::StringSliceAdditionalSpecFns;

verus! {

// ASCII codes of the bytes that the scanner tells apart.
pub const NUL: u8 = 0;
pub const TAB: u8 = 9;
pub const NEWLINE: u8 = 10;
pub const CARRIAGE_RETURN: u8 = 13;
pub const SPACE: u8 = 32;
pub const BANG: u8 = 33;
pub const QUOTE: u8 = 34;
pub const LEFT_PAREN: u8 = 40;
pub const RIGHT_PAREN: u8 = 41;
pub const STAR: u8 = 42;
pub const PLUS: u8 = 43;
pub const COMMA: u8 = 44;
pub const MINUS: u8 = 45;
pub const DOT: u8 = 46;
pub const SLASH: u8 = 47;
pub const DIGIT_ZERO: u8 = 48;
pub const DIGIT_NINE: u8 = 57;
pub const SEMICOLON: u8 = 59;
pub const LESS: u8 = 60;
pub const EQUAL: u8 = 61;
pub const GREATER: u8 = 62;
pub const UPPER_A: u8 = 65;
pub const UPPER_Z: u8 = 90;
pub const UNDERSCORE: u8 = 95;
pub const LOWER_A: u8 = 97;
pub const LOWER_Z: u8 = 122;
pub const LEFT_BRACE: u8 = 123;
pub const RIGHT_BRACE: u8 = 125;

#[derive(Debug, Copy, Clone, PartialEq, Eq, Structural)]
pub enum TokenType {
    // Single-character tokens.
    LeftParen,
    RightParen,
    LeftBrace,
    RightBrace,
    Comma,
    Dot,
    Minus,
    Plus,
    Semicolon,
    Slash,
    Star,
    // One or two character tokens.
    Bang,
    BangEqual,
    Equal,
    EqualEqual,
    Greater,
    GreaterEqual,
    Less,
    LessEqual,
    // Literals.
    Identifier,
    String,
    Number,
    // Keywords.
    And,
    Class,
    Else,
    False,
    For,
    Fun,
    If,
    Nil,
    Or,
    Print,
    Return,
    Super,
    This,
    True,
    Var,
    While,
    Error,
    Eof,
}

/// A token: its kind, its text (for an error token, the message), and the
/// line on which the scanner stood when it was made.
#[derive(Debug, Copy, Clone)]
pub struct Token<'src> {
    pub kind: TokenType,
    pub lexeme: &'src [u8],
    pub line: usize,
}

/// The mathematical value of a token.
pub struct SpecToken {
    pub kind: TokenType,
    pub lexeme: Seq<u8>,
    pub line: int,
}

impl<'src> View for Token<'src> {
    type V = SpecToken;

    open spec fn view(&self) -> SpecToken {
        SpecToken { kind: self.kind, lexeme: self.lexeme@, line: self.line as int }
    }
}

impl<'src> Token<'src> {
    pub fn new(kind: TokenType, lexeme: &'src [u8], line: usize) -> (t: Self)
        ensures
            t.kind == kind,
            t.lexeme@ == lexeme@,
            t.line == line,
    {
        Self { kind, lexeme, line }
    }
}

pub open spec fn spec_is_digit(c: u8) -> bool {
    DIGIT_ZERO <= c <= DIGIT_NINE
}

pub open spec fn spec_is_alpha(c: u8) -> bool {
    (LOWER_A <= c <= LOWER_Z) || (UPPER_A <= c <= UPPER_Z) || c == UNDERSCORE
}

/// The byte at `i`, or NUL past either end.
pub open spec fn byte_or_nul(s: Seq<u8>, i: int) -> u8 {
    if 0 <= i < s.len() {
        s[i]
    } else {
        NUL
    }
}

/// The first index at or after `i` that holds `b`, or the length of `s`.
pub open spec fn find_byte(s: Seq<u8>, i: int, b: u8) -> int
    decreases s.len() - i,
{
    if i < 0 || i >= s.len() || s[i] == b {
        i
    } else {
        find_byte(s, i + 1, b)
    }
}

/// The number of newlines in `s[a..b]`.
pub open spec fn count_newlines(s: Seq<u8>, a: int, b: int) -> int
    decreases b - a,
{
    if a >= b {
        0
    } else {
        count_newlines(s, a, b - 1) + if byte_or_nul(s, b - 1) == NEWLINE {
            1int
        } else {
            0int
        }
    }
}

/// The first index at or after `i` that does not hold a digit.
pub open spec fn digits_end(s: Seq<u8>, i: int) -> int
    decreases s.len() - i,
{
    if i < 0 || i >= s.len() || !spec_is_digit(s[i]) {
        i
    } else {
        digits_end(s, i + 1)
    }
}

/// The first index at or after `i` that holds neither a letter, `_` nor a digit.
pub open spec fn word_end(s: Seq<u8>, i: int) -> int
    decreases s.len() - i,
{
    if i < 0 || i >= s.len() || !(spec_is_alpha(s[i]) || spec_is_digit(s[i])) {
        i
    } else {
        word_end(s, i + 1)
    }
}

pub proof fn lemma_find_byte(s: Seq<u8>, i: int, b: u8)
    requires
        0 <= i <= s.len(),
    ensures
        i <= find_byte(s, i, b) <= s.len(),
        find_byte(s, i, b) < s.len() ==> s[find_byte(s, i, b)] == b,
        forall|j: int| i <= j < find_byte(s, i, b) ==> s[j] != b,
    decreases s.len() - i,
{
    if i < s.len() && s[i] != b {
        lemma_find_byte(s, i + 1, b);
    }
}

pub proof fn lemma_digits_end(s: Seq<u8>, i: int)
    requires
        0 <= i <= s.len(),
    ensures
        i <= digits_end(s, i) <= s.len(),
        forall|j: int| i <= j < digits_end(s, i) ==> spec_is_digit(#[trigger] s[j]),
    decreases s.len() - i,
{
    if i < s.len() && spec_is_digit(s[i]) {
        lemma_digits_end(s, i + 1);
    }
}

pub proof fn lemma_word_end(s: Seq<u8>, i: int)
    requires
        0 <= i <= s.len(),
    ensures
        i <= word_end(s, i) <= s.len(),
    decreases s.len() - i,
{
    if i < s.len() && (spec_is_alpha(s[i]) || spec_is_digit(s[i])) {
        lemma_word_end(s, i + 1);
    }
}

/// Where the blanks, newlines and `//` comments that start at `i` end, and
/// the line number there when the line number at `i` is `line`.
pub open spec fn skip_trivia(s: Seq<u8>, i: int, line: int) -> (int, int)
    decreases s.len() - i,
{
    if i < 0 || i >= s.len() {
        (i, line)
    } else if s[i] == SPACE || s[i] == CARRIAGE_RETURN || s[i] == TAB {
        skip_trivia(s, i + 1, line)
    } else if s[i] == NEWLINE {
        skip_trivia(s, i + 1, line + 1)
    } else if s[i] == SLASH && byte_or_nul(s, i + 1) == SLASH {
        proof {
            lemma_find_byte(s, i + 1, NEWLINE);
        }
        skip_trivia(s, find_byte(s, i + 1, NEWLINE), line)
    } else {
        (i, line)
    }
}

/// The kind of a word: a keyword or an identifier.
pub open spec fn keyword_kind(w: Seq<u8>) -> TokenType {
    if w == seq![97u8, 110, 100] {
        TokenType::And
    } else if w == seq![99u8, 108, 97, 115, 115] {
        TokenType::Class
    } else if w == seq![101u8, 108, 115, 101] {
        TokenType::Else
    } else if w == seq![102u8, 97, 108, 115, 101] {
        TokenType::False
    } else if w == seq![102u8, 111, 114] {
        TokenType::For
    } else if w == seq![102u8, 117, 110] {
        TokenType::Fun
    } else if w == seq![105u8, 102] {
        TokenType::If
    } else if w == seq![110u8, 105, 108] {
        TokenType::Nil
    } else if w == seq![111u8, 114] {
        TokenType::Or
    } else if w == seq![112u8, 114, 105, 110, 116] {
        TokenType::Print
    } else if w == seq![114u8, 101, 116, 117, 114, 110] {
        TokenType::Return
    } else if w == seq![115u8, 117, 112, 101, 114] {
        TokenType::Super
    } else if w == seq![116u8, 104, 105, 115] {
        TokenType::This
    } else if w == seq![116u8, 114, 117, 101] {
        TokenType::True
    } else if w == seq![118u8, 97, 114] {
        TokenType::Var
    } else if w == seq![119u8, 104, 105, 108, 101] {
        TokenType::While
    } else {
        TokenType::Identifier
    }
}

/// "Unexpected character."
pub open spec fn unexpected_character_msg() -> Seq<u8> {
    seq![85u8, 110, 101, 120, 112, 101, 99, 116, 101, 100, 32, 99, 104, 97, 114, 97, 99, 116, 101, 114, 46]
}

/// "Unterminated string."
pub open spec fn unterminated_string_msg() -> Seq<u8> {
    seq![85u8, 110, 116, 101, 114, 109, 105, 110, 97, 116, 101, 100, 32, 115, 116, 114, 105, 110, 103, 46]
}

/// The token that starts at `start` (a byte of `s`): its kind, the index where
/// it ends, and the line number after it.
pub open spec fn lex_at(s: Seq<u8>, start: int, line: int) -> (TokenType, int, int) {
    let c = s[start];
    let next = byte_or_nul(s, start + 1);
    if c == LEFT_PAREN {
        (TokenType::LeftParen, start + 1, line)
    } else if c == RIGHT_PAREN {
        (TokenType::RightParen, start + 1, line)
    } else if c == LEFT_BRACE {
        (TokenType::LeftBrace, start + 1, line)
    } else if c == RIGHT_BRACE {
        (TokenType::RightBrace, start + 1, line)
    } else if c == SEMICOLON {
        (TokenType::Semicolon, start + 1, line)
    } else if c == COMMA {
        (TokenType::Comma, start + 1, line)
    } else if c == DOT {
        (TokenType::Dot, start + 1, line)
    } else if c == MINUS {
        (TokenType::Minus, start + 1, line)
    } else if c == PLUS {
        (TokenType::Plus, start + 1, line)
    } else if c == SLASH {
        (TokenType::Slash, start + 1, line)
    } else if c == STAR {
        (TokenType::Star, start + 1, line)
    } else if c == BANG {
        if next == EQUAL {
            (TokenType::BangEqual, start + 2, line)
        } else {
            (TokenType::Bang, start + 1, line)
        }
    } else if c == EQUAL {
        if next == EQUAL {
            (TokenType::EqualEqual, start + 2, line)
        } else {
            (TokenType::Equal, start + 1, line)
        }
    } else if c == LESS {
        if next == EQUAL {
            (TokenType::LessEqual, start + 2, line)
        } else {
            (TokenType::Less, start + 1, line)
        }
    } else if c == GREATER {
        if next == EQUAL {
            (TokenType::GreaterEqual, start + 2, line)
        } else {
            (TokenType::Greater, start + 1, line)
        }
    } else if c == QUOTE {
        let close = find_byte(s, start + 1, QUOTE);
        let l = line + count_newlines(s, start + 1, close);
        if close >= s.len() {
            (TokenType::Error, close, l)
        } else {
            (TokenType::String, close + 1, l)
        }
    } else if spec_is_alpha(c) {
        let e = word_end(s, start + 1);
        (keyword_kind(s.subrange(start, e)), e, line)
    } else if spec_is_digit(c) {
        let e = digits_end(s, start + 1);
        if byte_or_nul(s, e) == DOT && spec_is_digit(byte_or_nul(s, e + 1)) {
            (TokenType::Number, digits_end(s, e + 1), line)
        } else {
            (TokenType::Number, e, line)
        }
    } else {
        (TokenType::Error, start + 1, line)
    }
}

/// The text of the token that `lex_at` finds at `start` and ends at `end`.
pub open spec fn lexeme_at(s: Seq<u8>, start: int, end: int, kind: TokenType) -> Seq<u8> {
    if kind == TokenType::Error {
        if s[start] == QUOTE {
            unterminated_string_msg()
        } else {
            unexpected_character_msg()
        }
    } else {
        s.subrange(start, end)
    }
}

/// One step of scanning from position `cur` on line `line`: the token found,
/// where it starts, where scanning stops after it, and the line there.
pub open spec fn next_token(s: Seq<u8>, cur: int, line: int) -> (SpecToken, int, int, int) {
    let (start, l1) = skip_trivia(s, cur, line);
    if start >= s.len() {
        (SpecToken { kind: TokenType::Eof, lexeme: Seq::empty(), line: l1 }, start, start, l1)
    } else {
        let (kind, end, l2) = lex_at(s, start, l1);
        (SpecToken { kind, lexeme: lexeme_at(s, start, end, kind), line: l2 }, start, end, l2)
    }
}

/// Blanks in front of a token do not change it: where the next byte is a
/// space, a tab or a carriage return, scanning from there gives what
/// scanning from the byte after it gives, on the same line; where it is a
/// newline, what scanning after it gives on the next line. In particular a
/// blank is never itself scanned as a token.
pub proof fn lemma_blanks_skipped(s: Seq<u8>, i: int, line: int)
    requires
        0 <= i < s.len(),
    ensures
        s[i] == 32u8 || s[i] == 9u8 || s[i] == 13u8 ==> next_token(s, i, line) == next_token(s, i + 1, line),
        s[i] == 10u8 ==> next_token(s, i, line) == next_token(s, i + 1, line + 1),
        s[i] == 32u8 || s[i] == 9u8 || s[i] == 13u8 || s[i] == 10u8 ==> next_token(s, i, line).1 > i,
{
    if s[i] == 32u8 || s[i] == 9u8 || s[i] == 13u8 || s[i] == 10u8 {
        lemma_skip_trivia(s, i + 1, if s[i] == 10u8 { line + 1 } else { line });
    }
}

/// The first newline at or after `i` is found at `j`, where the bytes in
/// between hold none and `j` is a newline or the end of the text.
proof fn lemma_find_first_newline(s: Seq<u8>, i: int, j: int)
    requires
        0 <= i <= j <= s.len(),
        forall|k: int| i <= k < j ==> s[k] != 10u8,
        j == s.len() || s[j] == 10u8,
    ensures
        find_byte(s, i, NEWLINE) == j,
    decreases j - i,
{
    if i < j {
        lemma_find_first_newline(s, i + 1, j);
    }
}

/// A comment runs from `//` to the end of its line: scanning in front of it
/// gives what scanning from the newline that ends it (or the end of the
/// text) gives, on the same line.
pub proof fn lemma_comment_skipped(s: Seq<u8>, i: int, j: int, line: int)
    requires
        0 <= i,
        i + 1 < j <= s.len(),
        s[i] == 47u8,
        s[i + 1] == 47u8,
        forall|k: int| i + 1 < k < j ==> s[k] != 10u8,
        j == s.len() || s[j] == 10u8,
    ensures
        next_token(s, i, line) == next_token(s, j, line),
{
    lemma_find_first_newline(s, i + 1, j);
}

/// Each operator character is scanned as its operator, starting where it
/// stands: `+`, `-`, `*` alone, `/` where no second `/` follows, and `!`,
/// `=`, `<`, `>` together with a following `=` as one two-byte token, or
/// alone where no `=` follows.
pub proof fn lemma_operators_scanned(s: Seq<u8>, i: int, line: int)
    requires
        0 <= i < s.len(),
    ensures
        ({
            let (t, start, end, l) = next_token(s, i, line);
            let eq_next = i + 1 < s.len() && s[i + 1] == 61u8;
            &&& s[i] == 43u8 ==> t.kind == TokenType::Plus && start == i && end == i + 1
            &&& s[i] == 45u8 ==> t.kind == TokenType::Minus && start == i && end == i + 1
            &&& s[i] == 42u8 ==> t.kind == TokenType::Star && start == i && end == i + 1
            &&& s[i] == 47u8 && !(i + 1 < s.len() && s[i + 1] == 47u8) ==> t.kind == TokenType::Slash && start == i
                && end == i + 1
            &&& s[i] == 33u8 ==> if eq_next {
                t.kind == TokenType::BangEqual && start == i && end == i + 2
            } else {
                t.kind == TokenType::Bang && start == i && end == i + 1
            }
            &&& s[i] == 61u8 ==> if eq_next {
                t.kind == TokenType::EqualEqual && start == i && end == i + 2
            } else {
                t.kind == TokenType::Equal && start == i && end == i + 1
            }
            &&& s[i] == 60u8 ==> if eq_next {
                t.kind == TokenType::LessEqual && start == i && end == i + 2
            } else {
                t.kind == TokenType::Less && start == i && end == i + 1
            }
            &&& s[i] == 62u8 ==> if eq_next {
                t.kind == TokenType::GreaterEqual && start == i && end == i + 2
            } else {
                t.kind == TokenType::Greater && start == i && end == i + 1
            }
        }),
{
}

/// At the end of the text, scanning gives `Eof` and leaves the position and
/// the line where they are, however often it is repeated.
pub proof fn lemma_eof_repeats(s: Seq<u8>, line: int)
    ensures
        ({
            let (t, start, end, l) = next_token(s, s.len() as int, line);
            &&& t.kind == TokenType::Eof
            &&& t.lexeme.len() == 0
            &&& start == s.len()
            &&& end == s.len()
            &&& l == line
            &&& t.line == line
        }),
{
}

/// Newlines in `s[a..c]` are those in `s[a..b]` and those in `s[b..c]`.
pub proof fn lemma_count_newlines_split(s: Seq<u8>, a: int, b: int, c: int)
    requires
        a <= b <= c,
    ensures
        count_newlines(s, a, c) == count_newlines(s, a, b) + count_newlines(s, b, c),
    decreases c - b,
{
    if b < c {
        lemma_count_newlines_split(s, a, b, c - 1);
    }
}

/// A stretch of `s` without newlines counts none.
pub proof fn lemma_count_newlines_none(s: Seq<u8>, a: int, b: int)
    requires
        forall|j: int| a <= j < b ==> byte_or_nul(s, j) != NEWLINE,
    ensures
        count_newlines(s, a, b) == 0,
    decreases b - a,
{
    if a < b {
        lemma_count_newlines_none(s, a, b - 1);
    }
}

/// Skipping blanks and comments moves the line on by the newlines skipped.
pub proof fn lemma_skip_trivia_lines(s: Seq<u8>, i: int, line: int)
    requires
        0 <= i <= s.len(),
    ensures
        skip_trivia(s, i, line).1 == line + count_newlines(s, i, skip_trivia(s, i, line).0),
    decreases s.len() - i,
{
    lemma_skip_trivia(s, i, line);
    if i < s.len() {
        if s[i] == SPACE || s[i] == CARRIAGE_RETURN || s[i] == TAB {
            lemma_skip_trivia_lines(s, i + 1, line);
            lemma_skip_trivia(s, i + 1, line);
            lemma_count_newlines_split(s, i, i + 1, skip_trivia(s, i + 1, line).0);
            lemma_count_newlines_step(s, i, i);
        } else if s[i] == NEWLINE {
            lemma_skip_trivia_lines(s, i + 1, line + 1);
            lemma_skip_trivia(s, i + 1, line + 1);
            lemma_count_newlines_split(s, i, i + 1, skip_trivia(s, i + 1, line + 1).0);
            lemma_count_newlines_step(s, i, i);
        } else if s[i] == SLASH && byte_or_nul(s, i + 1) == SLASH {
            let f = find_byte(s, i + 1, NEWLINE);
            lemma_find_byte(s, i + 1, NEWLINE);
            lemma_skip_trivia_lines(s, f, line);
            lemma_skip_trivia(s, f, line);
            assert forall|j: int| i <= j < f implies byte_or_nul(s, j) != NEWLINE by {
                if j > i {
                    assert(s[j] != NEWLINE);
                }
            }
            lemma_count_newlines_none(s, i, f);
            lemma_count_newlines_split(s, i, f, skip_trivia(s, f, line).0);
        }
    }
}

/// The token found at `start` moves the line on by the newlines inside it.
pub proof fn lemma_lex_at_lines(s: Seq<u8>, start: int, line: int)
    requires
        0 <= start < s.len(),
        s[start] != NEWLINE,
    ensures
        lex_at(s, start, line).2 == line + count_newlines(s, start, lex_at(s, start, line).1),
{
    lemma_lex_at(s, start, line);
    let c = s[start];
    let end = lex_at(s, start, line).1;
    if c == QUOTE {
        let close = find_byte(s, start + 1, QUOTE);
        lemma_find_byte(s, start + 1, QUOTE);
        lemma_count_newlines_split(s, start, start + 1, close);
        lemma_count_newlines_step(s, start, start);
        if close < s.len() {
            lemma_count_newlines_split(s, start + 1, close, close + 1);
            lemma_count_newlines_step(s, close, close);
            lemma_count_newlines_split(s, start, start + 1, close + 1);
        }
    } else if spec_is_alpha(c) {
        lemma_word_end(s, start + 1);
        assert forall|j: int| start <= j < end implies byte_or_nul(s, j) != NEWLINE by {
            if j > start {
                lemma_word_chars(s, start + 1, j);
            }
        }
        lemma_count_newlines_none(s, start, end);
    } else if spec_is_digit(c) {
        let e = digits_end(s, start + 1);
        lemma_digits_end(s, start + 1);
        if byte_or_nul(s, e) == DOT && spec_is_digit(byte_or_nul(s, e + 1)) {
            lemma_digits_end(s, e + 1);
        }
        assert forall|j: int| start <= j < end implies byte_or_nul(s, j) != NEWLINE by {
            if start < j < e {
                assert(spec_is_digit(s[j]));
            } else if j > e {
                assert(spec_is_digit(s[j]));
            }
        }
        lemma_count_newlines_none(s, start, end);
    } else {
        assert forall|j: int| start <= j < end implies byte_or_nul(s, j) != NEWLINE by {}
        lemma_count_newlines_none(s, start, end);
    }
}

/// Every byte from `i` up to where a word ends is a letter, `_` or digit.
pub proof fn lemma_word_chars(s: Seq<u8>, i: int, j: int)
    requires
        0 <= i <= j < word_end(s, i),
        word_end(s, i) <= s.len(),
    ensures
        spec_is_alpha(s[j]) || spec_is_digit(s[j]),
    decreases j - i,
{
    if i < j {
        lemma_word_chars(s, i + 1, j);
    }
}

/// The line that one step of scanning reaches is the line it started on
/// plus the newlines it passed.
pub proof fn lemma_next_token_lines(s: Seq<u8>, cur: int, line: int)
    requires
        0 <= cur <= s.len(),
    ensures
        next_token(s, cur, line).3 == line + count_newlines(s, cur, next_token(s, cur, line).2),
{
    lemma_skip_trivia_lines(s, cur, line);
    lemma_skip_trivia(s, cur, line);
    let (start, l1) = skip_trivia(s, cur, line);
    if start < s.len() {
        lemma_skip_trivia_stops(s, cur, line);
        lemma_lex_at_lines(s, start, l1);
        lemma_lex_at(s, start, l1);
        lemma_count_newlines_split(s, cur, start, lex_at(s, start, l1).1);
    }
}

/// Where skipping stops inside the text, there is no newline.
pub proof fn lemma_skip_trivia_stops(s: Seq<u8>, i: int, line: int)
    requires
        0 <= i <= s.len(),
        skip_trivia(s, i, line).0 < s.len(),
    ensures
        s[skip_trivia(s, i, line).0] != NEWLINE,
    decreases s.len() - i,
{
    if i < s.len() {
        if s[i] == SPACE || s[i] == CARRIAGE_RETURN || s[i] == TAB {
            lemma_skip_trivia_stops(s, i + 1, line);
        } else if s[i] == NEWLINE {
            lemma_skip_trivia_stops(s, i + 1, line + 1);
        } else if s[i] == SLASH && byte_or_nul(s, i + 1) == SLASH {
            lemma_find_byte(s, i + 1, NEWLINE);
            lemma_skip_trivia_stops(s, find_byte(s, i + 1, NEWLINE), line);
        }
    }
}

pub struct Scanner<'src> {
    pub src: &'src str,
    pub start: usize,
    pub current: usize,
    pub line: usize,
}

pub proof fn lemma_count_newlines_step(s: Seq<u8>, a: int, b: int)
    requires
        a <= b,
    ensures
        count_newlines(s, a, b + 1) == count_newlines(s, a, b) + if byte_or_nul(s, b)
            == NEWLINE {
            1int
        } else {
            0int
        },
{
}

pub proof fn lemma_count_newlines_bound(s: Seq<u8>, a: int, b: int)
    requires
        a <= b,
    ensures
        0 <= count_newlines(s, a, b) <= b - a,
    decreases b - a,
{
    if a < b {
        lemma_count_newlines_bound(s, a, b - 1);
    }
}

pub proof fn lemma_skip_trivia(s: Seq<u8>, i: int, line: int)
    requires
        0 <= i <= s.len(),
    ensures
        i <= skip_trivia(s, i, line).0 <= s.len(),
        line <= skip_trivia(s, i, line).1 <= line + (skip_trivia(s, i, line).0 - i),
    decreases s.len() - i,
{
    if i < s.len() {
        if s[i] == SPACE || s[i] == CARRIAGE_RETURN || s[i] == TAB {
            lemma_skip_trivia(s, i + 1, line);
        } else if s[i] == NEWLINE {
            lemma_skip_trivia(s, i + 1, line + 1);
        } else if s[i] == SLASH && byte_or_nul(s, i + 1) == SLASH {
            lemma_find_byte(s, i + 1, NEWLINE);
            lemma_skip_trivia(s, find_byte(s, i + 1, NEWLINE), line);
        }
    }
}

/// Where `lex_at` stops lies past `start` and within the text, and the line
/// grows by at most the number of bytes passed.
pub proof fn lemma_lex_at(s: Seq<u8>, start: int, line: int)
    requires
        0 <= start < s.len(),
    ensures
        start < lex_at(s, start, line).1 <= s.len(),
        line <= lex_at(s, start, line).2 <= line + (lex_at(s, start, line).1 - start),
{
    let c = s[start];
    if c == QUOTE {
        lemma_find_byte(s, start + 1, QUOTE);
        let close = find_byte(s, start + 1, QUOTE);
        lemma_count_newlines_bound(s, start + 1, close);
    } else if spec_is_alpha(c) {
        lemma_word_end(s, start + 1);
    } else if spec_is_digit(c) {
        lemma_digits_end(s, start + 1);
        let e = digits_end(s, start + 1);
        if byte_or_nul(s, e) == DOT && spec_is_digit(byte_or_nul(s, e + 1)) {
            lemma_digits_end(s, e + 1);
        }
    }
}

/// Where one step of scanning leaves the position: never before it, past it
/// unless at the end, and at the end exactly when the token is `Eof`.
pub proof fn lemma_next_token(s: Seq<u8>, cur: int, line: int)
    requires
        0 <= cur <= s.len(),
    ensures
        ({
            let (t, start, end, l) = next_token(s, cur, line);
            &&& cur <= start <= end <= s.len()
            &&& (t.kind == TokenType::Eof <==> start == s.len())
            &&& t.kind == TokenType::Eof ==> end == s.len()
            &&& t.kind != TokenType::Eof ==> cur < end
            &&& line <= l <= line + (end - cur)
            &&& t.kind == TokenType::String ==> t.lexeme.len() >= 2
        }),
{
    lemma_skip_trivia(s, cur, line);
    let (start, l1) = skip_trivia(s, cur, line);
    if start < s.len() {
        lemma_lex_at(s, start, l1);
        if s[start] == QUOTE {
            lemma_find_byte(s, start + 1, QUOTE);
        }
    }
}

impl<'src> Scanner<'src> {
    /// The bytes of the source text.
    pub open spec fn text(&self) -> Seq<u8> {
        self.src.spec_bytes()
    }

    /// The positions and line count that the scanner keeps consistent.
    pub open spec fn wf(&self) -> bool {
        &&& self.text().len() < usize::MAX
        &&& self.start <= self.current <= self.text().len()
        &&& 1 <= self.line <= self.current + 1
    }

    pub fn new(src: &'src str) -> (s: Self)
        requires
            src.spec_bytes().len() < usize::MAX,
        ensures
            s.wf(),
            s.src == src,
            s.start == 0,
            s.current == 0,
            s.line == 1,
            s.line == 1 + count_newlines(s.text(), 0, s.current as int),
    {
        Self { src: src, start: 0, current: 0, line: 1 }
    }

    /// Scans the next token: skips blanks and comments (counting newlines),
    /// then reads one token, or returns `Eof` at the end of the text.
    pub fn scan(&mut self) -> (t: Token<'src>)
        requires
            old(self).wf(),
        ensures
            final(self).wf(),
            final(self).src == old(self).src,
            (t@, final(self).start as int, final(self).current as int, final(self).line as int)
                == next_token(old(self).text(), old(self).current as int, old(self).line as int),
            old(self).line == 1 + count_newlines(old(self).text(), 0, old(self).current as int) ==> final(self).line
                == 1 + count_newlines(final(self).text(), 0, final(self).current as int),
    {
        proof {
            let s = old(self).text();
            let cur = old(self).current as int;
            lemma_next_token(s, cur, old(self).line as int);
            lemma_next_token_lines(s, cur, old(self).line as int);
            lemma_count_newlines_split(s, 0, cur, next_token(s, cur, old(self).line as int).2);
        }
        self.skip_whitespace();
        self.start = self.current;
        if self.is_at_end() {
            let t = self.make_token(TokenType::Eof);
            assert(t.lexeme@ =~= Seq::<u8>::empty());
            return t;
        }
        let ghost s = self.text();
        let ghost start = self.start as int;
        let ghost l1 = self.line as int;
        proof {
            lemma_lex_at(s, start, l1);
        }
        let c = self.advance();
        if c == LEFT_PAREN {
            self.make_token(TokenType::LeftParen)
        } else if c == RIGHT_PAREN {
            self.make_token(TokenType::RightParen)
        } else if c == LEFT_BRACE {
            self.make_token(TokenType::LeftBrace)
        } else if c == RIGHT_BRACE {
            self.make_token(TokenType::RightBrace)
        } else if c == SEMICOLON {
            self.make_token(TokenType::Semicolon)
        } else if c == COMMA {
            self.make_token(TokenType::Comma)
        } else if c == DOT {
            self.make_token(TokenType::Dot)
        } else if c == MINUS {
            self.make_token(TokenType::Minus)
        } else if c == PLUS {
            self.make_token(TokenType::Plus)
        } else if c == SLASH {
            self.make_token(TokenType::Slash)
        } else if c == STAR {
            self.make_token(TokenType::Star)
        } else if c == BANG {
            if self.match_token(EQUAL) {
                self.make_token(TokenType::BangEqual)
            } else {
                self.make_token(TokenType::Bang)
            }
        } else if c == EQUAL {
            if self.match_token(EQUAL) {
                self.make_token(TokenType::EqualEqual)
            } else {
                self.make_token(TokenType::Equal)
            }
        } else if c == LESS {
            if self.match_token(EQUAL) {
                self.make_token(TokenType::LessEqual)
            } else {
                self.make_token(TokenType::Less)
            }
        } else if c == GREATER {
            if self.match_token(EQUAL) {
                self.make_token(TokenType::GreaterEqual)
            } else {
                self.make_token(TokenType::Greater)
            }
        } else if c == QUOTE {
            self.string()
        } else if is_alpha(c) {
            self.identifier()
        } else if is_digit(c) {
            self.number()
        } else {
            let msg = "Unexpected character.";
            proof {
                reveal_strlit("Unexpected character.");
                vstd::string::is_ascii_spec_bytes(msg);
                assert(msg.spec_bytes() =~= unexpected_character_msg());
            }
            self.error_token(msg)
        }
    }

    fn match_token(&mut self, expected: u8) -> (r: bool)
        requires
            old(self).wf(),
        ensures
            final(self).wf(),
            final(self).src == old(self).src,
            final(self).start == old(self).start,
            final(self).line == old(self).line,
            r == (byte_or_nul(old(self).text(), old(self).current as int) == expected
                && old(self).current < old(self).text().len()),
            final(self).current == old(self).current + if r {
                1int
            } else {
                0int
            },
    {
        if self.is_at_end() {
            return false;
        }
        if self.src.as_bytes()[self.current] != expected {
            return false;
        }
        self.current += 1;
        true
    }

    fn peek(&self) -> (c: u8)
        requires
            self.wf(),
        ensures
            c == byte_or_nul(self.text(), self.current as int),
    {
        if self.is_at_end() {
            NUL
        } else {
            self.src.as_bytes()[self.current]
        }
    }

    fn peek_next(&self) -> (c: u8)
        requires
            self.wf(),
        ensures
            c == byte_or_nul(self.text(), self.current + 1),
    {
        if self.current + 1 >= self.src.len() {
            NUL
        } else {
            self.src.as_bytes()[self.current + 1]
        }
    }

    fn advance(&mut self) -> (c: u8)
        requires
            old(self).text().len() < usize::MAX,
            old(self).start <= old(self).current < old(self).text().len(),
            1 <= old(self).line <= old(self).current + 2,
        ensures
            final(self).wf(),
            final(self).src == old(self).src,
            final(self).start == old(self).start,
            final(self).line == old(self).line,
            final(self).current == old(self).current + 1,
            c == old(self).text()[old(self).current as int],
    {
        let char = self.src.as_bytes()[self.current];
        self.current += 1;
        char
    }

    fn is_at_end(&self) -> (r: bool)
        requires
            self.current <= self.text().len() < usize::MAX,
        ensures
            r == (self.current == self.text().len()),
    {
        self.current == self.src.len()
    }

    fn skip_whitespace(&mut self)
        requires
            old(self).wf(),
        ensures
            final(self).wf(),
            final(self).src == old(self).src,
            final(self).start == old(self).start,
            (final(self).current as int, final(self).line as int) == skip_trivia(
                old(self).text(),
                old(self).current as int,
                old(self).line as int,
            ),
    {
        let ghost s = self.text();
        let ghost target = skip_trivia(s, self.current as int, self.line as int);
        loop
            invariant_except_break
                self.wf(),
                self.src == old(self).src,
                self.start == old(self).start,
                s == self.text(),
                skip_trivia(s, self.current as int, self.line as int) == target,
            ensures
                self.wf(),
                self.src == old(self).src,
                self.start == old(self).start,
                (self.current as int, self.line as int) == target,
            decreases s.len() - self.current,
        {
            let c = self.peek();
            if c == SPACE || c == CARRIAGE_RETURN || c == TAB {
                self.advance();
            } else if c == NEWLINE {
                self.line += 1;
                self.advance();
            } else if c == SLASH && self.peek_next() == SLASH {
                let ghost from = self.current as int;
                proof {
                    lemma_find_byte(s, from + 1, NEWLINE);
                }
                while self.peek() != NEWLINE && !self.is_at_end()
                    invariant
                        self.wf(),
                        self.src == old(self).src,
                        self.start == old(self).start,
                        s == self.text(),
                        from <= self.current <= find_byte(s, from + 1, NEWLINE),
                        0 <= from < s.len(),
                        skip_trivia(s, from, self.line as int) == target,
                        s[from] == SLASH,
                        byte_or_nul(s, from + 1) == SLASH,
                    decreases s.len() - self.current,
                {
                    proof {
                        lemma_find_byte(s, from + 1, NEWLINE);
                    }
                    self.advance();
                }
                proof {
                    if self.current == from {
                        assert(s[from] == SLASH);
                    }
                    assert(self.current == find_byte(s, from + 1, NEWLINE));
                }
            } else {
                break;
            }
        }
    }

    fn string(&mut self) -> (t: Token<'src>)
        requires
            old(self).wf(),
            old(self).current == old(self).start + 1,
            old(self).text()[old(self).start as int] == QUOTE,
        ensures
            final(self).wf(),
            final(self).src == old(self).src,
            final(self).start == old(self).start,
            ({
                let (kind, end, line) = lex_at(
                    old(self).text(),
                    old(self).start as int,
                    old(self).line as int,
                );
                &&& t@ == SpecToken {
                    kind,
                    lexeme: lexeme_at(old(self).text(), old(self).start as int, end, kind),
                    line,
                }
                &&& final(self).current == end
                &&& final(self).line == line
            }),
    {
        let ghost s = self.text();
        let ghost from = self.current as int;
        let ghost line0 = self.line as int;
        proof {
            lemma_find_byte(s, from, QUOTE);
        }
        while self.peek() != QUOTE && !self.is_at_end()
            invariant
                self.wf(),
                self.src == old(self).src,
                self.start == old(self).start,
                s == self.text(),
                from <= self.current <= find_byte(s, from, QUOTE),
                self.line == line0 + count_newlines(s, from, self.current as int),
            decreases s.len() - self.current,
        {
            proof {
                lemma_find_byte(s, from, QUOTE);
                lemma_count_newlines_step(s, from, self.current as int);
                lemma_count_newlines_bound(s, from, self.current as int);
            }
            if self.peek() == NEWLINE {
                self.line += 1;
            }
            self.advance();
        }
        if self.is_at_end() {
            let msg = "Unterminated string.";
            proof {
                reveal_strlit("Unterminated string.");
                vstd::string::is_ascii_spec_bytes(msg);
                assert(msg.spec_bytes() =~= unterminated_string_msg());
            }
            return self.error_token(msg);
        }
        self.advance();
        self.make_token(TokenType::String)
    }

    fn number(&mut self) -> (t: Token<'src>)
        requires
            old(self).wf(),
            old(self).current == old(self).start + 1,
            spec_is_digit(old(self).text()[old(self).start as int]),
        ensures
            final(self).wf(),
            final(self).src == old(self).src,
            final(self).start == old(self).start,
            ({
                let (kind, end, line) = lex_at(
                    old(self).text(),
                    old(self).start as int,
                    old(self).line as int,
                );
                &&& t@ == SpecToken {
                    kind,
                    lexeme: lexeme_at(old(self).text(), old(self).start as int, end, kind),
                    line,
                }
                &&& final(self).current == end
                &&& final(self).line == line
            }),
    {
        let ghost s = self.text();
        let ghost from = self.current as int;
        proof {
            lemma_digits_end(s, from);
        }
        while is_digit(self.peek())
            invariant
                self.wf(),
                self.src == old(self).src,
                self.start == old(self).start,
                self.line == old(self).line,
                s == self.text(),
                from <= self.current <= digits_end(s, from),
                digits_end(s, self.current as int) == digits_end(s, from),
            decreases s.len() - self.current,
        {
            proof {
                lemma_digits_end(s, self.current + 1);
            }
            self.advance();
        }
        let ghost e = self.current as int;
        if self.peek() == DOT && is_digit(self.peek_next()) {
            self.advance();
            proof {
                lemma_digits_end(s, e + 1);
            }
            while is_digit(self.peek())
                invariant
                    self.wf(),
                    self.src == old(self).src,
                    self.start == old(self).start,
                    self.line == old(self).line,
                    s == self.text(),
                    e + 1 <= self.current <= digits_end(s, e + 1),
                    digits_end(s, self.current as int) == digits_end(s, e + 1),
                decreases s.len() - self.current,
            {
                proof {
                    lemma_digits_end(s, self.current + 1);
                }
                self.advance();
            }
        }
        self.make_token(TokenType::Number)
    }

    fn identifier(&mut self) -> (t: Token<'src>)
        requires
            old(self).wf(),
            old(self).current == old(self).start + 1,
            spec_is_alpha(old(self).text()[old(self).start as int]),
        ensures
            final(self).wf(),
            final(self).src == old(self).src,
            final(self).start == old(self).start,
            ({
                let (kind, end, line) = lex_at(
                    old(self).text(),
                    old(self).start as int,
                    old(self).line as int,
                );
                &&& t@ == SpecToken {
                    kind,
                    lexeme: lexeme_at(old(self).text(), old(self).start as int, end, kind),
                    line,
                }
                &&& final(self).current == end
                &&& final(self).line == line
            }),
    {
        let ghost s = self.text();
        let ghost from = self.current as int;
        proof {
            lemma_word_end(s, from);
        }
        while is_alpha(self.peek()) || is_digit(self.peek())
            invariant
                self.wf(),
                self.src == old(self).src,
                self.start == old(self).start,
                self.line == old(self).line,
                s == self.text(),
                from <= self.current <= word_end(s, from),
                word_end(s, self.current as int) == word_end(s, from),
            decreases s.len() - self.current,
        {
            proof {
                lemma_word_end(s, self.current + 1);
            }
            self.advance();
        }
        let kind = self.ident_type();
        self.make_token(kind)
    }

    fn ident_type(&self) -> (kind: TokenType)
        requires
            self.wf(),
        ensures
            kind == keyword_kind(self.text().subrange(self.start as int, self.current as int)),
    {
        let w = self.lexeme();
        if bytes_eq(w, &[97u8, 110, 100]) {
            TokenType::And
        } else if bytes_eq(w, &[99u8, 108, 97, 115, 115]) {
            TokenType::Class
        } else if bytes_eq(w, &[101u8, 108, 115, 101]) {
            TokenType::Else
        } else if bytes_eq(w, &[102u8, 97, 108, 115, 101]) {
            TokenType::False
        } else if bytes_eq(w, &[102u8, 111, 114]) {
            TokenType::For
        } else if bytes_eq(w, &[102u8, 117, 110]) {
            TokenType::Fun
        } else if bytes_eq(w, &[105u8, 102]) {
            TokenType::If
        } else if bytes_eq(w, &[110u8, 105, 108]) {
            TokenType::Nil
        } else if bytes_eq(w, &[111u8, 114]) {
            TokenType::Or
        } else if bytes_eq(w, &[112u8, 114, 105, 110, 116]) {
            TokenType::Print
        } else if bytes_eq(w, &[114u8, 101, 116, 117, 114, 110]) {
            TokenType::Return
        } else if bytes_eq(w, &[115u8, 117, 112, 101, 114]) {
            TokenType::Super
        } else if bytes_eq(w, &[116u8, 104, 105, 115]) {
            TokenType::This
        } else if bytes_eq(w, &[116u8, 114, 117, 101]) {
            TokenType::True
        } else if bytes_eq(w, &[118u8, 97, 114]) {
            TokenType::Var
        } else if bytes_eq(w, &[119u8, 104, 105, 108, 101]) {
            TokenType::While
        } else {
            TokenType::Identifier
        }
    }

    fn lexeme(&self) -> (w: &'src [u8])
        requires
            self.wf(),
        ensures
            w@ == self.text().subrange(self.start as int, self.current as int),
    {
        &self.src.as_bytes()[self.start..self.current]
    }

    fn make_token(&self, kind: TokenType) -> (t: Token<'src>)
        requires
            self.wf(),
        ensures
            t.kind == kind,
            t.lexeme@ == self.text().subrange(self.start as int, self.current as int),
            t.line == self.line,
    {
        Token { kind, lexeme: self.lexeme(), line: self.line }
    }

    fn error_token(&self, msg: &'src str) -> (t: Token<'src>)
        ensures
            t.kind == TokenType::Error,
            t.lexeme@ == msg.spec_bytes(),
            t.line == self.line,
    {
        Token { kind: TokenType::Error, lexeme: msg.as_bytes(), line: self.line }
    }
}

/// The texts of the number tokens that scanning from `cur` on line `line`
/// meets, in order, up to the end of the text.
pub open spec fn number_lexemes(s: Seq<u8>, cur: int, line: int) -> Seq<Seq<u8>>
    decreases s.len() - cur,
{
    if cur < 0 || cur > s.len() {
        Seq::empty()
    } else {
        let (t, start, end, l) = next_token(s, cur, line);
        if t.kind == TokenType::Eof {
            Seq::empty()
        } else {
            proof {
                lemma_next_token(s, cur, line);
            }
            let rest = number_lexemes(s, end, l);
            if t.kind == TokenType::Number {
                seq![t.lexeme] + rest
            } else {
                rest
            }
        }
    }
}

/// The texts of the number literals of `src`, in the order in which the
/// scanner meets them.
pub fn number_literals<'a>(src: &'a str) -> (r: Vec<&'a [u8]>)
    requires
        src.spec_bytes().len() < usize::MAX,
    ensures
        r@.map_values(|b: &[u8]| b@) == number_lexemes(src.spec_bytes(), 0, 1),
{
    let mut scanner = Scanner::new(src);
    let mut out: Vec<&'a [u8]> = Vec::new();
    let ghost s = src.spec_bytes();
    loop
        invariant
            scanner.wf(),
            scanner.src == src,
            s == scanner.text(),
            out@.map_values(|b: &[u8]| b@) + number_lexemes(s, scanner.current as int, scanner.line as int)
                == number_lexemes(s, 0, 1),
        decreases s.len() - scanner.current,
    {
        let ghost cur = scanner.current as int;
        let ghost line = scanner.line as int;
        proof {
            lemma_next_token(s, cur, line);
        }
        let t = scanner.scan();
        if t.kind == TokenType::Eof {
            assert(out@.map_values(|b: &[u8]| b@) =~= out@.map_values(|b: &[u8]| b@) + number_lexemes(s, cur, line));
            return out;
        }
        let ghost before = out@;
        if t.kind == TokenType::Number {
            out.push(t.lexeme);
            assert(out@.map_values(|b: &[u8]| b@) =~= before.map_values(|b: &[u8]| b@).push(t.lexeme@));
        }
        assert(number_lexemes(s, cur, line) == if t.kind == TokenType::Number {
            seq![t.lexeme@] + number_lexemes(s, scanner.current as int, scanner.line as int)
        } else {
            number_lexemes(s, scanner.current as int, scanner.line as int)
        });
        assert(out@.map_values(|b: &[u8]| b@) + number_lexemes(s, scanner.current as int, scanner.line as int)
            =~= before.map_values(|b: &[u8]| b@) + number_lexemes(s, cur, line));
    }
}

/// Whether two byte strings are equal.
pub fn bytes_eq(a: &[u8], b: &[u8]) -> (r: bool)
    ensures
        r == (a@ == b@),
{
    if a.len() != b.len() {
        return false;
    }
    let mut i: usize = 0;
    while i < a.len()
        invariant
            a.len() == b.len(),
            i <= a.len(),
            forall|j: int| 0 <= j < i ==> a@[j] == b@[j],
        decreases a.len() - i,
    {
        if a[i] != b[i] {
            return false;
        }
        i += 1;
    }
    assert(a@ =~= b@);
    true
}

pub fn is_digit(ch: u8) -> (r: bool)
    ensures
        r == spec_is_digit(ch),
{
    ch >= DIGIT_ZERO && ch <= DIGIT_NINE
}

pub fn is_alpha(ch: u8) -> (r: bool)
    ensures
        r == spec_is_alpha(ch),
{
    ch >= LOWER_A && ch <= LOWER_Z || ch >= UPPER_A && ch <= UPPER_Z || ch == UNDERSCORE
}

} // verus!
