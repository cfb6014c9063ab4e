//! The lexer: turns source text into tokens whose spans are byte offsets.
//!
//! The meaning of the lexer is `lex_from`, a function of the source
//! characters that applies, at each position, the first rule that fits:
//! whitespace, comment, bracket or comma, number, string, character,
//! symbol or keyword, and otherwise an "Unknown token" error.
use vstd::prelude::*;
use vstd::utf8::*;
use crate::text::{byte_pos, char_width, string_push, utf8_width, lemma_byte_pos_step, lemma_byte_pos_mono, chars_of};

verus! {

/// The kind of a token, with its payload.
///
/// A decimal literal with a fractional part keeps its source text.
#[derive(Debug, Clone)]
pub enum TokenKind {
    String(String),
    Char(char),
    Number(String),
    Int(i32),
    LParen,
    RParen,
    LCurly,
    RCurly,
    LSquare,
    RSquare,
    Comma,
    KwIf,
    KwElse,
    KwLoop,
    KwBreak,
    KwWith,
    Bool(bool),
    Symbol(String),
    Error(String),
}

/// A range of byte offsets into the source, `start` included, `end` excluded.
#[derive(Debug, Clone, Copy, PartialEq, Eq, Structural)]
pub struct Span {
    pub start: usize,
    pub end: usize,
}

#[derive(Debug, Clone)]
pub struct Token {
    pub kind: TokenKind,
    pub pos: Span,
}

/// Mathematical token kinds: strings as character sequences, integer
/// literals as mathematical integers (which may lie outside `i32`).
pub enum SpecTokenKind {
    String(Seq<char>),
    Char(char),
    Number(Seq<char>),
    Int(int),
    LParen,
    RParen,
    LCurly,
    RCurly,
    LSquare,
    RSquare,
    Comma,
    KwIf,
    KwElse,
    KwLoop,
    KwBreak,
    KwWith,
    Bool(bool),
    Symbol(Seq<char>),
    Error(Seq<char>),
}

pub struct SpecToken {
    pub kind: SpecTokenKind,
    pub start: nat,
    pub end: nat,
}

impl View for TokenKind {
    type V = SpecTokenKind;

    open spec fn view(&self) -> SpecTokenKind {
        match self {
            TokenKind::String(s) => SpecTokenKind::String(s@),
            TokenKind::Char(c) => SpecTokenKind::Char(*c),
            TokenKind::Number(s) => SpecTokenKind::Number(s@),
            TokenKind::Int(n) => SpecTokenKind::Int(*n as int),
            TokenKind::LParen => SpecTokenKind::LParen,
            TokenKind::RParen => SpecTokenKind::RParen,
            TokenKind::LCurly => SpecTokenKind::LCurly,
            TokenKind::RCurly => SpecTokenKind::RCurly,
            TokenKind::LSquare => SpecTokenKind::LSquare,
            TokenKind::RSquare => SpecTokenKind::RSquare,
            TokenKind::Comma => SpecTokenKind::Comma,
            TokenKind::KwIf => SpecTokenKind::KwIf,
            TokenKind::KwElse => SpecTokenKind::KwElse,
            TokenKind::KwLoop => SpecTokenKind::KwLoop,
            TokenKind::KwBreak => SpecTokenKind::KwBreak,
            TokenKind::KwWith => SpecTokenKind::KwWith,
            TokenKind::Bool(b) => SpecTokenKind::Bool(*b),
            TokenKind::Symbol(s) => SpecTokenKind::Symbol(s@),
            TokenKind::Error(s) => SpecTokenKind::Error(s@),
        }
    }
}

impl View for Token {
    type V = SpecToken;

    open spec fn view(&self) -> SpecToken {
        SpecToken { kind: self.kind@, start: self.pos.start as nat, end: self.pos.end as nat }
    }
}

pub open spec fn tokens_view(ts: Seq<Token>) -> Seq<SpecToken> {
    ts.map_values(|t: Token| t@)
}

// ---------------------------------------------------------------------------
// Character classes
// ---------------------------------------------------------------------------

/// What `char::is_alphanumeric` answers for `c` (Unicode `Alphabetic` or `Numeric`).
pub uninterp spec fn char_is_alphanumeric(c: char) -> bool;

/// `char::is_whitespace`. Claimed: the result is whether `c` has the Unicode
/// `White_Space` property, which is `spec_is_whitespace`.
#[verifier::external_body]
fn is_whitespace(c: char) -> (r: bool)
    ensures
        r == spec_is_whitespace(c),
{
    c.is_whitespace()
}

/// `char::is_alphanumeric`. Claimed: the result is the named property of `c`,
/// and on ASCII it holds exactly of letters and decimal digits.
#[verifier::external_body]
fn is_alphanumeric(c: char) -> (r: bool)
    ensures
        r == char_is_alphanumeric(c),
        (c as u32) < 128 ==> (r <==> (is_digit(c) || ('a' as u32 <= (c as u32) <= 'z' as u32)
            || ('A' as u32 <= (c as u32) <= 'Z' as u32))),
{
    c.is_alphanumeric()
}

/// The characters with the Unicode `White_Space` property: U+0009 to
/// U+000D, space, U+0085, U+00A0, U+1680, U+2000 to U+200A, U+2028, U+2029,
/// U+202F, U+205F and U+3000.
pub open spec fn spec_is_whitespace(c: char) -> bool {
    let u = c as u32;
    (0x9 <= u <= 0xd) || u == 0x20 || u == 0x85 || u == 0xa0 || u == 0x1680 || (0x2000 <= u
        <= 0x200a) || u == 0x2028 || u == 0x2029 || u == 0x202f || u == 0x205f || u == 0x3000
}

/// Alphanumeric: on ASCII, letters and digits; elsewhere what
/// `char::is_alphanumeric` answers.
pub open spec fn spec_is_alphanumeric(c: char) -> bool {
    if (c as u32) < 128 {
        is_digit(c) || ('a' as u32 <= (c as u32) <= 'z' as u32) || ('A' as u32 <= (c as u32)
            <= 'Z' as u32)
    } else {
        char_is_alphanumeric(c)
    }
}

pub open spec fn is_digit(c: char) -> bool {
    '0' as u32 <= (c as u32) <= '9' as u32
}

pub open spec fn is_ascii_punct(c: char) -> bool {
    let u = c as u32;
    (33 <= u <= 47) || (58 <= u <= 64) || (91 <= u <= 96) || (123 <= u <= 126)
}

pub open spec fn is_delimiter(c: char) -> bool {
    c == '"' || c == '(' || c == ')' || c == '{' || c == '}' || c == '[' || c == ']' || c == ','
}

/// Characters that may form a symbol: alphanumeric or ASCII punctuation,
/// except the quote, brackets and comma.
pub open spec fn spec_is_symbolic(c: char) -> bool {
    (spec_is_alphanumeric(c) || is_ascii_punct(c)) && !is_delimiter(c)
}

pub fn is_symbolic(ch: char) -> (r: bool)
    ensures
        r == spec_is_symbolic(ch),
{
    let u = ch as u32;
    let punct = (33 <= u && u <= 47) || (58 <= u && u <= 64) || (91 <= u && u <= 96) || (123 <= u
        && u <= 126);
    let delim = ch == '"' || ch == '(' || ch == ')' || ch == '{' || ch == '}' || ch == '['
        || ch == ']' || ch == ',';
    (is_alphanumeric(ch) || punct) && !delim
}

fn is_digit_exec(c: char) -> (r: bool)
    ensures
        r == is_digit(c),
{
    let u = c as u32;
    48 <= u && u <= 57
}

/// The escape sequences of strings and characters: a backslash followed by
/// the first character of a pair stands for the second.
pub open spec fn escape_table() -> Seq<(char, char)> {
    seq![('n', '\n'), ('\\', '\\'), ('t', '\t'), ('"', '"')]
}

pub open spec fn escape_char(c: char) -> Option<char> {
    if c == 'n' {
        Some('\n')
    } else if c == '\\' {
        Some('\\')
    } else if c == 't' {
        Some('\t')
    } else if c == '"' {
        Some('"')
    } else {
        None
    }
}

pub fn escape_map() -> (m: Vec<(char, char)>)
    ensures
        m@ == escape_table(),
{
    let m = vec![('n', '\n'), ('\\', '\\'), ('t', '\t'), ('"', '"')];
    assert(m@ =~= escape_table());
    m
}

pub open spec fn keyword_kind(t: Seq<char>) -> Option<SpecTokenKind> {
    if t == seq!['i', 'f'] {
        Some(SpecTokenKind::KwIf)
    } else if t == seq!['e', 'l', 's', 'e'] {
        Some(SpecTokenKind::KwElse)
    } else if t == seq!['l', 'o', 'o', 'p'] {
        Some(SpecTokenKind::KwLoop)
    } else if t == seq!['b', 'r', 'e', 'a', 'k'] {
        Some(SpecTokenKind::KwBreak)
    } else if t == seq!['w', 'i', 't', 'h'] {
        Some(SpecTokenKind::KwWith)
    } else if t == seq!['t', 'r', 'u', 'e'] {
        Some(SpecTokenKind::Bool(true))
    } else if t == seq!['f', 'a', 'l', 's', 'e'] {
        Some(SpecTokenKind::Bool(false))
    } else {
        None
    }
}

fn kw_match(t: &Vec<char>) -> (r: Option<TokenKind>)
    ensures
        match r {
            Some(k) => keyword_kind(t@) == Some(k@),
            None => keyword_kind(t@) is None,
        },
{
    let n = t.len();
    if n == 2 && t[0] == 'i' && t[1] == 'f' {
        assert(t@ =~= seq!['i', 'f']);
        Some(TokenKind::KwIf)
    } else if n == 4 && t[0] == 'e' && t[1] == 'l' && t[2] == 's' && t[3] == 'e' {
        assert(t@ =~= seq!['e', 'l', 's', 'e']);
        Some(TokenKind::KwElse)
    } else if n == 4 && t[0] == 'l' && t[1] == 'o' && t[2] == 'o' && t[3] == 'p' {
        assert(t@ =~= seq!['l', 'o', 'o', 'p']);
        Some(TokenKind::KwLoop)
    } else if n == 5 && t[0] == 'b' && t[1] == 'r' && t[2] == 'e' && t[3] == 'a' && t[4] == 'k' {
        assert(t@ =~= seq!['b', 'r', 'e', 'a', 'k']);
        Some(TokenKind::KwBreak)
    } else if n == 4 && t[0] == 'w' && t[1] == 'i' && t[2] == 't' && t[3] == 'h' {
        assert(t@ =~= seq!['w', 'i', 't', 'h']);
        Some(TokenKind::KwWith)
    } else if n == 4 && t[0] == 't' && t[1] == 'r' && t[2] == 'u' && t[3] == 'e' {
        assert(t@ =~= seq!['t', 'r', 'u', 'e']);
        Some(TokenKind::Bool(true))
    } else if n == 5 && t[0] == 'f' && t[1] == 'a' && t[2] == 'l' && t[3] == 's' && t[4] == 'e' {
        assert(t@ =~= seq!['f', 'a', 'l', 's', 'e']);
        Some(TokenKind::Bool(false))
    } else {
        None
    }
}

// ---------------------------------------------------------------------------
// The lexing rules
// ---------------------------------------------------------------------------

pub open spec fn msg_unknown() -> Seq<char> {
    "Unknown token"@
}

pub open spec fn msg_dangling() -> Seq<char> {
    "Dangling floating point"@
}

pub open spec fn msg_unclosed_string() -> Seq<char> {
    "Unclosed string"@
}

pub open spec fn msg_unclosed_char() -> Seq<char> {
    "Unclosed character quote \"'\""@
}

pub open spec fn tok(kind: SpecTokenKind, start: nat, end: nat) -> SpecToken {
    SpecToken { kind, start, end }
}

/// First position at or after `j` that does not hold an ASCII digit.
pub open spec fn digits_end(s: Seq<char>, j: int) -> int
    decreases s.len() - j,
{
    if j < 0 || j >= s.len() || !is_digit(s[j]) {
        j
    } else {
        digits_end(s, j + 1)
    }
}

/// First position at or after `j` that does not hold a symbol character.
pub open spec fn symbol_end(s: Seq<char>, j: int) -> int
    decreases s.len() - j,
{
    if j < 0 || j >= s.len() || !spec_is_symbolic(s[j]) {
        j
    } else {
        symbol_end(s, j + 1)
    }
}

/// Position just after the first newline at or after `j`, or the end.
pub open spec fn line_comment_end(s: Seq<char>, j: int) -> int
    decreases s.len() - j,
{
    if j < 0 {
        j
    } else if j >= s.len() {
        s.len() as int
    } else if s[j] == '\n' {
        j + 1
    } else {
        line_comment_end(s, j + 1)
    }
}

/// Position just after the first `*/` that starts at or after `j`, or the end.
pub open spec fn block_comment_end(s: Seq<char>, j: int) -> int
    decreases s.len() - j,
{
    if j < 0 {
        j
    } else if j >= s.len() {
        s.len() as int
    } else if j + 1 < s.len() && s[j] == '*' && s[j + 1] == '/' {
        j + 2
    } else {
        block_comment_end(s, j + 1)
    }
}

/// The escape that starts at `j`, if a backslash and a known escape letter stand there.
pub open spec fn escape_at(s: Seq<char>, j: int) -> Option<char> {
    if 0 <= j && j + 1 < s.len() && s[j] == '\\' {
        escape_char(s[j + 1])
    } else {
        None
    }
}

/// Scans the body of a string literal from `j`: whether a closing quote was
/// found, the characters denoted, and the position after the literal.
pub open spec fn string_scan(s: Seq<char>, j: int) -> (bool, Seq<char>, int)
    decreases s.len() - j,
{
    if j < 0 {
        (false, Seq::empty(), j)
    } else if j >= s.len() {
        (false, Seq::empty(), s.len() as int)
    } else if s[j] == '"' {
        (true, Seq::empty(), j + 1)
    } else if escape_at(s, j) is Some {
        let r = string_scan(s, j + 2);
        (r.0, seq![escape_at(s, j)->0] + r.1, r.2)
    } else {
        let r = string_scan(s, j + 1);
        (r.0, seq![s[j]] + r.1, r.2)
    }
}

/// The value of a sequence of decimal digits.
pub open spec fn digits_value(ds: Seq<char>) -> int
    decreases ds.len(),
{
    if ds.len() == 0 {
        0
    } else {
        digits_value(ds.drop_last()) * 10 + (ds.last() as u32 - '0' as u32)
    }
}

/// The value of an integer literal: an optional minus sign, then digits.
pub open spec fn int_literal_value(t: Seq<char>) -> int {
    if t.len() > 0 && t[0] == '-' {
        -digits_value(t.drop_first())
    } else {
        digits_value(t)
    }
}

/// The result of a rule at a position: the token it emits, if any, and the
/// position where lexing goes on.
pub type RuleResult = Option<(Option<SpecToken>, int)>;

pub open spec fn whitespace_rule(s: Seq<char>, i: int) -> RuleResult {
    if spec_is_whitespace(s[i]) {
        Some((None, i + 1))
    } else {
        None
    }
}

pub open spec fn comment_rule(s: Seq<char>, i: int) -> RuleResult {
    if i + 1 < s.len() && s[i] == '/' && s[i + 1] == '/' {
        Some((None, line_comment_end(s, i + 2)))
    } else if i + 1 < s.len() && s[i] == '/' && s[i + 1] == '*' {
        Some((None, block_comment_end(s, i + 2)))
    } else {
        None
    }
}

pub open spec fn paren_kind(c: char) -> Option<SpecTokenKind> {
    if c == '(' {
        Some(SpecTokenKind::LParen)
    } else if c == ')' {
        Some(SpecTokenKind::RParen)
    } else if c == '{' {
        Some(SpecTokenKind::LCurly)
    } else if c == '}' {
        Some(SpecTokenKind::RCurly)
    } else if c == '[' {
        Some(SpecTokenKind::LSquare)
    } else if c == ']' {
        Some(SpecTokenKind::RSquare)
    } else if c == ',' {
        Some(SpecTokenKind::Comma)
    } else {
        None
    }
}

pub open spec fn paren_rule(s: Seq<char>, i: int) -> RuleResult {
    match paren_kind(s[i]) {
        Some(k) => Some((Some(tok(k, byte_pos(s, i), byte_pos(s, i + 1))), i + 1)),
        None => None,
    }
}

pub open spec fn number_rule(s: Seq<char>, i: int) -> RuleResult {
    let is_pos = s[i] != '-';
    let j = if is_pos { i } else { i + 1 };
    let d = digits_end(s, j);
    if d == i || (d == i + 1 && !is_pos) {
        None
    } else if d < s.len() && s[d] == '.' {
        let f = digits_end(s, d + 1);
        if f == d + 1 {
            Some(
                (
                    Some(tok(SpecTokenKind::Error(msg_dangling()), byte_pos(s, d), byte_pos(s, d + 1))),
                    d + 1,
                ),
            )
        } else {
            Some(
                (
                    Some(
                        tok(
                            SpecTokenKind::Number(s.subrange(i, f)),
                            byte_pos(s, i),
                            byte_pos(s, f),
                        ),
                    ),
                    f,
                ),
            )
        }
    } else {
        Some(
            (
                Some(
                    tok(
                        SpecTokenKind::Int(int_literal_value(s.subrange(i, d))),
                        byte_pos(s, i),
                        byte_pos(s, d),
                    ),
                ),
                d,
            ),
        )
    }
}

pub open spec fn string_rule(s: Seq<char>, i: int) -> RuleResult {
    if s[i] == '"' {
        let r = string_scan(s, i + 1);
        if r.0 {
            Some((Some(tok(SpecTokenKind::String(r.1), byte_pos(s, i), byte_pos(s, r.2))), r.2))
        } else {
            Some(
                (
                    Some(
                        tok(
                            SpecTokenKind::Error(msg_unclosed_string()),
                            byte_pos(s, i),
                            byte_pos(s, r.2),
                        ),
                    ),
                    r.2,
                ),
            )
        }
    } else {
        None
    }
}

pub open spec fn char_rule(s: Seq<char>, i: int) -> RuleResult {
    if s[i] == '\'' {
        let j = i + 1;
        if j >= s.len() {
            Some(
                (
                    Some(
                        tok(
                            SpecTokenKind::Error(msg_unclosed_char()),
                            byte_pos(s, i),
                            byte_pos(s, j),
                        ),
                    ),
                    j,
                ),
            )
        } else {
            let (ch, k) = match escape_at(s, j) {
                Some(c) => (c, j + 2),
                None => (s[j], j + 1),
            };
            if k < s.len() && s[k] == '\'' {
                Some((Some(tok(SpecTokenKind::Char(ch), byte_pos(s, i), byte_pos(s, k + 1))), k + 1))
            } else {
                Some(
                    (
                        Some(
                            tok(
                                SpecTokenKind::Error(msg_unclosed_char()),
                                byte_pos(s, i),
                                byte_pos(s, k),
                            ),
                        ),
                        k,
                    ),
                )
            }
        }
    } else {
        None
    }
}

pub open spec fn symbol_rule(s: Seq<char>, i: int) -> RuleResult {
    let k = symbol_end(s, i);
    if k > i {
        let t = s.subrange(i, k);
        let kind = match keyword_kind(t) {
            Some(kw) => kw,
            None => SpecTokenKind::Symbol(t),
        };
        Some((Some(tok(kind, byte_pos(s, i), byte_pos(s, k))), k))
    } else {
        None
    }
}

/// The first rule that applies at `i`, in the lexer's order.
#[verifier::opaque]
pub open spec fn rules_step(s: Seq<char>, i: int) -> RuleResult {
    if whitespace_rule(s, i) is Some {
        whitespace_rule(s, i)
    } else if comment_rule(s, i) is Some {
        comment_rule(s, i)
    } else if paren_rule(s, i) is Some {
        paren_rule(s, i)
    } else if number_rule(s, i) is Some {
        number_rule(s, i)
    } else if string_rule(s, i) is Some {
        string_rule(s, i)
    } else if char_rule(s, i) is Some {
        char_rule(s, i)
    } else {
        symbol_rule(s, i)
    }
}

/// One step of the lexer at `i`: a rule, or else an "Unknown token" error
/// over the character at `i`.
pub open spec fn lex_step(s: Seq<char>, i: int) -> (Option<SpecToken>, int) {
    match rules_step(s, i) {
        Some(r) => r,
        None => (
            Some(tok(SpecTokenKind::Error(msg_unknown()), byte_pos(s, i), byte_pos(s, i + 1))),
            i + 1,
        ),
    }
}

pub open spec fn opt_seq(t: Option<SpecToken>) -> Seq<SpecToken> {
    match t {
        Some(t) => seq![t],
        None => Seq::empty(),
    }
}

/// The tokens of `s` from character position `i` on.
pub open spec fn lex_from(s: Seq<char>, i: int) -> Seq<SpecToken>
    decreases s.len() - i,
{
    if i < 0 || i >= s.len() {
        Seq::empty()
    } else {
        let (t, j) = lex_step(s, i);
        if j <= i || j > s.len() {
            opt_seq(t)
        } else {
            opt_seq(t) + lex_from(s, j)
        }
    }
}

/// The tokens of the whole of `s`.
pub open spec fn lex(s: Seq<char>) -> Seq<SpecToken> {
    lex_from(s, 0)
}

pub open spec fn token_fits(t: SpecToken) -> bool {
    match t.kind {
        SpecTokenKind::Int(n) => i32::MIN <= n <= i32::MAX,
        _ => true,
    }
}

/// Every integer literal among `ts` fits in an `i32`.
pub open spec fn all_fit(ts: Seq<SpecToken>) -> bool {
    forall|k: int| 0 <= k < ts.len() ==> token_fits(#[trigger] ts[k])
}

// ---------------------------------------------------------------------------
// Facts about the rules
// ---------------------------------------------------------------------------

pub proof fn lemma_digits_end(s: Seq<char>, j: int)
    requires
        0 <= j <= s.len(),
    ensures
        j <= digits_end(s, j) <= s.len(),
        forall|k: int| j <= k < digits_end(s, j) ==> is_digit(#[trigger] s[k]),
        digits_end(s, j) < s.len() ==> !is_digit(s[digits_end(s, j)]),
    decreases s.len() - j,
{
    if j < s.len() && is_digit(s[j]) {
        lemma_digits_end(s, j + 1);
    }
}

pub proof fn lemma_symbol_end(s: Seq<char>, j: int)
    requires
        0 <= j <= s.len(),
    ensures
        j <= symbol_end(s, j) <= s.len(),
        forall|k: int| j <= k < symbol_end(s, j) ==> spec_is_symbolic(#[trigger] s[k]),
        symbol_end(s, j) < s.len() ==> !spec_is_symbolic(s[symbol_end(s, j)]),
    decreases s.len() - j,
{
    if j < s.len() && spec_is_symbolic(s[j]) {
        lemma_symbol_end(s, j + 1);
    }
}

proof fn lemma_line_comment_end(s: Seq<char>, j: int)
    requires
        0 <= j <= s.len(),
    ensures
        j <= line_comment_end(s, j) <= s.len(),
    decreases s.len() - j,
{
    if j < s.len() && s[j] != '\n' {
        lemma_line_comment_end(s, j + 1);
    }
}

proof fn lemma_block_comment_end(s: Seq<char>, j: int)
    requires
        0 <= j <= s.len(),
    ensures
        j <= block_comment_end(s, j) <= s.len(),
    decreases s.len() - j,
{
    if j < s.len() && !(j + 1 < s.len() && s[j] == '*' && s[j + 1] == '/') {
        lemma_block_comment_end(s, j + 1);
    }
}

pub proof fn lemma_string_scan(s: Seq<char>, j: int)
    requires
        0 <= j <= s.len(),
    ensures
        j <= string_scan(s, j).2 <= s.len(),
    decreases s.len() - j,
{
    if j < s.len() && s[j] != '"' {
        if escape_at(s, j) is Some {
            lemma_string_scan(s, j + 2);
        } else {
            lemma_string_scan(s, j + 1);
        }
    }
}

/// Each step of the lexer moves forward and stays within the input.
pub proof fn lemma_lex_step_progress(s: Seq<char>, i: int)
    requires
        0 <= i < s.len(),
    ensures
        i < lex_step(s, i).1 <= s.len(),
{
    reveal(rules_step);
    if i + 2 <= s.len() {
        lemma_line_comment_end(s, i + 2);
        lemma_block_comment_end(s, i + 2);
    }
    let is_pos = s[i] != '-';
    let j = if is_pos { i } else { i + 1 };
    lemma_digits_end(s, j);
    let d = digits_end(s, j);
    if d < s.len() {
        lemma_digits_end(s, d + 1);
    }
    lemma_string_scan(s, i + 1);
    lemma_symbol_end(s, i);
}

/// `lex_from` at a position inside the input: the step's token, then the rest.
pub proof fn lemma_lex_from_unfold(s: Seq<char>, i: int)
    requires
        0 <= i < s.len(),
    ensures
        lex_from(s, i) == opt_seq(lex_step(s, i).0) + lex_from(s, lex_step(s, i).1),
{
    lemma_lex_step_progress(s, i);
    let j = lex_step(s, i).1;
    if j == s.len() {
        assert(lex_from(s, j) == Seq::<SpecToken>::empty());
        assert(opt_seq(lex_step(s, i).0) + lex_from(s, j) =~= opt_seq(lex_step(s, i).0));
    }
}

pub proof fn lemma_tokens_view_index(v: Seq<Token>, i: int)
    requires
        0 <= i < v.len(),
    ensures
        tokens_view(v).len() == v.len(),
        tokens_view(v)[i] == v[i]@,
{
}

pub proof fn lemma_tokens_view_len(v: Seq<Token>)
    ensures
        tokens_view(v).len() == v.len(),
{
}

pub proof fn lemma_tokens_view_push(v: Seq<Token>, t: Token)
    ensures
        tokens_view(v.push(t)) == tokens_view(v).push(t@),
{
    assert(tokens_view(v.push(t)) =~= tokens_view(v).push(t@));
}

// ---------------------------------------------------------------------------
// The lexer
// ---------------------------------------------------------------------------

/// The outcome of trying the rules at the cursor.
enum Attempt {
    NoMatch,
    Matched,
    OutOfRange,
}

/// `v` when it is at most the magnitude of `i32::MIN`, and one more than that otherwise.
pub open spec fn saturate(v: int) -> int {
    if v <= 2147483648 {
        v
    } else {
        2147483649
    }
}

pub open spec fn fits_opt(t: Option<SpecToken>) -> bool {
    match t {
        Some(t) => token_fits(t),
        None => true,
    }
}

pub struct Lexer {
    input: String,
    chars: Vec<char>,
    pub tokens: Vec<Token>,
    cursor: usize,
    byte_cursor: usize,
    escapes: Vec<(char, char)>,
}

impl Lexer {
    /// The source text.
    pub closed spec fn source(&self) -> Seq<char> {
        self.input@
    }

    /// The tokens found so far.
    pub closed spec fn token_list(&self) -> Seq<SpecToken> {
        tokens_view(self.tokens@)
    }

    /// The character position where lexing goes on.
    pub closed spec fn position(&self) -> int {
        self.cursor as int
    }

    pub closed spec fn wf(&self) -> bool {
        &&& self.chars@ == self.input@
        &&& self.cursor <= self.chars@.len()
        &&& self.byte_cursor == byte_pos(self.chars@, self.cursor as int)
        &&& byte_pos(self.chars@, self.chars@.len() as int) <= usize::MAX
        &&& self.escapes@ == escape_table()
    }

    closed spec fn same_text(&self, other: &Lexer) -> bool {
        &&& self.input == other.input
        &&& self.chars == other.chars
        &&& self.escapes == other.escapes
    }

    /// The effect of a rule with result `r` between `self` and `new`.
    closed spec fn applied(&self, new: &Lexer, r: RuleResult, matched: bool) -> bool {
        match r {
            None => !matched && new.cursor == self.cursor && new.tokens@ == self.tokens@,
            Some((t, j)) => matched && new.cursor == j && tokens_view(new.tokens@) == tokens_view(
                self.tokens@,
            ) + opt_seq(t),
        }
    }

    fn is_eof(&self) -> (r: bool)
        requires
            self.wf(),
        ensures
            r == (self.cursor >= self.chars@.len()),
    {
        self.cursor >= self.chars.len()
    }

    fn peek(&self) -> (r: Option<char>)
        requires
            self.wf(),
        ensures
            r == if self.cursor < self.chars@.len() {
                Some(self.chars@[self.cursor as int])
            } else {
                None::<char>
            },
    {
        if self.cursor < self.chars.len() {
            Some(self.chars[self.cursor])
        } else {
            None
        }
    }

    fn bump(&mut self) -> (r: Option<char>)
        requires
            old(self).wf(),
        ensures
            final(self).wf(),
            final(self).same_text(old(self)),
            final(self).tokens == old(self).tokens,
            old(self).cursor < old(self).chars@.len() ==> r == Some(
                old(self).chars@[old(self).cursor as int],
            ) && final(self).cursor == old(self).cursor + 1,
            old(self).cursor >= old(self).chars@.len() ==> r is None && final(self).cursor == old(
                self,
            ).cursor,
    {
        if self.cursor < self.chars.len() {
            let c = self.chars[self.cursor];
            proof {
                lemma_byte_pos_step(self.chars@, self.cursor as int);
                lemma_byte_pos_mono(self.chars@, self.cursor + 1, self.chars@.len() as int);
            }
            self.byte_cursor = self.byte_cursor + utf8_width(c);
            self.cursor = self.cursor + 1;
            Some(c)
        } else {
            None
        }
    }

    /// Consumes `c` if it stands at the cursor.
    fn matches_char(&mut self, c: char) -> (r: bool)
        requires
            old(self).wf(),
        ensures
            final(self).wf(),
            final(self).same_text(old(self)),
            final(self).tokens == old(self).tokens,
            r == (old(self).cursor < old(self).chars@.len() && old(self).chars@[old(
                self,
            ).cursor as int] == c),
            r ==> final(self).cursor == old(self).cursor + 1,
            !r ==> final(self).cursor == old(self).cursor,
    {
        if self.cursor < self.chars.len() && self.chars[self.cursor] == c {
            self.bump();
            true
        } else {
            false
        }
    }

    /// Consumes the escape at the cursor, if there is one, and returns the
    /// character it stands for.
    fn match_escape(&mut self) -> (r: Option<char>)
        requires
            old(self).wf(),
        ensures
            final(self).wf(),
            final(self).same_text(old(self)),
            final(self).tokens == old(self).tokens,
            r == escape_at(old(self).chars@, old(self).cursor as int),
            r is Some ==> final(self).cursor == old(self).cursor + 2,
            r is None ==> final(self).cursor == old(self).cursor,
    {
        if self.cursor < self.chars.len() && self.chars.len() - self.cursor > 1
            && self.chars[self.cursor] == '\\' {
            let next = self.chars[self.cursor + 1];
            let mut k: usize = 0;
            while k < self.escapes.len()
                invariant
                    self.wf(),
                    self.same_text(old(self)),
                    self.tokens == old(self).tokens,
                    self.cursor == old(self).cursor,
                    self.cursor + 1 < self.chars@.len(),
                    self.chars@[self.cursor as int] == '\\',
                    next == self.chars@[self.cursor + 1],
                    self.escapes@ == escape_table(),
                    k <= self.escapes@.len(),
                    forall|m: int| 0 <= m < k ==> (#[trigger] self.escapes@[m]).0 != next,
                decreases self.escapes@.len() - k,
            {
                if self.escapes[k].0 == next {
                    let out = self.escapes[k].1;
                    self.bump();
                    self.bump();
                    return Some(out);
                }
                k = k + 1;
            }
            assert(self.escapes@[0].0 != next && self.escapes@[1].0 != next
                && self.escapes@[2].0 != next && self.escapes@[3].0 != next);
            None
        } else {
            None
        }
    }

    fn try_whitespace(&mut self) -> (r: bool)
        requires
            old(self).wf(),
            old(self).cursor < old(self).chars@.len(),
        ensures
            final(self).wf(),
            final(self).same_text(old(self)),
            old(self).applied(final(self), whitespace_rule(old(self).chars@, old(self).cursor as int), r),
    {
        if is_whitespace(self.chars[self.cursor]) {
            self.bump();
            true
        } else {
            false
        }
    }

    fn try_comment(&mut self) -> (r: bool)
        requires
            old(self).wf(),
            old(self).cursor < old(self).chars@.len(),
        ensures
            final(self).wf(),
            final(self).same_text(old(self)),
            old(self).applied(final(self), comment_rule(old(self).chars@, old(self).cursor as int), r),
    {
        let ghost s = self.chars@;
        let ghost i = self.cursor as int;
        if self.chars.len() - self.cursor > 1 && self.chars[self.cursor] == '/'
            && self.chars[self.cursor + 1] == '/' {
            self.bump();
            self.bump();
            proof {
                lemma_line_comment_end(s, i + 2);
            }
            while self.cursor < self.chars.len() && self.chars[self.cursor] != '\n'
                invariant
                    self.wf(),
                    self.same_text(old(self)),
                    self.tokens == old(self).tokens,
                    s == self.chars@,
                    i + 2 <= self.cursor <= s.len(),
                    line_comment_end(s, self.cursor as int) == line_comment_end(s, i + 2),
                decreases s.len() - self.cursor,
            {
                self.bump();
            }
            if self.cursor < self.chars.len() {
                self.bump();
            }
            true
        } else if self.chars.len() - self.cursor > 1 && self.chars[self.cursor] == '/'
            && self.chars[self.cursor + 1] == '*' {
            self.bump();
            self.bump();
            while self.cursor < self.chars.len() && !(self.chars.len() - self.cursor > 1
                && self.chars[self.cursor] == '*' && self.chars[self.cursor + 1] == '/')
                invariant
                    self.wf(),
                    self.same_text(old(self)),
                    self.tokens == old(self).tokens,
                    s == self.chars@,
                    i + 2 <= self.cursor <= s.len(),
                    block_comment_end(s, self.cursor as int) == block_comment_end(s, i + 2),
                decreases s.len() - self.cursor,
            {
                self.bump();
            }
            if self.cursor < self.chars.len() {
                self.bump();
                self.bump();
            }
            true
        } else {
            false
        }
    }

    fn try_parens(&mut self) -> (r: bool)
        requires
            old(self).wf(),
            old(self).cursor < old(self).chars@.len(),
        ensures
            final(self).wf(),
            final(self).same_text(old(self)),
            old(self).applied(final(self), paren_rule(old(self).chars@, old(self).cursor as int), r),
    {
        let c = self.chars[self.cursor];
        let kind = if c == '(' {
            TokenKind::LParen
        } else if c == ')' {
            TokenKind::RParen
        } else if c == '{' {
            TokenKind::LCurly
        } else if c == '}' {
            TokenKind::RCurly
        } else if c == '[' {
            TokenKind::LSquare
        } else if c == ']' {
            TokenKind::RSquare
        } else if c == ',' {
            TokenKind::Comma
        } else {
            return false;
        };
        proof {
            lemma_byte_pos_step(self.chars@, self.cursor as int);
            crate::text::lemma_width_pos(c);
        }
        self.bump();
        self.push_token(kind, 1)
    }

    /// The characters between positions `a` and `b`, as a `String`.
    fn text_between(&self, a: usize, b: usize) -> (r: String)
        requires
            self.wf(),
            a <= b <= self.chars@.len(),
        ensures
            r@ == self.chars@.subrange(a as int, b as int),
    {
        let mut r = String::new();
        let mut k = a;
        while k < b
            invariant
                self.wf(),
                a <= k <= b <= self.chars@.len(),
                r@ == self.chars@.subrange(a as int, k as int),
            decreases b - k,
        {
            string_push(&mut r, self.chars[k]);
            assert(self.chars@.subrange(a as int, k + 1) =~= self.chars@.subrange(a as int, k as int).push(
                self.chars@[k as int],
            ));
            k = k + 1;
        }
        r
    }

    /// The value of the digits between `from` and `to`, saturated just above
    /// the magnitude of `i32::MIN`.
    fn digits_sat(&self, from: usize, to: usize) -> (r: u64)
        requires
            self.wf(),
            from <= to <= self.chars@.len(),
            forall|k: int| from <= k < to ==> is_digit(#[trigger] self.chars@[k]),
        ensures
            r == saturate(digits_value(self.chars@.subrange(from as int, to as int))),
    {
        let ghost s = self.chars@;
        let mut acc: u64 = 0;
        let mut k = from;
        assert(s.subrange(from as int, from as int) =~= Seq::<char>::empty());
        while k < to
            invariant
                self.wf(),
                s == self.chars@,
                from <= k <= to <= s.len(),
                forall|m: int| from <= m < to ==> is_digit(#[trigger] s[m]),
                digits_value(s.subrange(from as int, k as int)) >= 0,
                acc == saturate(digits_value(s.subrange(from as int, k as int))),
            decreases to - k,
        {
            let c = self.chars[k];
            assert(is_digit(s[k as int]));
            let dg = (c as u32 - 48u32) as u64;
            let ghost prev = s.subrange(from as int, k as int);
            let ghost next = s.subrange(from as int, k + 1);
            assert(next.drop_last() =~= prev);
            assert(next.last() == c);
            assert(digits_value(next) == digits_value(prev) * 10 + dg);
            if acc <= 2147483648 {
                let n = acc * 10 + dg;
                acc = if n > 2147483648 {
                    2147483649
                } else {
                    n
                };
            } else {
                acc = 2147483649;
            }
            k = k + 1;
        }
        acc
    }

    fn try_number(&mut self) -> (r: Attempt)
        requires
            old(self).wf(),
            old(self).cursor < old(self).chars@.len(),
        ensures
            final(self).wf(),
            final(self).same_text(old(self)),
            match number_rule(old(self).chars@, old(self).cursor as int) {
                None => r is NoMatch && final(self).cursor == old(self).cursor
                    && final(self).tokens@ == old(self).tokens@,
                Some((t, j)) => if fits_opt(t) {
                    r is Matched && final(self).cursor == j && tokens_view(final(self).tokens@)
                        == tokens_view(old(self).tokens@) + opt_seq(t)
                } else {
                    r is OutOfRange
                },
            },
    {
        let ghost s = self.chars@;
        let ghost i = self.cursor as int;
        let start = self.cursor;
        let start_b = self.byte_cursor;
        let is_pos = self.chars[self.cursor] != '-';
        if !is_pos {
            self.bump();
        }
        let ghost j = self.cursor as int;
        proof {
            lemma_digits_end(s, j);
        }
        while self.cursor < self.chars.len() && is_digit_exec(self.chars[self.cursor])
            invariant
                self.wf(),
                self.same_text(old(self)),
                self.tokens == old(self).tokens,
                s == self.chars@,
                j <= self.cursor <= digits_end(s, j),
                digits_end(s, self.cursor as int) == digits_end(s, j),
            decreases s.len() - self.cursor,
        {
            proof {
                lemma_digits_end(s, self.cursor + 1);
            }
            self.bump();
        }
        let d = self.cursor;
        assert(d == digits_end(s, j));
        if d == start || (d == start + 1 && !is_pos) {
            self.cursor = start;
            self.byte_cursor = start_b;
            return Attempt::NoMatch;
        }
        proof {
            lemma_byte_pos_mono(s, i, d as int);
        }
        if self.cursor < self.chars.len() && self.chars[self.cursor] == '.' {
            proof {
                lemma_byte_pos_step(s, d as int);
                crate::text::lemma_width_pos('.');
            }
            self.bump();
            let start_fp = self.cursor;
            proof {
                lemma_digits_end(s, start_fp as int);
            }
            while self.cursor < self.chars.len() && is_digit_exec(self.chars[self.cursor])
                invariant
                    self.wf(),
                    self.same_text(old(self)),
                    self.tokens == old(self).tokens,
                    s == self.chars@,
                    start_fp <= self.cursor <= digits_end(s, start_fp as int),
                    digits_end(s, self.cursor as int) == digits_end(s, start_fp as int),
                decreases s.len() - self.cursor,
            {
                proof {
                    lemma_digits_end(s, self.cursor + 1);
                }
                self.bump();
            }
            if start_fp == self.cursor {
                self.push_token(TokenKind::Error(String::from_str("Dangling floating point")), 1);
                return Attempt::Matched;
            }
            proof {
                lemma_byte_pos_mono(s, i, self.cursor as int);
            }
            let text = self.text_between(start, self.cursor);
            let len = self.byte_cursor - start_b;
            self.push_token(TokenKind::Number(text), len);
            Attempt::Matched
        } else {
            let from = if is_pos {
                start
            } else {
                start + 1
            };
            let v = self.digits_sat(from, d);
            let ghost t = s.subrange(i, d as int);
            assert(t[0] == s[i]);
            assert(t.drop_first() =~= s.subrange(i + 1, d as int));
            assert(int_literal_value(t) == if is_pos {
                digits_value(s.subrange(from as int, d as int))
            } else {
                -digits_value(s.subrange(from as int, d as int))
            });
            let len = self.byte_cursor - start_b;
            if is_pos {
                if v <= 2147483647 {
                    self.push_token(TokenKind::Int(v as i32), len);
                    Attempt::Matched
                } else {
                    Attempt::OutOfRange
                }
            } else {
                if v <= 2147483648 {
                    let n: i64 = -(v as i64);
                    self.push_token(TokenKind::Int(n as i32), len);
                    Attempt::Matched
                } else {
                    Attempt::OutOfRange
                }
            }
        }
    }

    fn try_string(&mut self) -> (r: bool)
        requires
            old(self).wf(),
            old(self).cursor < old(self).chars@.len(),
        ensures
            final(self).wf(),
            final(self).same_text(old(self)),
            old(self).applied(final(self), string_rule(old(self).chars@, old(self).cursor as int), r),
    {
        let ghost s = self.chars@;
        let ghost i = self.cursor as int;
        let start_b = self.byte_cursor;
        if !self.matches_char('"') {
            return false;
        }
        proof {
            lemma_string_scan(s, i + 1);
        }
        let mut contents = String::new();
        while self.cursor < self.chars.len() && self.chars[self.cursor] != '"'
            invariant
                self.wf(),
                self.same_text(old(self)),
                self.tokens == old(self).tokens,
                s == self.chars@,
                i + 1 <= self.cursor <= s.len(),
                string_scan(s, i + 1).0 == string_scan(s, self.cursor as int).0,
                string_scan(s, i + 1).1 == contents@ + string_scan(s, self.cursor as int).1,
                string_scan(s, i + 1).2 == string_scan(s, self.cursor as int).2,
            decreases s.len() - self.cursor,
        {
            let ghost c0 = self.cursor as int;
            let ghost before = contents@;
            match self.match_escape() {
                Some(c) => {
                    string_push(&mut contents, c);
                    proof {
                        lemma_string_scan(s, c0 + 2);
                        let r = string_scan(s, c0 + 2);
                        assert(string_scan(s, c0).1 == seq![c] + r.1);
                        assert(before + (seq![c] + r.1) =~= before.push(c) + r.1);
                    }
                },
                None => {
                    let c = self.bump().unwrap();
                    string_push(&mut contents, c);
                    proof {
                        lemma_string_scan(s, c0 + 1);
                        let r = string_scan(s, c0 + 1);
                        assert(string_scan(s, c0).1 == seq![c] + r.1);
                        assert(before + (seq![c] + r.1) =~= before.push(c) + r.1);
                    }
                },
            }
        }
        let closed = self.cursor < self.chars.len();
        assert(string_scan(s, self.cursor as int).1 =~= Seq::<char>::empty());
        assert(contents@ + Seq::<char>::empty() =~= contents@);
        if closed {
            self.bump();
        }
        proof {
            lemma_byte_pos_mono(s, i, self.cursor as int);
        }
        let len = self.byte_cursor - start_b;
        if closed {
            self.push_token(TokenKind::String(contents), len)
        } else {
            self.push_token(TokenKind::Error(String::from_str("Unclosed string")), len)
        }
    }

    fn try_char(&mut self) -> (r: bool)
        requires
            old(self).wf(),
            old(self).cursor < old(self).chars@.len(),
        ensures
            final(self).wf(),
            final(self).same_text(old(self)),
            old(self).applied(final(self), char_rule(old(self).chars@, old(self).cursor as int), r),
    {
        let ghost s = self.chars@;
        let ghost i = self.cursor as int;
        let start_b = self.byte_cursor;
        proof {
            lemma_byte_pos_step(s, i);
            crate::text::lemma_width_pos('\'');
        }
        if !self.matches_char('\'') {
            return false;
        }
        if self.is_eof() {
            return self.push_token(
                TokenKind::Error(String::from_str("Unclosed character quote \"'\"")),
                1,
            );
        }
        let ch = match self.match_escape() {
            Some(c) => c,
            None => self.bump().unwrap(),
        };
        let closed = self.matches_char('\'');
        proof {
            lemma_byte_pos_mono(s, i, self.cursor as int);
        }
        let len = self.byte_cursor - start_b;
        if !closed {
            return self.push_token(
                TokenKind::Error(String::from_str("Unclosed character quote \"'\"")),
                len,
            );
        }
        self.push_token(TokenKind::Char(ch), len)
    }

    fn try_symbol(&mut self) -> (r: bool)
        requires
            old(self).wf(),
            old(self).cursor < old(self).chars@.len(),
        ensures
            final(self).wf(),
            final(self).same_text(old(self)),
            old(self).applied(final(self), symbol_rule(old(self).chars@, old(self).cursor as int), r),
    {
        let ghost s = self.chars@;
        let ghost i = self.cursor as int;
        let start = self.cursor;
        let start_b = self.byte_cursor;
        let mut sym = String::new();
        let mut sym_chars: Vec<char> = Vec::new();
        proof {
            lemma_symbol_end(s, i);
        }
        while self.cursor < self.chars.len() && is_symbolic(self.chars[self.cursor])
            invariant
                self.wf(),
                self.same_text(old(self)),
                self.tokens == old(self).tokens,
                s == self.chars@,
                i <= self.cursor <= symbol_end(s, i),
                symbol_end(s, self.cursor as int) == symbol_end(s, i),
                sym@ == s.subrange(i, self.cursor as int),
                sym_chars@ == sym@,
            decreases s.len() - self.cursor,
        {
            proof {
                lemma_symbol_end(s, self.cursor + 1);
            }
            let c = self.chars[self.cursor];
            assert(s.subrange(i, self.cursor + 1) =~= s.subrange(i, self.cursor as int).push(c));
            self.bump();
            string_push(&mut sym, c);
            sym_chars.push(c);
        }
        if self.cursor > start {
            proof {
                lemma_byte_pos_mono(s, i, self.cursor as int);
            }
            let len = self.byte_cursor - start_b;
            let kind = match kw_match(&sym_chars) {
                Some(k) => k,
                None => TokenKind::Symbol(sym),
            };
            self.push_token(kind, len)
        } else {
            false
        }
    }

    fn try_one(&mut self) -> (r: Attempt)
        requires
            old(self).wf(),
            old(self).cursor < old(self).chars@.len(),
        ensures
            final(self).wf(),
            final(self).same_text(old(self)),
            match rules_step(old(self).chars@, old(self).cursor as int) {
                None => r is NoMatch && final(self).cursor == old(self).cursor
                    && final(self).tokens@ == old(self).tokens@,
                Some((t, j)) => (r is Matched && fits_opt(t) && final(self).cursor == j
                    && tokens_view(final(self).tokens@) == tokens_view(old(self).tokens@) + opt_seq(t))
                    || (r is OutOfRange && !fits_opt(t)),
            },
    {
        reveal(rules_step);
        if self.try_whitespace() {
            return Attempt::Matched;
        }
        if self.try_comment() {
            return Attempt::Matched;
        }
        if self.try_parens() {
            return Attempt::Matched;
        }
        match self.try_number() {
            Attempt::NoMatch => {},
            Attempt::Matched => {
                return Attempt::Matched;
            },
            Attempt::OutOfRange => {
                return Attempt::OutOfRange;
            },
        }
        if self.try_string() {
            return Attempt::Matched;
        }
        if self.try_char() {
            return Attempt::Matched;
        }
        if self.try_symbol() {
            return Attempt::Matched;
        }
        Attempt::NoMatch
    }

    /// Lexes from the cursor to the end. Answers whether every integer
    /// literal fitted; when it did, the tokens of the rest were appended.
    fn lex_rest(&mut self) -> (ok: bool)
        requires
            old(self).wf(),
        ensures
            final(self).wf(),
            final(self).same_text(old(self)),
            ok == all_fit(lex_from(old(self).chars@, old(self).cursor as int)),
            ok ==> tokens_view(final(self).tokens@) == tokens_view(old(self).tokens@) + lex_from(
                old(self).chars@,
                old(self).cursor as int,
            ),
            ok ==> final(self).cursor == old(self).chars@.len(),
    {
        let ghost s = self.chars@;
        let ghost c0 = self.cursor as int;
        let ghost t0 = tokens_view(self.tokens@);
        let ghost mut added: Seq<SpecToken> = Seq::empty();
        assert(lex_from(s, c0) =~= added + lex_from(s, c0));
        assert(t0 =~= t0 + added);
        while !self.is_eof()
            invariant
                self.wf(),
                self.same_text(old(self)),
                s == self.chars@,
                s == old(self).chars@,
                c0 == old(self).cursor,
                t0 == tokens_view(old(self).tokens@),
                c0 <= self.cursor <= s.len(),
                tokens_view(self.tokens@) == t0 + added,
                lex_from(s, c0) == added + lex_from(s, self.cursor as int),
                all_fit(added),
            decreases s.len() - self.cursor,
        {
            let ghost i = self.cursor as int;
            proof {
                lemma_lex_from_unfold(s, i);
                lemma_lex_step_progress(s, i);
            }
            let ghost step = lex_step(s, i);
            match self.try_one() {
                Attempt::Matched => {},
                Attempt::OutOfRange => {
                    proof {
                        assert(rules_step(s, i) is Some);
                        assert(step == rules_step(s, i)->0);
                        assert(step.0 is Some);
                        let t = step.0->0;
                        assert(!token_fits(t));
                        let k = added.len() as int;
                        assert(opt_seq(step.0)[0] == t);
                        assert((added + (opt_seq(step.0) + lex_from(s, step.1)))[k] == t);
                        assert(lex_from(s, c0)[k] == t);
                        assert(!all_fit(lex_from(s, c0)));
                    }
                    return false;
                },
                Attempt::NoMatch => {
                    proof {
                        lemma_byte_pos_step(s, i);
                        crate::text::lemma_width_pos(s[i]);
                    }
                    let c = self.chars[self.cursor];
                    self.bump();
                    self.push_token(TokenKind::Error(String::from_str("Unknown token")), utf8_width(c));
                },
            }
            proof {
                let t = step.0;
                assert(fits_opt(t));
                assert(added + (opt_seq(t) + lex_from(s, step.1)) =~= (added + opt_seq(t)) + lex_from(s, step.1));
                assert((t0 + added) + opt_seq(t) =~= t0 + (added + opt_seq(t)));
                added = added + opt_seq(t);
            }
        }
        assert(lex_from(s, self.cursor as int) =~= Seq::<SpecToken>::empty());
        assert(added + Seq::<SpecToken>::empty() =~= added);
        true
    }

    /// The tokens found so far (the field `tokens`).
    pub fn tokens(&self) -> (r: &Vec<Token>)
        ensures
            tokens_view(r@) == self.token_list(),
    {
        &self.tokens
    }

    /// The lexer's tokens, taken out of it.
    pub fn into_tokens(self) -> (r: Vec<Token>)
        ensures
            tokens_view(r@) == self.token_list(),
    {
        self.tokens
    }

    pub fn new(input: String) -> (l: Lexer)
        ensures
            l.wf(),
            l.source() == input@,
            l.position() == 0,
            l.token_list() == Seq::<SpecToken>::empty(),
    {
        let chars = chars_of(input.as_str());
        let bytes = input.as_str().as_bytes();
        let n = bytes.len();
        assert(chars@.take(chars@.len() as int) =~= chars@);
        assert(chars@.take(0) =~= Seq::<char>::empty());
        assert(byte_pos(chars@, 0) == 0);
        let l = Lexer {
            input,
            chars,
            tokens: Vec::new(),
            cursor: 0,
            byte_cursor: 0,
            escapes: escape_map(),
        };
        assert(l.token_list() =~= Seq::<SpecToken>::empty());
        l
    }

    /// Lexes the rest of the source and appends its tokens.
    ///
    /// The source's integer literals must fit in an `i32`;
    /// `try_all_checked` tests that.
    pub fn try_all(&mut self)
        requires
            old(self).wf(),
            all_fit(lex_from(old(self).source(), old(self).position())),
        ensures
            final(self).wf(),
            final(self).source() == old(self).source(),
            final(self).position() == final(self).source().len(),
            final(self).token_list() == old(self).token_list() + lex_from(
                old(self).source(),
                old(self).position(),
            ),
    {
        self.lex_rest();
    }

    /// Like `try_all`, for any source: answers whether every integer literal
    /// fits in an `i32`, and when it does, has appended the tokens of the rest.
    pub fn try_all_checked(&mut self) -> (ok: bool)
        requires
            old(self).wf(),
        ensures
            final(self).wf(),
            final(self).source() == old(self).source(),
            ok == all_fit(lex_from(old(self).source(), old(self).position())),
            ok ==> final(self).position() == final(self).source().len(),
            ok ==> final(self).token_list() == old(self).token_list() + lex_from(
                old(self).source(),
                old(self).position(),
            ),
    {
        self.lex_rest()
    }

    fn push_token(&mut self, kind: TokenKind, len: usize) -> (r: bool)
        requires
            old(self).wf(),
            len <= old(self).byte_cursor,
        ensures
            final(self).wf(),
            final(self).same_text(old(self)),
            final(self).cursor == old(self).cursor,
            r,
            tokens_view(final(self).tokens@) == tokens_view(old(self).tokens@) + seq![
                tok(kind@, (old(self).byte_cursor - len) as nat, old(self).byte_cursor as nat),
            ],
    {
        let t = Token { kind, pos: Span { start: self.byte_cursor - len, end: self.byte_cursor } };
        proof {
            lemma_tokens_view_push(self.tokens@, t);
        }
        self.tokens.push(t);
        true
    }
}

} // verus!
