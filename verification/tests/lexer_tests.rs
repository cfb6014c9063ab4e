use fae::lexer::{escape_map, is_symbolic, Lexer, Token, TokenKind};

fn lex_all(src: &str) -> Vec<Token> {
    let mut l = Lexer::new(src.to_string());
    assert!(l.try_all_checked());
    l.tokens
}

fn spans(toks: &[Token]) -> Vec<(usize, usize)> {
    toks.iter().map(|t| (t.pos.start, t.pos.end)).collect()
}

fn symbol_text(t: &Token) -> String {
    match &t.kind {
        TokenKind::Symbol(s) => s.clone(),
        other => panic!("not a symbol: {:?}", other),
    }
}

fn error_text(t: &Token) -> String {
    match &t.kind {
        TokenKind::Error(s) => s.clone(),
        other => panic!("not an error: {:?}", other),
    }
}

#[test]
fn lexes_parens_and_int() {
    let toks = lex_all("(-12");
    assert_eq!(toks.len(), 2);
    assert!(matches!(toks[0].kind, TokenKind::LParen));
    assert_eq!((toks[0].pos.start, toks[0].pos.end), (0, 1));
    assert!(matches!(toks[1].kind, TokenKind::Int(-12)));
    assert_eq!((toks[1].pos.start, toks[1].pos.end), (1, 4));
}

#[test]
fn lexes_all_brackets_and_comma() {
    let toks = lex_all("()[]{},");
    assert_eq!(toks.len(), 7);
    assert!(matches!(toks[0].kind, TokenKind::LParen));
    assert!(matches!(toks[1].kind, TokenKind::RParen));
    assert!(matches!(toks[2].kind, TokenKind::LSquare));
    assert!(matches!(toks[3].kind, TokenKind::RSquare));
    assert!(matches!(toks[4].kind, TokenKind::LCurly));
    assert!(matches!(toks[5].kind, TokenKind::RCurly));
    assert!(matches!(toks[6].kind, TokenKind::Comma));
    assert_eq!(spans(&toks), vec![(0, 1), (1, 2), (2, 3), (3, 4), (4, 5), (5, 6), (6, 7)]);
}

#[test]
fn lexes_keywords_and_bools() {
    let toks = lex_all("if else loop break with true false");
    assert_eq!(toks.len(), 7);
    assert!(matches!(toks[0].kind, TokenKind::KwIf));
    assert!(matches!(toks[1].kind, TokenKind::KwElse));
    assert!(matches!(toks[2].kind, TokenKind::KwLoop));
    assert!(matches!(toks[3].kind, TokenKind::KwBreak));
    assert!(matches!(toks[4].kind, TokenKind::KwWith));
    assert!(matches!(toks[5].kind, TokenKind::Bool(true)));
    assert!(matches!(toks[6].kind, TokenKind::Bool(false)));
    assert_eq!(
        spans(&toks),
        vec![(0, 2), (3, 7), (8, 12), (13, 18), (19, 23), (24, 28), (29, 34)]
    );
}

#[test]
fn keyword_prefix_is_a_symbol() {
    let toks = lex_all("iffy loops");
    assert_eq!(toks.len(), 2);
    assert_eq!(symbol_text(&toks[0]), "iffy");
    assert_eq!(symbol_text(&toks[1]), "loops");
}

#[test]
fn lexes_symbols() {
    let toks = lex_all("dup +foo rot- **");
    assert_eq!(toks.len(), 4);
    assert_eq!(symbol_text(&toks[0]), "dup");
    assert_eq!(symbol_text(&toks[1]), "+foo");
    assert_eq!(symbol_text(&toks[2]), "rot-");
    assert_eq!(symbol_text(&toks[3]), "**");
    assert_eq!(spans(&toks), vec![(0, 3), (4, 8), (9, 13), (14, 16)]);
}

#[test]
fn lone_minus_is_a_symbol() {
    let toks = lex_all("- 3");
    assert_eq!(toks.len(), 2);
    assert_eq!(symbol_text(&toks[0]), "-");
    assert!(matches!(toks[1].kind, TokenKind::Int(3)));
    assert_eq!(spans(&toks), vec![(0, 1), (2, 3)]);
}

#[test]
fn int_then_symbol_without_space() {
    let toks = lex_all("1abc");
    assert_eq!(toks.len(), 2);
    assert!(matches!(toks[0].kind, TokenKind::Int(1)));
    assert_eq!(symbol_text(&toks[1]), "abc");
    assert_eq!(spans(&toks), vec![(0, 1), (1, 4)]);
}

#[test]
fn lexes_int_limits() {
    let toks = lex_all("2147483647 -2147483648");
    assert!(matches!(toks[0].kind, TokenKind::Int(2147483647)));
    assert!(matches!(toks[1].kind, TokenKind::Int(-2147483648)));
    assert_eq!(spans(&toks), vec![(0, 10), (11, 22)]);
}

#[test]
fn int_out_of_range_is_refused() {
    let mut l = Lexer::new("1 99999999999".to_string());
    assert!(!l.try_all_checked());
    let mut l = Lexer::new("2147483648".to_string());
    assert!(!l.try_all_checked());
}

#[test]
fn lexes_decimal_numbers_as_text() {
    let toks = lex_all("3.25 -0.5");
    assert_eq!(toks.len(), 2);
    match &toks[0].kind {
        TokenKind::Number(t) => assert_eq!(t, "3.25"),
        other => panic!("{:?}", other),
    }
    match &toks[1].kind {
        TokenKind::Number(t) => assert_eq!(t, "-0.5"),
        other => panic!("{:?}", other),
    }
    assert_eq!(spans(&toks), vec![(0, 4), (5, 9)]);
}

#[test]
fn dangling_floating_point() {
    let toks = lex_all("1.");
    assert_eq!(toks.len(), 1);
    assert_eq!(error_text(&toks[0]), "Dangling floating point");
    assert_eq!(spans(&toks), vec![(1, 2)]);

    let toks = lex_all("12.x");
    assert_eq!(toks.len(), 2);
    assert_eq!(error_text(&toks[0]), "Dangling floating point");
    assert_eq!(symbol_text(&toks[1]), "x");
    assert_eq!(spans(&toks), vec![(2, 3), (3, 4)]);
}

#[test]
fn lexes_strings_with_escapes() {
    let src = "\"a\\nb\\\\c\\\"d\\te\"";
    let toks = lex_all(src);
    assert_eq!(toks.len(), 1);
    match &toks[0].kind {
        TokenKind::String(s) => assert_eq!(s, "a\nb\\c\"d\te"),
        other => panic!("{:?}", other),
    }
    assert_eq!(spans(&toks), vec![(0, src.len())]);
}

#[test]
fn unknown_escape_is_kept() {
    let toks = lex_all("\"\\q\"");
    match &toks[0].kind {
        TokenKind::String(s) => assert_eq!(s, "\\q"),
        other => panic!("{:?}", other),
    }
}

#[test]
fn string_with_multibyte_chars() {
    let toks = lex_all("\"é→\" x");
    assert_eq!(toks.len(), 2);
    match &toks[0].kind {
        TokenKind::String(s) => assert_eq!(s, "é→"),
        other => panic!("{:?}", other),
    }
    assert_eq!(spans(&toks), vec![(0, 7), (8, 9)]);
}

#[test]
fn unclosed_string() {
    let toks = lex_all("\"abc");
    assert_eq!(toks.len(), 1);
    assert_eq!(error_text(&toks[0]), "Unclosed string");
    assert_eq!(spans(&toks), vec![(0, 4)]);
}

#[test]
fn lexes_chars() {
    let toks = lex_all("'x' '\\n' '\\\\'");
    assert_eq!(toks.len(), 3);
    assert!(matches!(toks[0].kind, TokenKind::Char('x')));
    assert!(matches!(toks[1].kind, TokenKind::Char('\n')));
    assert!(matches!(toks[2].kind, TokenKind::Char('\\')));
    assert_eq!(spans(&toks), vec![(0, 3), (4, 8), (9, 13)]);
}

#[test]
fn unclosed_char_quote() {
    let toks = lex_all("'");
    assert_eq!(toks.len(), 1);
    assert_eq!(error_text(&toks[0]), "Unclosed character quote \"'\"");
    assert_eq!(spans(&toks), vec![(0, 1)]);

    let toks = lex_all("'ab'");
    assert_eq!(toks.len(), 2);
    assert_eq!(error_text(&toks[0]), "Unclosed character quote \"'\"");
    assert_eq!(symbol_text(&toks[1]), "b'");
    assert_eq!(spans(&toks), vec![(0, 2), (2, 4)]);
}

#[test]
fn comments_are_skipped() {
    let toks = lex_all("a // hi\nb");
    assert_eq!(toks.len(), 2);
    assert_eq!(spans(&toks), vec![(0, 1), (8, 9)]);

    let toks = lex_all("a /* x\ny */ b");
    assert_eq!(toks.len(), 2);
    assert_eq!(spans(&toks), vec![(0, 1), (12, 13)]);

    let toks = lex_all("a /* never closed");
    assert_eq!(toks.len(), 1);
}

#[test]
fn unknown_token_marks_its_character() {
    let toks = lex_all("→");
    assert_eq!(toks.len(), 1);
    assert_eq!(error_text(&toks[0]), "Unknown token");
    assert_eq!(spans(&toks), vec![(0, 3)]);

    let toks = lex_all("a→b");
    assert_eq!(toks.len(), 3);
    assert_eq!(symbol_text(&toks[0]), "a");
    assert_eq!(error_text(&toks[1]), "Unknown token");
    assert_eq!(symbol_text(&toks[2]), "b");
    assert_eq!(spans(&toks), vec![(0, 1), (1, 4), (4, 5)]);
}

#[test]
fn unknown_token_can_be_located() {
    let src = "x\n→";
    let toks = lex_all(src);
    let errs = fae::error::FErrorManager::new(src.to_string());
    assert!(errs.can_locate(&toks[1].pos));
    let info = errs.section_at_pos(&toks[1].pos);
    assert_eq!(info.render(), vec!["2 | →".to_string(), "  | ^".to_string()]);
}

#[test]
fn spans_are_nonempty_and_fewer_than_bytes() {
    let src = "'a' \"s\" 1. → x /* c */ 12 ()";
    let toks = lex_all(src);
    assert!(toks.len() <= src.len());
    for t in &toks {
        assert!(t.pos.start < t.pos.end);
    }
}

#[test]
fn unicode_whitespace_and_letters() {
    let toks = lex_all("a\u{3000}é1\u{a0}b");
    assert_eq!(toks.len(), 3);
    assert_eq!(symbol_text(&toks[0]), "a");
    assert_eq!(symbol_text(&toks[1]), "é1");
    assert_eq!(symbol_text(&toks[2]), "b");
    assert_eq!(spans(&toks), vec![(0, 1), (4, 7), (9, 10)]);
}

#[test]
fn symbolic_characters() {
    assert!(is_symbolic('a'));
    assert!(is_symbolic('Z'));
    assert!(is_symbolic('7'));
    assert!(is_symbolic('+'));
    assert!(is_symbolic('\''));
    assert!(is_symbolic('é'));
    assert!(is_symbolic('λ'));
    assert!(!is_symbolic('"'));
    assert!(!is_symbolic('('));
    assert!(!is_symbolic(')'));
    assert!(!is_symbolic('{'));
    assert!(!is_symbolic('}'));
    assert!(!is_symbolic('['));
    assert!(!is_symbolic(']'));
    assert!(!is_symbolic(','));
    assert!(!is_symbolic(' '));
    assert!(!is_symbolic('→'));
}

#[test]
fn escapes_table() {
    let m = escape_map();
    assert_eq!(m.len(), 4);
    assert!(m.contains(&('n', '\n')));
    assert!(m.contains(&('\\', '\\')));
    assert!(m.contains(&('t', '\t')));
    assert!(m.contains(&('"', '"')));
}

#[test]
fn token_spans_are_ordered() {
    let src = "f() { \"s\" 1.5 'c' loop { x } } // end\n→ -7";
    let toks = lex_all(src);
    let mut last_end = 0;
    for t in &toks {
        assert!(last_end <= t.pos.start);
        assert!(t.pos.start <= t.pos.end);
        assert!(t.pos.end <= src.len());
        last_end = t.pos.end;
    }
    assert_eq!(toks.len(), 14);
}

#[test]
fn all_unicode_white_space_is_skipped() {
    let src = "a\u{85}\u{1680}\u{2000}\u{200a}\u{2028}\u{2029}\u{202f}\u{205f}\u{b}\u{c}b";
    let toks = lex_all(src);
    assert_eq!(toks.len(), 2);
    let toks = lex_all("a\u{200b}b");
    assert_eq!(toks.len(), 3);
    assert_eq!(error_text(&toks[1]), "Unknown token");
    let toks = lex_all("a\u{180e}b");
    assert_eq!(toks.len(), 3);
}

#[test]
fn tokens_accessor() {
    let mut l = Lexer::new("x 1".to_string());
    assert!(l.try_all_checked());
    assert_eq!(l.tokens().len(), 2);
    let toks = l.into_tokens();
    assert_eq!(spans(&toks), vec![(0, 1), (2, 3)]);
}
