use fae::error::{number_width, FErrorManager, LineInfo};
use fae::lexer::Span;

fn marks_of(info: &LineInfo) -> Vec<(usize, usize)> {
    info.marks().iter().map(|m| (m.before, m.marks)).collect()
}

#[test]
fn section_of_one_line() {
    let errs = FErrorManager::new("ab\ncd\nef".to_string());
    let span = Span { start: 3, end: 5 };
    assert!(errs.can_locate(&span));
    let info = errs.section_at_pos(&span);
    assert_eq!(info.lines(), &vec!["cd".to_string()]);
    assert_eq!(info.first_line_no(), 2);
    assert_eq!(info.last_line_no(), 2);
    assert_eq!(marks_of(&info), vec![(0, 2)]);
}

#[test]
fn section_of_two_lines() {
    let errs = FErrorManager::new("ab\ncd\nef".to_string());
    let info = errs.section_at_pos(&Span { start: 1, end: 4 });
    assert_eq!(info.lines(), &vec!["ab".to_string(), "cd".to_string()]);
    assert_eq!(info.first_line_no(), 1);
    assert_eq!(info.last_line_no(), 2);
    assert_eq!(marks_of(&info), vec![(1, 1), (1, 1)]);
}

#[test]
fn section_at_end_of_file() {
    let errs = FErrorManager::new("abc".to_string());
    let info = errs.section_at_pos(&Span { start: 3, end: 3 });
    assert_eq!(info.lines(), &vec!["abc".to_string()]);
    assert_eq!(info.first_line_no(), 1);
    assert_eq!(marks_of(&info), vec![(3, 0)]);
}

#[test]
fn section_ending_on_a_newline() {
    let errs = FErrorManager::new("x\nab\n".to_string());
    let info = errs.section_at_pos(&Span { start: 4, end: 5 });
    assert_eq!(info.lines(), &vec!["ab".to_string()]);
    assert_eq!(info.first_line_no(), 2);
    assert_eq!(marks_of(&info), vec![(2, 0)]);
}

#[test]
fn section_of_an_empty_line() {
    let errs = FErrorManager::new("a\n\nb".to_string());
    let info = errs.section_at_pos(&Span { start: 2, end: 2 });
    assert_eq!(info.lines(), &vec!["".to_string()]);
    assert_eq!(info.first_line_no(), 2);
    assert_eq!(marks_of(&info), vec![(0, 0)]);
}

#[test]
fn marks_count_characters_not_bytes() {
    let errs = FErrorManager::new("é→x".to_string());
    let info = errs.section_at_pos(&Span { start: 2, end: 5 });
    assert_eq!(info.lines(), &vec!["é→x".to_string()]);
    assert_eq!(marks_of(&info), vec![(1, 1)]);
}

#[test]
fn locating_needs_character_boundaries() {
    let errs = FErrorManager::new("é".to_string());
    assert!(errs.can_locate(&Span { start: 0, end: 2 }));
    assert!(!errs.can_locate(&Span { start: 1, end: 2 }));
    assert!(!errs.can_locate(&Span { start: 0, end: 1 }));
    assert!(!errs.can_locate(&Span { start: 0, end: 3 }));
    let errs = FErrorManager::new("abc".to_string());
    assert!(!errs.can_locate(&Span { start: 5, end: 5 }));
}

#[test]
fn locating_needs_start_line_before_end_line() {
    let errs = FErrorManager::new("ab\ncd".to_string());
    assert!(errs.can_locate(&Span { start: 4, end: 1 }));
    let info = errs.section_at_pos(&Span { start: 4, end: 1 });
    assert!(info.lines().is_empty());
    let errs = FErrorManager::new("ab\ncd\nef".to_string());
    assert!(!errs.can_locate(&Span { start: 6, end: 0 }));
}

#[test]
fn line_info_built_by_hand() {
    let info = LineInfo::new(vec!["x".to_string(), "yz".to_string()], 10, 11, 13, 7);
    assert_eq!(info.first_line_no(), 7);
    assert_eq!(info.last_line_no(), 8);
    assert_eq!(info.lines().len(), 2);
    assert_eq!(marks_of(&info), vec![(1, 0), (1, 1)]);
    let empty = LineInfo::new(Vec::new(), 0, 0, 0, 3);
    assert_eq!(empty.last_line_no(), 3);
    assert!(empty.marks().is_empty());
}

#[test]
fn mark_before_section_start_counts_from_zero() {
    let info = LineInfo::new(vec!["abc".to_string()], 5, 2, 6, 1);
    assert_eq!(marks_of(&info), vec![(0, 1)]);
}

#[test]
fn widths_of_line_numbers() {
    assert_eq!(number_width(0), 1);
    assert_eq!(number_width(9), 1);
    assert_eq!(number_width(10), 2);
    assert_eq!(number_width(99), 2);
    assert_eq!(number_width(100), 3);
    assert_eq!(number_width(12345), 5);
    assert_eq!(number_width(usize::MAX), usize::MAX.to_string().len());
}

#[test]
fn section_covers_span_and_lines_have_no_newline() {
    let src = "one\ntwo three\nfour\n";
    let errs = FErrorManager::new(src.to_string());
    let info = errs.section_at_pos(&Span { start: 8, end: 16 });
    assert_eq!(info.lines(), &vec!["two three".to_string(), "four".to_string()]);
    for l in info.lines() {
        assert!(!l.contains('\n'));
    }
    assert_eq!(info.first_line_no(), 2);
    assert_eq!(info.last_line_no(), 3);
}

#[test]
fn render_one_line() {
    let errs = FErrorManager::new("ab\ncd\nef".to_string());
    let info = errs.section_at_pos(&Span { start: 3, end: 5 });
    assert_eq!(info.render(), vec!["2 | cd".to_string(), "  | ^^".to_string()]);
}

#[test]
fn render_aligns_numbers_and_skips_unmarked_lines() {
    let info = LineInfo::new(vec!["x".to_string(), "yz".to_string()], 10, 11, 13, 9);
    assert_eq!(
        info.render(),
        vec![
            " 9 | x".to_string(),
            "   | ".to_string(),
            "10 | yz".to_string(),
            "   |  ^".to_string(),
        ]
    );
}

#[test]
fn render_counts_characters() {
    let errs = FErrorManager::new("é→x".to_string());
    let info = errs.section_at_pos(&Span { start: 2, end: 5 });
    assert_eq!(info.render(), vec!["1 | é→x".to_string(), "  |  ^".to_string()]);
}

#[test]
fn render_at_the_largest_line_number() {
    let info = LineInfo::new(vec!["x".to_string()], 0, 0, 1, usize::MAX);
    let no = usize::MAX.to_string();
    let pad = " ".repeat(no.len());
    assert_eq!(info.render(), vec![format!("{no} | x"), format!("{pad} | ^")]);
}
