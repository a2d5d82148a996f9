use treelang::source::count_digits;
use treelang::source::SourceContext;
use treelang::Offset;
use treelang::Span;

fn offset(byte: usize, line_number: usize) -> Offset {
    Offset { byte, line_number }
}

#[test]
fn line_spans() {
    let content = "abc\ndef";
    assert_eq!(content.line_span(offset(0, 1)), Span { offset: offset(0, 1), len: 3 });
    assert_eq!(content.line_span(offset(3, 1)), Span { offset: offset(0, 1), len: 3 });
    assert_eq!(content.line_span(offset(4, 2)), Span { offset: offset(4, 2), len: 3 });
    assert_eq!(content.line_span(offset(7, 2)), Span { offset: offset(4, 2), len: 3 });
}

#[test]
fn span_strs() {
    let content = "abc\ndef";
    assert_eq!(content.span_str(Span { offset: offset(4, 2), len: 3 }), "def");
}

#[test]
fn line_span_before() {
    let content = "abc\ndef";
    assert_eq!(
        content.line_span_before(offset(4, 2)),
        Some(Span { offset: offset(0, 1), len: 3 })
    );
}

#[test]
fn line_strs() {
    let content = "abc\ndef";
    assert_eq!(content.line_str(offset(0, 1)), "abc");
    assert_eq!(content.line_str(offset(3, 1)), "abc");
    assert_eq!(content.line_str(offset(4, 2)), "def");
    assert_eq!(content.line_str(offset(7, 2)), "def");
}

#[test]
fn byte_offsets_on_line() {
    let content = "abc\ndef";
    assert_eq!(content.byte_offset_on_line(offset(0, 1)), 0);
    assert_eq!(content.byte_offset_on_line(offset(3, 1)), 3);
    assert_eq!(content.byte_offset_on_line(offset(4, 2)), 0);
    assert_eq!(content.byte_offset_on_line(offset(7, 2)), 3);
}

#[test]
fn first_line_has_no_line_before() {
    let content = "abc\ndef";
    assert_eq!(content.line_span_before(offset(2, 1)), None);
}

#[test]
fn digit_counts() {
    assert_eq!(count_digits(0), 1);
    assert_eq!(count_digits(9), 1);
    assert_eq!(count_digits(10), 2);
    assert_eq!(count_digits(99), 2);
    assert_eq!(count_digits(100), 3);
    assert_eq!(count_digits(12345), 5);
}

#[test]
fn offset_section_renders_with_context_line() {
    let content = "abc\ndef";
    let section = content.offset_section_display(offset(4, 2));
    assert_eq!(section.render(), " 1 | abc\n 2 | def\n   | ^\n");
}

#[test]
fn span_section_renders_caret_per_character() {
    let content = "abc\ndef";
    let section = content.span_section_display(Span { offset: offset(4, 2), len: 3 });
    assert_eq!(section.render(), " 1 | abc\n 2 | def\n   | ^^^\n");
}

#[test]
fn section_elides_distant_lines() {
    let content = "a\nb\nc";
    let section = content.offset_section_display(offset(4, 3));
    assert_eq!(section.render(), " 1 | ...\n 2 | b\n 3 | c\n   | ^\n");
}

#[test]
fn highlight_preserves_tabs_in_lead() {
    let content = "\tabc";
    let highlight = content.offset_highlight_display(offset(1, 1));
    assert_eq!(highlight.render(), "\t^");
}

#[test]
fn section_on_first_line_has_no_context() {
    let content = "abc";
    let section = content.offset_section_display(offset(1, 1));
    assert_eq!(section.render(), " 1 | abc\n   |  ^\n");
}

#[test]
fn line_numbers_align_to_widest() {
    let mut content = String::new();
    for _ in 0..9 {
        content.push_str("x\n");
    }
    content.push_str("yz");
    let section = content.offset_section_display(offset(19, 10));
    assert_eq!(section.render(), "  8 | ...\n  9 | x\n 10 | yz\n    |  ^\n");
}
