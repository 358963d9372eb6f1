use ceport::{
    underline, LabelStyle, fits, plan, render_diagnostic, Diagnostic, InvalidDiagnostic, Label, Level, Renderer,
    SourceCodes, Span, Style, TerminalRenderer,
};

const FIZZ: &str = "module FizzBuzz where\n\nfizz₁ : Nat → String\nfizz₁ num = case (mod num 5) (mod num 3) of\n    0 0 => \"FizzBuzz\"\n    0 _ => \"Fizz\"\n    _ 0 => \"Buzz\"\n    _ _ => num\n\nfizz₂ : Nat → String\nfizz₂ num =\n    case (mod num 5) (mod num 3) of\n        0 0 => \"FizzBuzz\"\n        0 _ => \"Fizz\"\n        _ 0 => \"Buzz\"\n        _ _ => num\n";

fn text(spans: &[Span]) -> String {
    spans.iter().map(|s| s.text.as_str()).collect()
}

fn lines(spans: &[Span]) -> Vec<String> {
    text(spans).lines().map(|l| l.to_string()).collect()
}

#[test]
fn term_test_term() {
    let term = TerminalRenderer;
    let mut files = SourceCodes::default();
    files.add("FizzBuzz,fun", FIZZ);
    let out = term
        .render(
            &files,
            &Diagnostic::bug("`case` clauses have incompatible types")
                .with_code(10)
                .with_label(
                    Label::new(0, 328..331, "expected `String`, found `Nat`")
                        .with_secondary(211..331, "`case` clauses have incompatible types")
                        .with_secondary(258..268, "expected type `String` found here")
                        .with_secondary(258..331, "this is found to be of type `String`")
                        .with_secondary(284..290, "this is found to be of type `String`")
                        .with_secondary(306..312, "this is found to be of type `String`")
                        .with_secondary(186..192, "expected type `String` found here"),
                )
                .with_note("expected type `String`\n        found type `Nat`\n"),
        )
        .unwrap();
    let all = lines(&out);
    assert_eq!(all[0], "  bug[000010]: `case` clauses have incompatible types");
    assert_eq!(all[1], "   ┌─ FizzBuzz,fun");
    assert!(all.iter().any(|l| l.ends_with("^^^ expected `String`, found `Nat`")));
}

#[test]
fn test_term() {
    let mut files = SourceCodes::default();
    files.add("FizzBuzz.fun", FIZZ);
    let diagnostic = Diagnostic::new("`~` cannot be used as a unary operator")
        .with_code(10)
        .with_note("\n                    expected type `String`\n                    found type `Nat`\n                ")
        .with_label(Label::primary(0, 328..331, "expected `String`, found `Nat`"))
        .with_label(Label::primary(0, 211..331, "`case` clauses have incompatible types"))
        .with_label(Label::primary(0, 258..268, "this is found to be of type `String`"))
        .with_label(Label::primary(0, 284..290, "this is found to be of type `String`"))
        .with_label(Label::primary(0, 306..312, "this is found to be of type `String`"))
        .with_label(Label::primary(0, 186..192, "expected type `String` found here"));
    for level in [Level::Bug, Level::Error, Level::Warning] {
        let out = TerminalRenderer
            .render(&files, &diagnostic.clone().with_level(level))
            .unwrap();
        assert_eq!(out.iter().filter(|s| s.text.contains("┌─ FizzBuzz.fun")).count(), 1);
        assert_eq!(out.iter().filter(|s| s.text.contains("found type `Nat`")).count(), 1);
    }
}

#[test]
fn end_to_end_single_label() {
    let mut files = SourceCodes::new();
    let id = files.add("demo.fun", "fizz : Nat -> String\n");
    let d = Diagnostic::error("type mismatch")
        .with_code(10)
        .with_label(Label::new(id.0, 0..4, "here"));
    let out = render_diagnostic(&files, &d);
    assert_eq!(
        lines(&out),
        vec![
            "error[000010]: type mismatch",
            "  ┌─ demo.fun",
            "1 │  fizz : Nat -> String",
            "  │  ^^^^ here",
        ]
    );
    assert_eq!(out[0].style, Style::Error);
    assert_eq!(out[0].text, "error");
    assert_eq!(out[1].text, "[000010]");
    let caret = out.iter().find(|s| s.text.starts_with('^')).unwrap();
    assert_eq!(caret.style, Style::Primary);
}

#[test]
fn multi_line_label_keeps_its_lane() {
    let mut files = SourceCodes::new();
    let id = files.add("t", "ab\ncdef\ngh\nij\n");
    let d = Diagnostic::error("span")
        .with_label(Label::new(id.0, 5..11, "whole").with_secondary(8..10, "middle"));
    let out = render_diagnostic(&files, &d);
    assert_eq!(
        lines(&out),
        vec![
            "error: span",
            "  ┌─ t",
            "2 │    cdef",
            "  │ ╭────'",
            "3 │ │  gh",
            "  │    -- middle",
            "4 │ │  ij",
            "  │ ╰──^ whole",
        ]
    );
}

#[test]
fn multi_line_opens_before_it_closes() {
    let mut files = SourceCodes::new();
    let id = files.add("t", "ab\ncd\nef\n");
    let d = Diagnostic::warning("order")
        .with_label(Label::new(id.0, 7..8, "last").with_secondary(1..4, "span"));
    let all = lines(&render_diagnostic(&files, &d));
    let open = all.iter().position(|l| l.contains('╭')).unwrap();
    let close = all.iter().position(|l| l.contains('╰')).unwrap();
    assert!(open < close);
    assert!(all[close].ends_with("^ span"));
    assert!(!all[open].contains("span"));
    assert_eq!(all[0], " warn: order");
}

#[test]
fn underline_uses_display_width() {
    let mut files = SourceCodes::new();
    let id = files.add("t", "a → b\n");
    let d = Diagnostic::note("arrow").with_label(Label::new(id.0, 2..5, "this"));
    let all = lines(&render_diagnostic(&files, &d));
    assert_eq!(all[0], " note: arrow");
    assert_eq!(all[2], "1 │  a → b");
    assert_eq!(all[3], "  │    ^ this");
}

#[test]
fn wide_characters_take_two_columns() {
    let mut files = SourceCodes::new();
    let id = files.add("t", "漢字x\n");
    let d = Diagnostic::help("wide").with_label(Label::new(id.0, 6..7, "x"));
    let all = lines(&render_diagnostic(&files, &d));
    assert_eq!(all[0], " help: wide");
    assert_eq!(all[3], "  │      ^ x");
}

#[test]
fn secondary_inline_uses_dashes_and_last_wins() {
    let mut files = SourceCodes::new();
    let id = files.add("t", "abcdef\n");
    let d = Diagnostic::error("e").with_label(
        Label::new(id.0, 0..1, "first")
            .with_secondary(2..4, "second")
            .with_secondary(4..5, "third"),
    );
    let all = lines(&render_diagnostic(&files, &d));
    assert_eq!(all.len(), 4);
    assert_eq!(all[3], "  │      - third");
}

#[test]
fn empty_region_has_empty_underline() {
    let mut files = SourceCodes::new();
    let id = files.add("t", "abc\n");
    let d = Diagnostic::error("e").with_label(Label::new(id.0, 1..1, "here"));
    let all = lines(&render_diagnostic(&files, &d));
    assert_eq!(all[3], "  │    here");
}

#[test]
fn gutter_width_follows_largest_line() {
    let content = "x\n".repeat(1000);
    let mut files = SourceCodes::new();
    let id = files.add("big", &content);
    let l999 = Label::new(id.0, 998 * 2..998 * 2 + 1, "a");
    let p = plan(&files, id, &vec![l999.primary.clone()]);
    assert_eq!(p.max_line, 999);
    assert_eq!(p.gutter, 3);
    let l1000 = Label::new(id.0, 999 * 2..999 * 2 + 1, "b");
    let p = plan(&files, id, &vec![l1000.primary.clone()]);
    assert_eq!(p.max_line, 1000);
    assert_eq!(p.gutter, 4);
    let d = Diagnostic::error("e").with_label(Label::new(id.0, 0..1, "a").with_secondary(999 * 2..999 * 2 + 1, "b"));
    let all = lines(&render_diagnostic(&files, &d));
    assert_eq!(all[1], "     ┌─ big");
    assert_eq!(all[2], "   1 │  x");
    assert_eq!(all[4], "1000 │  x");
}

#[test]
fn notes_follow_each_excerpt() {
    let mut files = SourceCodes::new();
    let id = files.add("t", "abc\n");
    let d = Diagnostic::error("e")
        .with_note("one")
        .with_note("two")
        .with_label(Label::new(id.0, 0..1, "x"));
    let all = lines(&render_diagnostic(&files, &d));
    assert_eq!(all[4], "  = one");
    assert_eq!(all[5], "  = two");
}

#[test]
fn labels_of_one_file_share_one_excerpt() {
    let mut files = SourceCodes::new();
    let a = files.add("a", "abc\ndef\n");
    let d = Diagnostic::error("e")
        .with_note("n")
        .with_label(Label::new(a.0, 4..5, "second line"))
        .with_label(Label::new(a.0, 0..1, "first line"));
    assert_eq!(
        lines(&render_diagnostic(&files, &d)),
        vec![
            "error: e",
            "  ┌─ a",
            "1 │  abc",
            "  │  ^ first line",
            "2 │  def",
            "  │  ^ second line",
            "  = n",
        ]
    );
}

#[test]
fn files_come_in_order_of_first_label_and_notes_come_once() {
    let mut files = SourceCodes::new();
    let a = files.add("a", "abc\n");
    let b = files.add("b", "x\n".repeat(12).as_str());
    let d = Diagnostic::error("e")
        .with_note("one")
        .with_note("two")
        .with_label(Label::new(b.0, 22..23, "in b"))
        .with_label(Label::new(a.0, 1..2, "in a"))
        .with_label(Label::styled(b.0, LabelStyle::Tertiary, 0..1, "also b"));
    assert_eq!(
        lines(&render_diagnostic(&files, &d)),
        vec![
            "error: e",
            "   ┌─ b",
            " 1 │  x",
            "   │  ~ also b",
            "12 │  x",
            "   │  ^ in b",
            "  ┌─ a",
            "1 │  abc",
            "  │   ^ in a",
            "  = one",
            "  = two",
        ]
    );
}

#[test]
fn four_label_styles_have_their_glyphs() {
    assert_eq!(underline(LabelStyle::Primary, 3, "m"), "^^^ m");
    assert_eq!(underline(LabelStyle::Secondary, 2, "m"), "-- m");
    assert_eq!(underline(LabelStyle::Tertiary, 1, "m"), "~ m");
    assert_eq!(underline(LabelStyle::Quaternary, 0, "m"), " m");
    let mut files = SourceCodes::new();
    let id = files.add("t", "abcd\n");
    let d = Diagnostic::error("e").with_label(
        Label::styled(id.0, LabelStyle::Quaternary, 0..2, "q"),
    );
    assert_eq!(lines(&render_diagnostic(&files, &d))[3], "  │  .. q");
}

#[test]
fn notes_without_labels() {
    let files = SourceCodes::new();
    let d = Diagnostic::error("alone").with_note("n");
    assert_eq!(lines(&render_diagnostic(&files, &d)), vec!["error: alone", " = n"]);
}

#[test]
fn long_code_is_not_truncated() {
    let files = SourceCodes::new();
    let d = Diagnostic::error("e").with_code(1234567);
    assert_eq!(lines(&render_diagnostic(&files, &d)), vec!["error[1234567]: e"]);
}

#[test]
fn invalid_labels_are_rejected() {
    let mut files = SourceCodes::new();
    let id = files.add("t", "a→b\n");
    let out_of_range = Diagnostic::error("e").with_label(Label::new(id.0, 0..9, "x"));
    assert!(!fits(&files, &out_of_range));
    assert_eq!(TerminalRenderer.render(&files, &out_of_range).err(), Some(InvalidDiagnostic));
    let split_char = Diagnostic::error("e").with_label(Label::new(id.0, 0..2, "x"));
    assert_eq!(TerminalRenderer.render(&files, &split_char).err(), Some(InvalidDiagnostic));
    let unknown_file = Diagnostic::error("e").with_label(Label::new(3, 0..1, "x"));
    assert_eq!(TerminalRenderer.render(&files, &unknown_file).err(), Some(InvalidDiagnostic));
    let fine = Diagnostic::error("e").with_label(Label::new(id.0, 0..4, "x"));
    assert!(TerminalRenderer.render(&files, &fine).is_ok());
}
