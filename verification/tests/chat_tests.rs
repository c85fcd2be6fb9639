use agentik::chat::{render_assistant_text, render_line_owned, scroll_range, ChatLine, RenderedLine};
use agentik::table::SpanStyle;

fn styled(line: &RenderedLine) -> Option<(String, Vec<SpanStyle>)> {
    match line {
        RenderedLine::Styled(spans) => Some((
            spans.iter().map(|s| s.text.as_str()).collect(),
            spans.iter().map(|s| s.style).collect(),
        )),
        RenderedLine::Markdown(_) => None,
    }
}

fn texts(lines: &[RenderedLine]) -> Vec<String> {
    lines
        .iter()
        .map(|l| match l {
            RenderedLine::Styled(spans) => spans.iter().map(|s| s.text.as_str()).collect(),
            RenderedLine::Markdown(m) => format!("md:{m}"),
        })
        .collect()
}

#[test]
fn user_message_has_label_and_one_line_per_text_line() {
    let r = render_line_owned(&ChatLine::User("hi\nthere".to_string()), 40);
    assert_eq!(texts(&r), vec!["You", "hi", "there"]);
    assert_eq!(styled(&r[0]).unwrap().1, vec![SpanStyle::UserLabel]);
    assert_eq!(styled(&r[1]).unwrap().1, vec![SpanStyle::UserText]);
}

#[test]
fn thinking_lines_are_prefixed() {
    let r = render_line_owned(&ChatLine::Thinking("a\nb".to_string()), 40);
    assert_eq!(texts(&r), vec!["💭 a", "   b"]);
    assert_eq!(styled(&r[0]).unwrap().1, vec![SpanStyle::Dim]);
}

#[test]
fn tool_call_lists_input_lines() {
    let call = ChatLine::ToolCall { name: "bash".to_string(), input: "x=1\ny=2".to_string() };
    let r = render_line_owned(&call, 40);
    assert_eq!(texts(&r), vec!["🔧 Calling: bash", "   x=1", "   y=2"]);
    assert_eq!(styled(&r[0]).unwrap().1, vec![SpanStyle::ToolCall]);
    assert_eq!(styled(&r[1]).unwrap().1, vec![SpanStyle::Dim]);

    let bare = ChatLine::ToolCall { name: "ls".to_string(), input: String::new() };
    assert_eq!(texts(&render_line_owned(&bare, 40)), vec!["🔧 Calling: ls"]);
}

#[test]
fn background_tool_is_one_line() {
    let bg = ChatLine::ToolBackground { id: "7".to_string(), name: "build".to_string() };
    let r = render_line_owned(&bg, 40);
    assert_eq!(texts(&r), vec!["⏳ Calling: build (running in background)"]);
    assert_eq!(styled(&r[0]).unwrap().1, vec![SpanStyle::ToolBackground]);
}

#[test]
fn tool_results_show_outcome() {
    let ok = ChatLine::ToolResult { ok: true, content: "done\nmore".to_string() };
    let r = render_line_owned(&ok, 40);
    assert_eq!(texts(&r), vec!["✓ done", "  more"]);
    assert_eq!(styled(&r[0]).unwrap().1, vec![SpanStyle::ToolOk]);

    let failed = ChatLine::ToolResult { ok: false, content: "nope".to_string() };
    let r = render_line_owned(&failed, 40);
    assert_eq!(texts(&r), vec!["✗ nope"]);
    assert_eq!(styled(&r[0]).unwrap().1, vec![SpanStyle::Failure]);
}

#[test]
fn errors_and_separators() {
    let r = render_line_owned(&ChatLine::Error("boom\nagain".to_string()), 40);
    assert_eq!(texts(&r), vec!["✗ Error: boom", "         again"]);
    assert_eq!(styled(&r[0]).unwrap().1, vec![SpanStyle::Failure]);

    let r = render_line_owned(&ChatLine::Separator, 5);
    assert_eq!(texts(&r), vec!["─────"]);
}

#[test]
fn assistant_text_splits_markdown_and_tables() {
    let text = "Hello\n| a | b |\n| - | - |\n| 1 | 2 |\nBye";
    let r = render_line_owned(&ChatLine::Assistant(text.to_string()), 80);
    assert_eq!(
        texts(&r),
        vec![
            "Assistant",
            "md:Hello",
            "╭───┬───╮",
            "│ a │ b │",
            "├───┼───┤",
            "│ 1 │ 2 │",
            "╰───┴───╯",
            "md:Bye",
        ]
    );
}

#[test]
fn assistant_text_without_tables_is_one_segment() {
    let r = render_assistant_text("one\ntwo", 80);
    assert_eq!(texts(&r), vec!["md:one\ntwo"]);
    assert!(render_assistant_text("", 80).is_empty());
}

#[test]
fn scrolling_only_when_lines_overflow() {
    assert_eq!(scroll_range(30, 10), Some(20));
    assert_eq!(scroll_range(10, 10), None);
    assert_eq!(scroll_range(3, 10), None);
}
