use agentik::input::{input_title, render_input_text, InputMode, InputState, InputWidget, KeyCode};
use agentik::table::SpanStyle;

fn typed(s: &str) -> InputState {
    let mut st = InputState::new();
    for c in s.chars() {
        st.insert(c);
    }
    st
}

#[test]
fn typing_inserts_at_the_cursor() {
    let mut st = typed("ac");
    st.cursor_left();
    st.insert('b');
    assert_eq!(st.value(), "abc");
    assert_eq!(st.cursor(), 2);
}

#[test]
fn backspace_undoes_typing() {
    let mut st = typed("héllo");
    st.cursor_left();
    st.cursor_left();
    st.insert('X');
    st.backspace();
    assert_eq!(st.value(), "héllo");
    assert_eq!(st.cursor(), 3);
}

#[test]
fn delete_removes_under_cursor() {
    let mut st = typed("abc");
    st.cursor_home();
    st.delete();
    assert_eq!(st.value(), "bc");
    assert_eq!(st.cursor(), 0);
    st.cursor_end();
    st.delete();
    assert_eq!(st.value(), "bc");
}

#[test]
fn cursor_moves_stay_in_text() {
    let mut st = typed("ab");
    st.cursor_right();
    assert_eq!(st.cursor(), 2);
    st.cursor_home();
    st.cursor_left();
    assert_eq!(st.cursor(), 0);
    st.backspace();
    assert_eq!(st.value(), "ab");
}

#[test]
fn keys_are_consumed_except_others() {
    let mut st = InputState::new();
    assert!(st.handle_key(KeyCode::Char('x')));
    assert!(st.handle_key(KeyCode::Left));
    assert!(!st.handle_key(KeyCode::Other));
    assert_eq!(st.value(), "x");
    assert_eq!(st.cursor(), 0);
    st.clear();
    assert!(st.is_empty());
    assert_eq!(st.cursor(), 0);
}

#[test]
fn input_text_shows_cursor() {
    let mut st = typed("ab");
    st.cursor_left();
    let spans = render_input_text(&st, "Type...");
    let parts: Vec<(&str, SpanStyle)> = spans.iter().map(|s| (s.text.as_str(), s.style)).collect();
    assert_eq!(parts, vec![("a", SpanStyle::Plain), ("b", SpanStyle::Cursor), ("", SpanStyle::Plain)]);

    st.cursor_end();
    let spans = render_input_text(&st, "Type...");
    assert_eq!(spans[1].text, " ");

    let empty = render_input_text(&InputState::new(), "Type...");
    assert_eq!(empty.len(), 1);
    assert_eq!(empty[0].text, "Type...");
    assert_eq!(empty[0].style, SpanStyle::Dim);
}

#[test]
fn widget_title_and_disabled_content() {
    let w = InputWidget { disabled: true, title: "in", placeholder: "" };
    assert_eq!(w.border_title(), " in ");
    let c = w.content(&typed("z"));
    assert_eq!(c[0].text, "■ running...");
    assert_eq!(input_title(true, InputMode::Input), " ■ input (running) ");
    assert_eq!(input_title(false, InputMode::Browse), "▏browse (Enter=edit) ");
    assert_eq!(input_title(false, InputMode::Input), " > input ");
}

#[test]
fn delete_after_moving_left_undoes_typing() {
    let mut st = typed("abc");
    st.cursor_left();
    st.insert('Z');
    st.cursor_left();
    st.delete();
    assert_eq!(st.value(), "abc");
    assert_eq!(st.cursor(), 2);
}

#[test]
fn left_then_right_returns() {
    let mut st = typed("xyz");
    st.cursor_left();
    st.cursor_left();
    let c = st.cursor();
    st.cursor_left();
    st.cursor_right();
    assert_eq!(st.cursor(), c);
    assert_eq!(st.value(), "xyz");
    let d = InputState::default();
    assert!(d.is_empty());
}
