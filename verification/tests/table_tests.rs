use unicode_width::UnicodeWidthStr;
use agentik::table::{
    align_cell, is_table_separator, parse_align, pipe_inner, render_table_lines, shrink_widths,
    wrap_text, Align, SpanStyle,
};

#[test]
fn pipe_inner_handles_lone_pipe_without_panicking() {
    assert_eq!(pipe_inner("|"), None);
    assert_eq!(is_table_separator("|"), false);

    assert_eq!(pipe_inner("| a | b |"), Some(" a | b "));
    assert!(is_table_separator("| --- | --- |"));
    assert!(!is_table_separator("| a | b |"));

    assert_eq!(pipe_inner("||"), Some(""));
}

#[test]
fn parse_align_reads_separator_hints() {
    assert_eq!(parse_align("---"), Align::Left);
    assert_eq!(parse_align(":---"), Align::Left);
    assert_eq!(parse_align("---:"), Align::Right);
    assert_eq!(parse_align(":---:"), Align::Center);
    assert_eq!(parse_align("  :--:  "), Align::Center);
}

#[test]
fn wrap_text_breaks_to_display_width() {
    assert_eq!(wrap_text("hello world", 5), vec!["hello", "world"]);
    assert_eq!(wrap_text("abcdef", 3), vec!["abc", "def"]);
    assert_eq!(wrap_text("你好世界", 4), vec!["你好", "世界"]);
    assert_eq!(wrap_text("a  b", 10), vec!["a b"]);
    assert_eq!(wrap_text("", 5), vec![""]);
}

#[test]
fn shrink_widths_fits_to_target() {
    assert_eq!(shrink_widths(&[3, 5], 20), vec![3, 5]);
    let shrunken = shrink_widths(&[10, 30], 12);
    assert_eq!(shrunken.iter().sum::<usize>(), 12);
    assert!(shrunken.iter().all(|&w| w >= 1));
    assert!(shrunken[1] > shrunken[0]);
    let tiny = shrink_widths(&[5, 5, 5], 0);
    assert_eq!(tiny, vec![1, 1, 1]);
}

#[test]
fn render_table_lines_respects_width_and_aligns() {
    let src = "| name | age |\n| :--- | ---: |\n| Alice | 30 |\n| Bob | 5 |\n";
    let lines: Vec<&str> = src.lines().collect();
    let rendered = render_table_lines(&lines, 80);
    assert!(rendered.len() >= 6);
    assert!(rendered[0].iter().any(|s| s.text.contains('╭')));

    let narrow = render_table_lines(&lines, 12);
    assert!(narrow.len() >= rendered.len());
}

#[test]
fn wrap_keeps_every_line_break() {
    assert_eq!(wrap_text("ab\ncd", 10), vec!["ab", "cd"]);
    assert_eq!(wrap_text("a\n\nb", 10), vec!["a", "", "b"]);
    // A zero width gives one empty line.
    assert_eq!(wrap_text("abc", 0), vec![""]);
}

#[test]
fn wrap_counts_wide_characters_as_two_columns() {
    // A wide character that does not fit a one-column line still gets a line.
    assert_eq!(wrap_text("你好", 1), vec!["你", "好"]);
    // A word fills up the current line before breaking.
    assert_eq!(wrap_text("ab cd ef", 5), vec!["ab cd", "ef"]);
}

#[test]
fn shrunk_widths_sum_to_target_and_keep_floor() {
    let r = shrink_widths(&[7, 1, 12], 6);
    assert_eq!(r.iter().sum::<usize>(), 6);
    assert!(r.iter().all(|&w| w >= 1));
    // Exactly one column each when the target is the number of columns.
    assert_eq!(shrink_widths(&[9, 9], 2), vec![1, 1]);
    // Shares of the room above the floor: 9 and 27 of 36, 4 to hand out.
    assert_eq!(shrink_widths(&[10, 28], 6), vec![2, 4]);
}

#[test]
fn align_cell_pads_to_width() {
    assert_eq!(align_cell("ab", 5, Align::Left), "ab   ");
    assert_eq!(align_cell("ab", 5, Align::Right), "   ab");
    assert_eq!(align_cell("ab", 5, Align::Center), " ab  ");
    // Wider content is returned unchanged.
    assert_eq!(align_cell("abcdef", 3, Align::Right), "abcdef");
    // Wide characters count for two columns.
    assert_eq!(align_cell("你", 4, Align::Left), "你  ");
}

#[test]
fn render_table_draws_borders_and_cells() {
    let lines = vec!["| a | b |", "| --- | --- |", "| 1 | 2 |"];
    let rendered = render_table_lines(&lines, 80);
    // Top border, header, separator, one row, bottom border.
    assert_eq!(rendered.len(), 5);
    let text = |i: usize| -> String { rendered[i].iter().map(|s| s.text.as_str()).collect() };
    assert_eq!(text(0), "╭───┬───╮");
    assert_eq!(text(1), "│ a │ b │");
    assert_eq!(text(2), "├───┼───┤");
    assert_eq!(text(3), "│ 1 │ 2 │");
    assert_eq!(text(4), "╰───┴───╯");
    assert!(rendered[1].iter().any(|s| s.style == SpanStyle::TableHeader));
}

#[test]
fn non_table_lines_render_plain() {
    let lines = vec!["just text"];
    let rendered = render_table_lines(&lines, 80);
    assert_eq!(rendered.len(), 1);
    let t: String = rendered[0].iter().map(|s| s.text.as_str()).collect();
    assert_eq!(t, "just text");
}

#[test]
fn shrunk_table_borders_fill_the_viewport() {
    let lines = vec![
        "| a long header cell | another long header |",
        "| --- | --- |",
        "| some body text here | more body text |",
    ];
    let rendered = render_table_lines(&lines, 20);
    let top: String = rendered[0].iter().map(|s| s.text.as_str()).collect();
    let bottom: String = rendered.last().unwrap().iter().map(|s| s.text.as_str()).collect();
    assert_eq!(top.chars().count(), 20);
    assert_eq!(bottom.chars().count(), 20);
    // Every cell line is as wide as the borders.
    for line in &rendered {
        let t: String = line.iter().map(|s| s.text.as_str()).collect();
        assert_eq!(t.chars().count(), 20, "{t}");
    }
}

#[test]
fn wrapped_ascii_lines_fit_the_width() {
    let text = "the quick brown fox jumps over a lazy dog\nand an extraordinarily long word";
    for width in 1..12 {
        let lines = wrap_text(text, width);
        for l in &lines {
            assert!(l.chars().count() <= width, "{width}: {l:?}");
        }
    }
}

#[test]
fn ascii_table_lines_fit_the_viewport() {
    let lines = vec!["| id | name | comment |", "| --- | :---: | ---: |", "| 1 | Alice | likes long walks |"];
    for width in [13usize, 16, 25, 80] {
        let rendered = render_table_lines(&lines, width);
        let first: String = rendered[0].iter().map(|s| s.text.as_str()).collect();
        for line in &rendered {
            let t: String = line.iter().map(|s| s.text.as_str()).collect();
            assert!(t.chars().count() <= width, "{width}: {t:?}");
            assert_eq!(t.chars().count(), first.chars().count(), "{width}: {t:?}");
        }
    }
}

#[test]
fn wrapping_keeps_every_word_in_order() {
    let text = "one  two three
four fivesixseven

 eight";
    for width in 1..10 {
        let joined: String = wrap_text(text, width).concat();
        let kept: String = joined.chars().filter(|c| *c != ' ' && *c != '\n').collect();
        assert_eq!(kept, "onetwothreefourfivesixseveneight", "{width}");
    }
}

#[test]
fn padding_wide_content_reaches_the_width() {
    for align in [Align::Left, Align::Right, Align::Center] {
        let r = align_cell("你好", 7, align);
        assert_eq!(UnicodeWidthStr::width(r.as_str()), 7);
    }
    assert_eq!(align_cell("你好", 7, Align::Center), " 你好  ");
}
