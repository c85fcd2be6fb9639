//! What the chat view shows for each message: labels, prefixes and styles
//! per line, assistant text split into markdown segments and box-drawn
//! tables.
use crate::table::{
    concat, line_view, lines_view, render_table_chars, span, spec_is_table_separator,
    spec_render_table_lines, SpanStyle, StyledLine, StyledSpan,
};
use crate::text::{
    chars_of, lines, lines_of, push_char, push_chars, raw_lines, raw_lines_of, repeat_char,
    slice_range, string_from, trim, trim_vec, views,
};
use vstd::prelude::*;

verus! {

/// One entry of a conversation, as the chat view lists it.
pub enum ChatLine {
    /// A message the user sent.
    User(String),
    /// Assistant text (markdown, possibly with tables).
    Assistant(String),
    /// The model's reasoning text.
    Thinking(String),
    /// A tool call, with its input rendered one parameter per line.
    ToolCall { name: String, input: String },
    /// A tool call running in the background.
    ToolBackground { id: String, name: String },
    /// The result of a tool call.
    ToolResult { ok: bool, content: String },
    /// An error message.
    Error(String),
    /// A horizontal rule between turns.
    Separator,
}

/// A rendered line: either styled spans, or a markdown segment of assistant
/// text that a markdown renderer turns into lines.
pub enum RenderedLine {
    Styled(StyledLine),
    Markdown(String),
}

/// The view of a rendered line.
pub enum LineView {
    Styled(Seq<(Seq<char>, SpanStyle)>),
    Markdown(Seq<char>),
}

impl View for RenderedLine {
    type V = LineView;

    open spec fn view(&self) -> LineView {
        match self {
            RenderedLine::Styled(l) => LineView::Styled(line_view(l@)),
            RenderedLine::Markdown(s) => LineView::Markdown(s@),
        }
    }
}

/// The views of rendered lines.
pub open spec fn rendered_view(v: Seq<RenderedLine>) -> Seq<LineView> {
    v.map_values(|x: RenderedLine| x@)
}

/// A line holding one span.
pub open spec fn single(text: Seq<char>, style: SpanStyle) -> LineView {
    LineView::Styled(seq![(text, style)])
}

/// Each of `ls` in `style`, the first after `first` and the others after `rest`.
pub open spec fn prefixed_lines(
    ls: Seq<Seq<char>>,
    first: Seq<char>,
    rest: Seq<char>,
    style: SpanStyle,
) -> Seq<LineView> {
    Seq::new(
        ls.len(),
        |i: int|
            single(
                (if i == 0 {
                    first
                } else {
                    rest
                }) + ls[i],
                style,
            ),
    )
}

// ---------------------------------------------------------------------------
// Assistant text: markdown segments and tables
// ---------------------------------------------------------------------------

/// Line `i`, trimmed, begins with `|`.
pub open spec fn starts_pipe(ls: Seq<Seq<char>>, i: int) -> bool {
    let t = trim(ls[i]);
    t.len() > 0 && t[0] == '|'
}

/// Line `i`, trimmed, ends with `|`.
pub open spec fn ends_pipe(ls: Seq<Seq<char>>, i: int) -> bool {
    let t = trim(ls[i]);
    t.len() > 0 && t.last() == '|'
}

/// A table starts at line `i`: it is pipe-delimited and the next line is a
/// separator row.
pub open spec fn table_start(ls: Seq<Seq<char>>, i: int) -> bool {
    &&& starts_pipe(ls, i)
    &&& ends_pipe(ls, i)
    &&& i + 1 < ls.len()
    &&& spec_is_table_separator(trim(ls[i + 1]))
}

/// The end of the run of lines from `pos` that begin with `|`.
pub open spec fn pipe_run_end(ls: Seq<Seq<char>>, pos: int) -> int
    decreases ls.len() - pos,
{
    if 0 <= pos < ls.len() && starts_pipe(ls, pos) {
        pipe_run_end(ls, pos + 1)
    } else {
        pos
    }
}

/// The end of the run of lines from `pos` where no table starts.
pub open spec fn text_run_end(ls: Seq<Seq<char>>, pos: int) -> int
    decreases ls.len() - pos,
{
    if 0 <= pos < ls.len() && !table_start(ls, pos) {
        text_run_end(ls, pos + 1)
    } else {
        pos
    }
}

/// Runs end after they start.
pub proof fn lemma_run_ends(ls: Seq<Seq<char>>, pos: int)
    requires
        0 <= pos,
    ensures
        pos <= pipe_run_end(ls, pos) <= imax_len(ls, pos),
        pos <= text_run_end(ls, pos) <= imax_len(ls, pos),
        pos < ls.len() && starts_pipe(ls, pos) ==> pipe_run_end(ls, pos) > pos,
        pos < ls.len() && !table_start(ls, pos) ==> text_run_end(ls, pos) > pos,
    decreases ls.len() - pos,
{
    if pos < ls.len() {
        lemma_run_ends(ls, pos + 1);
    }
}

/// The larger of `ls.len()` and `pos`.
pub open spec fn imax_len(ls: Seq<Seq<char>>, pos: int) -> int {
    if pos > ls.len() {
        pos
    } else {
        ls.len() as int
    }
}

/// The text of lines `a..b` as it stands in the message: every line but the
/// last with its raw content (a `'\r'` kept) and its `'\n'`, then the last
/// line without its line ending.
pub open spec fn segment_text(raw: Seq<Seq<char>>, ls: Seq<Seq<char>>, a: int, b: int) -> Seq<
    char,
> {
    concat(Seq::new((b - 1 - a) as nat, |k: int| raw[a + k].push('\n'))) + ls[b - 1]
}

/// The rendered lines of the assistant text from line `pos` on: each table
/// (a pipe-delimited line followed by a separator row, up to the first line
/// that does not begin with `|`) drawn as a table, and each stretch of other
/// lines as one markdown segment.
pub open spec fn assistant_items(
    raw: Seq<Seq<char>>,
    ls: Seq<Seq<char>>,
    width: int,
    pos: int,
) -> Seq<LineView>
    decreases ls.len() - pos,
{
    if pos < 0 || pos >= ls.len() {
        Seq::empty()
    } else if table_start(ls, pos) {
        let e = pipe_run_end(ls, pos);
        proof {
            lemma_run_ends(ls, pos);
        }
        spec_render_table_lines(ls.subrange(pos, e), width).map_values(
            |l: Seq<(Seq<char>, SpanStyle)>| LineView::Styled(l),
        ) + assistant_items(raw, ls, width, e)
    } else {
        let e = text_run_end(ls, pos);
        proof {
            lemma_run_ends(ls, pos);
        }
        seq![LineView::Markdown(segment_text(raw, ls, pos, e))] + assistant_items(
            raw,
            ls,
            width,
            e,
        )
    }
}

/// Render assistant text: tables drawn with box-drawing characters, the
/// stretches between them left as markdown segments.
pub open spec fn spec_render_assistant_text(text: Seq<char>, width: int) -> Seq<LineView> {
    assistant_items(raw_lines(text), lines(text), width, 0)
}

/// Assistant text that begins with a table shows that table first, drawn
/// exactly as the table renderer draws its lines at the same width (so a
/// table is shrunk and wrapped to the view it is shown in); the rest of the
/// text follows. Text that is one table shows nothing else.
pub proof fn law_assistant_table_at_view_width(text: Seq<char>, width: int)
    requires
        table_start(lines(text), 0),
    ensures
        spec_render_assistant_text(text, width) == spec_render_table_lines(
            lines(text).subrange(0, pipe_run_end(lines(text), 0)),
            width,
        ).map_values(|l: Seq<(Seq<char>, SpanStyle)>| LineView::Styled(l)) + assistant_items(
            raw_lines(text),
            lines(text),
            width,
            pipe_run_end(lines(text), 0),
        ),
        pipe_run_end(lines(text), 0) == lines(text).len() ==> spec_render_assistant_text(text, width)
            == spec_render_table_lines(lines(text), width).map_values(
            |l: Seq<(Seq<char>, SpanStyle)>| LineView::Styled(l),
        ),
{
    let ls = lines(text);
    let e = pipe_run_end(ls, 0);
    lemma_run_ends(ls, 0);
    if e == ls.len() {
        assert(ls.subrange(0, e) =~= ls);
        let t = spec_render_table_lines(ls, width).map_values(
            |l: Seq<(Seq<char>, SpanStyle)>| LineView::Styled(l),
        );
        assert(assistant_items(raw_lines(text), ls, width, e) =~= Seq::<LineView>::empty());
        assert(t + Seq::<LineView>::empty() =~= t);
    }
}

/// An assistant entry that is one table is its label, then that table drawn
/// at the entry's width.
pub proof fn law_assistant_entry_table_at_view_width(text: String, width: int)
    requires
        table_start(lines(text@), 0),
        pipe_run_end(lines(text@), 0) == lines(text@).len(),
    ensures
        spec_render_line(ChatLine::Assistant(text), width) == seq![
            single("Assistant"@, SpanStyle::AssistantLabel),
        ] + spec_render_table_lines(lines(text@), width).map_values(
            |l: Seq<(Seq<char>, SpanStyle)>| LineView::Styled(l),
        ),
{
    law_assistant_table_at_view_width(text@, width);
}

/// Line `i` of `ls`, trimmed, begins with `|`.
fn starts_pipe_at(ls: &Vec<Vec<char>>, i: usize) -> (b: bool)
    requires
        i < ls@.len(),
    ensures
        b == starts_pipe(views(ls@), i as int),
{
    let t = trim_vec(ls[i].as_slice());
    assert(views(ls@)[i as int] == ls@[i as int]@);
    t.len() > 0 && t[0] == '|'
}

/// A table starts at line `i` of `ls`.
fn table_start_at(ls: &Vec<Vec<char>>, i: usize) -> (b: bool)
    requires
        i < ls@.len(),
    ensures
        b == table_start(views(ls@), i as int),
{
    let t = trim_vec(ls[i].as_slice());
    assert(views(ls@)[i as int] == ls@[i as int]@);
    let n = t.len();
    if !(n > 0 && t[0] == '|' && t[n - 1] == '|') {
        return false;
    }
    if i >= ls.len() - 1 {
        return false;
    }
    let next = trim_vec(ls[i + 1].as_slice());
    assert(views(ls@)[i + 1] == ls@[i + 1]@);
    crate::table::is_separator_chars(next.as_slice())
}

/// Copies of `v[a..b]`.
fn slice_vecs(v: &Vec<Vec<char>>, a: usize, b: usize) -> (r: Vec<Vec<char>>)
    requires
        a <= b <= v@.len(),
    ensures
        views(r@) == views(v@).subrange(a as int, b as int),
{
    let mut r: Vec<Vec<char>> = Vec::new();
    let mut k = a;
    while k < b
        invariant
            a <= k <= b <= v@.len(),
            views(r@) == views(v@).subrange(a as int, k as int),
        decreases b - k,
    {
        let c = slice_range(v[k].as_slice(), 0, v[k].len());
        assert(v[k as int]@.subrange(0, v[k as int]@.len() as int) =~= v[k as int]@);
        let ghost before = views(r@);
        r.push(c);
        assert(views(r@) =~= before.push(c@));
        k = k + 1;
        assert(views(v@).subrange(a as int, k as int) =~= views(v@).subrange(
            a as int,
            k as int - 1,
        ).push(v@[k - 1]@));
    }
    r
}

/// The text of lines `a..b` as it stands in the message (see `segment_text`).
fn make_segment(raw: &Vec<Vec<char>>, ls: &Vec<Vec<char>>, a: usize, b: usize) -> (s: String)
    requires
        a < b <= raw@.len() == ls@.len(),
    ensures
        s@ == segment_text(views(raw@), views(ls@), a as int, b as int),
{
    let ghost parts = Seq::new((b - 1 - a) as nat, |k: int| views(raw@)[a + k].push('\n'));
    let mut s = String::new();
    let mut k = a;
    assert(s@ =~= concat(parts.take(0)));
    while k + 1 < b
        invariant
            a <= k < b <= raw@.len() == ls@.len(),
            parts == Seq::new((b - 1 - a) as nat, |m: int| views(raw@)[a + m].push('\n')),
            s@ == concat(parts.take(k - a)),
        decreases b - k,
    {
        let ghost before = s@;
        push_chars(&mut s, raw[k].as_slice());
        push_char(&mut s, '\n');
        assert(views(raw@)[k as int] == raw@[k as int]@);
        assert(parts.take(k - a + 1).drop_last() =~= parts.take(k - a));
        assert(s@ =~= before + parts[k - a]);
        k = k + 1;
    }
    assert(parts.take(k - a) =~= parts);
    push_chars(&mut s, ls[b - 1].as_slice());
    assert(views(ls@)[b - 1] == ls@[b - 1]@);
    s
}

/// Table lines as rendered lines.
fn styled_all(v: Vec<StyledLine>) -> (r: Vec<RenderedLine>)
    ensures
        rendered_view(r@) == lines_view(v@).map_values(
            |l: Seq<(Seq<char>, SpanStyle)>| LineView::Styled(l),
        ),
{
    let ghost goal = lines_view(v@).map_values(|l: Seq<(Seq<char>, SpanStyle)>| LineView::Styled(l));
    let mut v = v;
    let mut rev: Vec<RenderedLine> = Vec::new();
    // Move the lines out from the back, then restore their order.
    while v.len() > 0
        invariant
            lines_view(v@).map_values(|l: Seq<(Seq<char>, SpanStyle)>| LineView::Styled(l))
                + rendered_view(rev@).reverse() == goal,
        decreases v.len(),
    {
        let ghost before_v = v@;
        let ghost before_rev = rendered_view(rev@);
        let l = v.pop().unwrap();
        assert(before_v =~= v@.push(l));
        rev.push(RenderedLine::Styled(l));
        assert(rendered_view(rev@) =~= before_rev.push(LineView::Styled(line_view(l@))));
        assert(lines_view(before_v).map_values(
            |l: Seq<(Seq<char>, SpanStyle)>| LineView::Styled(l),
        ) =~= lines_view(v@).map_values(|l: Seq<(Seq<char>, SpanStyle)>| LineView::Styled(l)).push(
            LineView::Styled(line_view(l@)),
        ));
        assert(rendered_view(rev@).reverse() =~= seq![LineView::Styled(line_view(l@))]
            + before_rev.reverse());
    }
    assert(lines_view(v@).map_values(|l: Seq<(Seq<char>, SpanStyle)>| LineView::Styled(l))
        =~= Seq::<LineView>::empty());
    let mut r: Vec<RenderedLine> = Vec::new();
    while rev.len() > 0
        invariant
            rendered_view(r@) + rendered_view(rev@).reverse() == goal,
        decreases rev.len(),
    {
        let ghost before_rev = rev@;
        let ghost before_r = rendered_view(r@);
        let l = rev.pop().unwrap();
        assert(before_rev =~= rev@.push(l));
        assert(rendered_view(before_rev) =~= rendered_view(rev@).push(l@));
        r.push(l);
        assert(rendered_view(r@) =~= before_r.push(l@));
        assert(rendered_view(before_rev).reverse() =~= seq![l@] + rendered_view(rev@).reverse());
    }
    assert(rendered_view(rev@).reverse() =~= Seq::<LineView>::empty());
    assert(rendered_view(r@) =~= goal);
    r
}

/// Render assistant message text: split into non-table segments (left as
/// markdown) and table segments (drawn with box-drawing characters).
pub fn render_assistant_text(text: &str, available_width: usize) -> (r: Vec<RenderedLine>)
    ensures
        rendered_view(r@) == spec_render_assistant_text(text@, available_width as int),
{
    let v = chars_of(text);
    let ls = lines_of(v.as_slice());
    let raw = raw_lines_of(v.as_slice());
    let ghost lv = views(ls@);
    let ghost rv = views(raw@);
    assert(lv.len() == rv.len());
    let n = ls.len();
    let mut out: Vec<RenderedLine> = Vec::new();
    let mut pos: usize = 0;
    while pos < n
        invariant
            pos <= n == ls@.len() == raw@.len(),
            lv == views(ls@),
            rv == views(raw@),
            lv == lines(text@),
            rv == raw_lines(text@),
            rendered_view(out@) + assistant_items(rv, lv, available_width as int, pos as int)
                == assistant_items(rv, lv, available_width as int, 0),
        decreases n - pos,
    {
        proof {
            lemma_run_ends(lv, pos as int);
        }
        let ghost before = rendered_view(out@);
        if table_start_at(&ls, pos) {
            let start = pos;
            while pos < n && starts_pipe_at(&ls, pos)
                invariant
                    start <= pos <= n == ls@.len(),
                    lv == views(ls@),
                    pipe_run_end(lv, start as int) == pipe_run_end(lv, pos as int),
                decreases n - pos,
            {
                pos = pos + 1;
            }
            let table = slice_vecs(&ls, start, pos);
            let drawn = render_table_chars(&table, available_width);
            let items = styled_all(drawn);
            let mut items = items;
            let ghost it = rendered_view(items@);
            out.append(&mut items);
            assert(rendered_view(out@) =~= before + it);
        } else {
            let start = pos;
            while pos < n && !table_start_at(&ls, pos)
                invariant
                    start <= pos <= n == ls@.len(),
                    lv == views(ls@),
                    text_run_end(lv, start as int) == text_run_end(lv, pos as int),
                decreases n - pos,
            {
                pos = pos + 1;
            }
            let seg = make_segment(&raw, &ls, start, pos);
            out.push(RenderedLine::Markdown(seg));
            assert(rendered_view(out@) =~= before.push(LineView::Markdown(seg@)));
        }
    }
    assert(assistant_items(rv, lv, available_width as int, pos as int) =~= Seq::<
        LineView,
    >::empty());
    assert(rendered_view(out@) =~= assistant_items(rv, lv, available_width as int, 0));
    out
}


// ---------------------------------------------------------------------------
// One chat entry
// ---------------------------------------------------------------------------

/// The lines drawn for one chat entry at `width` columns:
/// - user text under a bold "You" label;
/// - assistant text under a bold "Assistant" label, tables drawn as tables;
/// - thinking text, first line marked 💭;
/// - a tool call header, then each input line indented;
/// - a background tool call on one line;
/// - a tool result marked ✓ (green) or ✗ (red), later lines indented;
/// - an error marked "✗ Error: ", later lines aligned under it;
/// - a separator rule as wide as the view.
pub open spec fn spec_render_line(msg: ChatLine, width: int) -> Seq<LineView> {
    match msg {
        ChatLine::User(text) => seq![single("You"@, SpanStyle::UserLabel)] + lines(text@).map_values(
            |l: Seq<char>| single(l, SpanStyle::UserText),
        ),
        ChatLine::Assistant(text) => seq![single("Assistant"@, SpanStyle::AssistantLabel)]
            + spec_render_assistant_text(text@, width),
        ChatLine::Thinking(text) => prefixed_lines(lines(text@), "💭 "@, "   "@, SpanStyle::Dim),
        ChatLine::ToolCall { name, input } => seq![
            single("🔧 Calling: "@ + name@, SpanStyle::ToolCall),
        ] + if input@.len() > 0 {
            prefixed_lines(lines(input@), "   "@, "   "@, SpanStyle::Dim)
        } else {
            Seq::empty()
        },
        ChatLine::ToolBackground { id, name } => seq![
            single(
                "⏳ Calling: "@ + name@ + " (running in background)"@,
                SpanStyle::ToolBackground,
            ),
        ],
        ChatLine::ToolResult { ok, content } => prefixed_lines(
            lines(content@),
            if ok {
                "✓ "@
            } else {
                "✗ "@
            },
            "  "@,
            if ok {
                SpanStyle::ToolOk
            } else {
                SpanStyle::Failure
            },
        ),
        ChatLine::Error(text) => prefixed_lines(
            lines(text@),
            "✗ Error: "@,
            "         "@,
            SpanStyle::Failure,
        ),
        ChatLine::Separator => seq![
            single(Seq::new(width as nat, |i: int| '─'), SpanStyle::Dim),
        ],
    }
}

/// A rendered line of one span.
fn single_line(text: String, style: SpanStyle) -> (r: RenderedLine)
    ensures
        r@ == single(text@, style),
{
    let mut l: StyledLine = Vec::new();
    l.push(span(text, style));
    assert(line_view(l@) =~= seq![(text@, style)]);
    RenderedLine::Styled(l)
}

/// Each of the lines of `text` in `style`, the first after `first` and the
/// others after `rest`.
fn prefixed(text: &str, first: &str, rest: &str, style: SpanStyle) -> (r: Vec<RenderedLine>)
    ensures
        rendered_view(r@) == prefixed_lines(lines(text@), first@, rest@, style),
{
    let v = chars_of(text);
    let ls = lines_of(v.as_slice());
    let ghost goal = prefixed_lines(lines(text@), first@, rest@, style);
    let mut r: Vec<RenderedLine> = Vec::new();
    let mut i: usize = 0;
    while i < ls.len()
        invariant
            i <= ls@.len(),
            views(ls@) == lines(text@),
            goal == prefixed_lines(lines(text@), first@, rest@, style),
            rendered_view(r@) == goal.take(i as int),
        decreases ls.len() - i,
    {
        let mut t = if i == 0 {
            string_from(first)
        } else {
            string_from(rest)
        };
        push_chars(&mut t, ls[i].as_slice());
        assert(views(ls@)[i as int] == ls@[i as int]@);
        let l = single_line(t, style);
        let ghost before = rendered_view(r@);
        r.push(l);
        assert(rendered_view(r@) =~= before.push(l@));
        i = i + 1;
        assert(goal.take(i as int) =~= goal.take(i as int - 1).push(goal[i as int - 1]));
    }
    assert(goal.take(ls@.len() as int) =~= goal);
    r
}

/// Render a single chat entry into one or more lines at `width` columns.
pub fn render_line_owned(msg: &ChatLine, width: usize) -> (r: Vec<RenderedLine>)
    ensures
        rendered_view(r@) == spec_render_line(*msg, width as int),
{
    match msg {
        ChatLine::User(text) => {
            let mut r: Vec<RenderedLine> = Vec::new();
            r.push(single_line(string_from("You"), SpanStyle::UserLabel));
            let mut body = prefixed(text.as_str(), "", "", SpanStyle::UserText);
            let ghost head = rendered_view(r@);
            let ghost b = rendered_view(body@);
            r.append(&mut body);
            assert(rendered_view(r@) =~= head + b);
            assert(b =~= lines(text@).map_values(|l: Seq<char>| single(l, SpanStyle::UserText)))
                by {
                assert forall|i: int| 0 <= i < b.len() implies b[i] == single(
                    lines(text@)[i],
                    SpanStyle::UserText,
                ) by {
                    reveal_strlit("");
                    assert(""@ =~= Seq::<char>::empty());
                    assert(""@ + lines(text@)[i] =~= lines(text@)[i]);
                }
            }
            r
        },
        ChatLine::Assistant(text) => {
            let mut r: Vec<RenderedLine> = Vec::new();
            r.push(single_line(string_from("Assistant"), SpanStyle::AssistantLabel));
            let mut body = render_assistant_text(text.as_str(), width);
            let ghost head = rendered_view(r@);
            let ghost b = rendered_view(body@);
            r.append(&mut body);
            assert(rendered_view(r@) =~= head + b);
            r
        },
        ChatLine::Thinking(text) => prefixed(text.as_str(), "💭 ", "   ", SpanStyle::Dim),
        ChatLine::ToolCall { name, input } => {
            let mut r: Vec<RenderedLine> = Vec::new();
            let mut t = string_from("🔧 Calling: ");
            t.append(name.as_str());
            r.push(single_line(t, SpanStyle::ToolCall));
            if input.as_str().unicode_len() > 0 {
                let mut body = prefixed(input.as_str(), "   ", "   ", SpanStyle::Dim);
                let ghost head = rendered_view(r@);
                let ghost b = rendered_view(body@);
                r.append(&mut body);
                assert(rendered_view(r@) =~= head + b);
            } else {
                assert(rendered_view(r@) =~= rendered_view(r@) + Seq::<LineView>::empty());
            }
            r
        },
        ChatLine::ToolBackground { id: _id, name } => {
            let mut r: Vec<RenderedLine> = Vec::new();
            let mut t = string_from("⏳ Calling: ");
            t.append(name.as_str());
            t.append(" (running in background)");
            r.push(single_line(t, SpanStyle::ToolBackground));
            assert(rendered_view(r@) =~= seq![
                single(
                    "⏳ Calling: "@ + name@ + " (running in background)"@,
                    SpanStyle::ToolBackground,
                ),
            ]);
            r
        },
        ChatLine::ToolResult { ok, content } => {
            let icon = if *ok {
                "✓ "
            } else {
                "✗ "
            };
            let style = if *ok {
                SpanStyle::ToolOk
            } else {
                SpanStyle::Failure
            };
            prefixed(content.as_str(), icon, "  ", style)
        },
        ChatLine::Error(text) => prefixed(
            text.as_str(),
            "✗ Error: ",
            "         ",
            SpanStyle::Failure,
        ),
        ChatLine::Separator => {
            let mut r: Vec<RenderedLine> = Vec::new();
            r.push(single_line(repeat_char('─', width), SpanStyle::Dim));
            assert(rendered_view(r@) =~= seq![
                single(Seq::new(width as nat, |i: int| '─'), SpanStyle::Dim),
            ]);
            r
        },
    }
}

/// The scrolling range of a chat view showing `viewport_height` of
/// `total_lines` lines: how far it can scroll, when the lines do not all fit
/// (a scrollbar is drawn then), else none.
pub fn scroll_range(total_lines: usize, viewport_height: u16) -> (r: Option<usize>)
    ensures
        total_lines > viewport_height ==> r == Some((total_lines - viewport_height) as usize),
        total_lines <= viewport_height ==> r is None,
{
    let h = viewport_height as usize;
    if total_lines > h {
        Some(total_lines - h)
    } else {
        None
    }
}

} // verus!
