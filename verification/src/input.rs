//! A single-line text input with a cursor, and what the input area shows.
use crate::table::{line_text, line_view, span, SpanStyle, StyledLine, StyledSpan};
use crate::text::{push_char, push_str, string_from};
use vstd::prelude::*;

verus! {

/// State for a single-line text input: its text and a cursor between two
/// characters (counted in characters from the start).
#[derive(Debug)]
pub struct InputState {
    content: String,
    cursor: usize,
}

impl View for InputState {
    type V = (Seq<char>, int);

    /// The text and the cursor position.
    closed spec fn view(&self) -> (Seq<char>, int) {
        (self.content@, self.cursor as int)
    }
}

impl Default for InputState {
    /// An empty input with the cursor at the start.
    fn default() -> (r: Self)
        ensures
            r@ == (Seq::<char>::empty(), 0int),
    {
        InputState { content: String::new(), cursor: 0 }
    }
}

/// The keys an input reacts to.
#[derive(Debug, Clone, Copy, PartialEq, Eq, Structural)]
pub enum KeyCode {
    Char(char),
    Backspace,
    Left,
    Right,
    Home,
    End,
    Delete,
    /// Any other key.
    Other,
}

/// `s` with `c` inserted before position `i`.
pub open spec fn insert_at(s: Seq<char>, i: int, c: char) -> Seq<char> {
    s.take(i) + seq![c] + s.skip(i)
}

/// `s` without the character at position `i`.
pub open spec fn remove_at(s: Seq<char>, i: int) -> Seq<char> {
    s.take(i) + s.skip(i + 1)
}

impl InputState {
    /// The cursor stays within the text.
    #[verifier::type_invariant]
    closed spec fn well_formed(self) -> bool {
        self.cursor <= self.content@.len()
    }

    /// An empty input with the cursor at the start.
    pub fn new() -> (r: Self)
        ensures
            r@ == (Seq::<char>::empty(), 0int),
    {
        InputState { content: String::new(), cursor: 0 }
    }

    /// The text.
    pub fn value(&self) -> (r: &str)
        ensures
            r@ == self@.0,
    {
        self.content.as_str()
    }

    /// The cursor position, in characters from the start.
    pub fn cursor(&self) -> (r: usize)
        ensures
            r == self@.1,
            0 <= self@.1 <= self@.0.len(),
    {
        proof {
            use_type_invariant(self);
        }
        self.cursor
    }

    /// Whether the text is empty.
    pub fn is_empty(&self) -> (r: bool)
        ensures
            r == (self@.0.len() == 0),
    {
        self.content.as_str().unicode_len() == 0
    }

    /// Empty the text and move the cursor to the start.
    pub fn clear(&mut self)
        ensures
            final(self)@ == (Seq::<char>::empty(), 0int),
    {
        *self = InputState { content: String::new(), cursor: 0 };
    }

    /// `content` with the characters `from..to` of the text replaced by
    /// `middle`, then with the cursor at `cursor`.
    fn splice(&mut self, from: usize, to: usize, middle: &str, cursor: usize)
        requires
            from <= to <= old(self)@.0.len(),
            cursor <= from + middle@.len() + (old(self)@.0.len() - to),
        ensures
            final(self)@ == (old(self)@.0.take(from as int) + middle@ + old(self)@.0.skip(
                to as int,
            ), cursor as int),
    {
        let len = self.content.as_str().unicode_len();
        let mut t = string_from(self.content.as_str().substring_char(0, from));
        push_str(&mut t, middle);
        push_str(&mut t, self.content.as_str().substring_char(to, len));
        assert(self.content@.subrange(0, from as int) =~= self.content@.take(from as int));
        assert(self.content@.subrange(to as int, len as int) =~= self.content@.skip(to as int));
        *self = InputState { content: t, cursor };
    }

    /// Insert a character at the cursor and move the cursor past it.
    pub fn insert(&mut self, ch: char)
        requires
            old(self)@.0.len() < usize::MAX,
        ensures
            final(self)@ == (insert_at(old(self)@.0, old(self)@.1, ch), old(self)@.1 + 1),
            final(self)@ == spec_handle_key(old(self)@, KeyCode::Char(ch)),
    {
        proof {
            use_type_invariant(&*self);
        }
        let c = self.cursor;
        let mut m = String::new();
        push_char(&mut m, ch);
        assert(m@ =~= seq![ch]);
        self.splice(c, c, m.as_str(), c + 1);
    }

    /// Delete the character before the cursor, if there is one.
    pub fn backspace(&mut self)
        ensures
            old(self)@.1 > 0 ==> final(self)@ == (remove_at(old(self)@.0, old(self)@.1 - 1), old(
                self,
            )@.1 - 1),
            old(self)@.1 == 0 ==> final(self)@ == old(self)@,
            final(self)@ == spec_handle_key(old(self)@, KeyCode::Backspace),
    {
        proof {
            use_type_invariant(&*self);
        }
        if self.cursor > 0 {
            let c = self.cursor;
            proof {
                reveal_strlit("");
            }
            self.splice(c - 1, c, "", c - 1);
            assert(old(self)@.0.take(c - 1) + ""@ + old(self)@.0.skip(c as int) =~= remove_at(
                old(self)@.0,
                c - 1,
            ));
        }
    }

    /// Delete the character after the cursor, if there is one.
    pub fn delete(&mut self)
        ensures
            old(self)@.1 < old(self)@.0.len() ==> final(self)@ == (remove_at(
                old(self)@.0,
                old(self)@.1,
            ), old(self)@.1),
            old(self)@.1 >= old(self)@.0.len() ==> final(self)@ == old(self)@,
            final(self)@ == spec_handle_key(old(self)@, KeyCode::Delete),
    {
        proof {
            use_type_invariant(&*self);
        }
        let len = self.content.as_str().unicode_len();
        if self.cursor < len {
            let c = self.cursor;
            proof {
                reveal_strlit("");
            }
            self.splice(c, c + 1, "", c);
            assert(old(self)@.0.take(c as int) + ""@ + old(self)@.0.skip(c + 1) =~= remove_at(
                old(self)@.0,
                c as int,
            ));
        }
    }

    /// Move the cursor one character left, unless it is at the start.
    pub fn cursor_left(&mut self)
        ensures
            final(self)@ == (old(self)@.0, if old(self)@.1 > 0 {
                old(self)@.1 - 1
            } else {
                old(self)@.1
            }),
            final(self)@ == spec_handle_key(old(self)@, KeyCode::Left),
    {
        proof {
            use_type_invariant(&*self);
        }
        if self.cursor > 0 {
            self.cursor = self.cursor - 1;
        }
    }

    /// Move the cursor one character right, unless it is at the end.
    pub fn cursor_right(&mut self)
        ensures
            final(self)@ == (old(self)@.0, if old(self)@.1 < old(self)@.0.len() {
                old(self)@.1 + 1
            } else {
                old(self)@.1
            }),
            final(self)@ == spec_handle_key(old(self)@, KeyCode::Right),
    {
        proof {
            use_type_invariant(&*self);
        }
        if self.cursor < self.content.as_str().unicode_len() {
            self.cursor = self.cursor + 1;
        }
    }

    /// Move the cursor to the start.
    pub fn cursor_home(&mut self)
        ensures
            final(self)@ == (old(self)@.0, 0int),
            final(self)@ == spec_handle_key(old(self)@, KeyCode::Home),
    {
        self.cursor = 0;
    }

    /// Move the cursor to the end.
    pub fn cursor_end(&mut self)
        ensures
            final(self)@ == (old(self)@.0, old(self)@.0.len() as int),
            final(self)@ == spec_handle_key(old(self)@, KeyCode::End),
    {
        self.cursor = self.content.as_str().unicode_len();
    }

    /// Handle a key. Returns whether the key was consumed: characters are
    /// inserted, the editing and movement keys act, other keys are ignored.
    pub fn handle_key(&mut self, key: KeyCode) -> (consumed: bool)
        requires
            old(self)@.0.len() < usize::MAX,
        ensures
            consumed == (key != KeyCode::Other),
            final(self)@ == spec_handle_key(old(self)@, key),
    {
        match key {
            KeyCode::Char(c) => {
                self.insert(c);
                true
            },
            KeyCode::Backspace => {
                self.backspace();
                true
            },
            KeyCode::Left => {
                self.cursor_left();
                true
            },
            KeyCode::Right => {
                self.cursor_right();
                true
            },
            KeyCode::Home => {
                self.cursor_home();
                true
            },
            KeyCode::End => {
                self.cursor_end();
                true
            },
            KeyCode::Delete => {
                self.delete();
                true
            },
            KeyCode::Other => false,
        }
    }
}

/// The text and cursor after `key`.
pub open spec fn spec_handle_key(st: (Seq<char>, int), key: KeyCode) -> (Seq<char>, int) {
    let (s, c) = st;
    match key {
        KeyCode::Char(ch) => (insert_at(s, c, ch), c + 1),
        KeyCode::Backspace => if c > 0 {
            (remove_at(s, c - 1), c - 1)
        } else {
            st
        },
        KeyCode::Left => if c > 0 {
            (s, c - 1)
        } else {
            st
        },
        KeyCode::Right => if c < s.len() {
            (s, c + 1)
        } else {
            st
        },
        KeyCode::Home => (s, 0),
        KeyCode::End => (s, s.len() as int),
        KeyCode::Delete => if c < s.len() {
            (remove_at(s, c), c)
        } else {
            st
        },
        KeyCode::Other => st,
    }
}

/// A state whose cursor lies within its text.
pub open spec fn cursor_in_text(st: (Seq<char>, int)) -> bool {
    0 <= st.1 <= st.0.len()
}

/// Every key keeps the cursor within the text.
pub proof fn law_keys_keep_cursor_in_text(st: (Seq<char>, int), key: KeyCode)
    requires
        cursor_in_text(st),
    ensures
        cursor_in_text(spec_handle_key(st, key)),
{
}

/// Typing a character and then pressing backspace gives back the text and
/// the cursor.
pub proof fn law_backspace_undoes_typing(st: (Seq<char>, int), ch: char)
    requires
        cursor_in_text(st),
    ensures
        spec_handle_key(spec_handle_key(st, KeyCode::Char(ch)), KeyCode::Backspace) == st,
{
    let (s, c) = st;
    assert(remove_at(insert_at(s, c, ch), c) =~= s);
}

/// Typing a character, moving left and pressing delete gives back the text
/// and the cursor.
pub proof fn law_delete_undoes_typing(st: (Seq<char>, int), ch: char)
    requires
        cursor_in_text(st),
    ensures
        spec_handle_key(
            spec_handle_key(spec_handle_key(st, KeyCode::Char(ch)), KeyCode::Left),
            KeyCode::Delete,
        ) == st,
{
    let (s, c) = st;
    assert(remove_at(insert_at(s, c, ch), c) =~= s);
}

/// Moving left and then right returns the cursor to where it was, when it
/// was not at the start.
pub proof fn law_left_then_right(st: (Seq<char>, int))
    requires
        0 < st.1 <= st.0.len(),
    ensures
        spec_handle_key(spec_handle_key(st, KeyCode::Left), KeyCode::Right) == st,
{
}

/// A key the input does not handle changes neither the text nor the
/// cursor, and delete removes the character under the cursor, leaving the
/// cursor where it was.
pub proof fn law_other_keys_and_delete(st: (Seq<char>, int))
    requires
        cursor_in_text(st),
    ensures
        spec_handle_key(st, KeyCode::Other) == st,
        st.1 < st.0.len() ==> spec_handle_key(st, KeyCode::Delete) == (
            st.0.take(st.1) + st.0.skip(st.1 + 1),
            st.1,
        ),
{
}

/// Moving the cursor never changes the text.
pub proof fn law_moves_keep_text(st: (Seq<char>, int), key: KeyCode)
    requires
        key == KeyCode::Left || key == KeyCode::Right || key == KeyCode::Home || key == KeyCode::End,
    ensures
        spec_handle_key(st, key).0 == st.0,
{
}

// ---------------------------------------------------------------------------
// What the input area shows
// ---------------------------------------------------------------------------

/// The spans of the input text: the placeholder (dim) when the text is
/// empty; otherwise the text before the cursor, the character under the
/// cursor (a space at the end) drawn as a block cursor, and the rest.
pub open spec fn spec_input_spans(st: (Seq<char>, int), placeholder: Seq<char>) -> Seq<
    (Seq<char>, SpanStyle),
> {
    let (s, c) = st;
    if s.len() == 0 {
        seq![(placeholder, SpanStyle::Dim)]
    } else if c < s.len() {
        seq![
            (s.take(c), SpanStyle::Plain),
            (seq![s[c]], SpanStyle::Cursor),
            (s.skip(c + 1), SpanStyle::Plain),
        ]
    } else {
        seq![(s.take(c), SpanStyle::Plain), (seq![' '], SpanStyle::Cursor), (s.skip(c), SpanStyle::Plain)]
    }
}

/// What the input area shows: the placeholder alone (dim) for an empty
/// text; otherwise the text itself, read from its spans in order, with the
/// block cursor on the character at the cursor and on one extra blank
/// cell only when the cursor is at the end. The cursor span is the second
/// and the only one in cursor style.
pub proof fn law_input_spans_show_text(s: Seq<char>, c: int, placeholder: Seq<char>)
    requires
        0 <= c <= s.len(),
    ensures
        s.len() == 0 ==> spec_input_spans((s, c), placeholder) == seq![(placeholder, SpanStyle::Dim)],
        s.len() > 0 ==> {
            let spans = spec_input_spans((s, c), placeholder);
            &&& spans.len() == 3
            &&& spans[0].0.len() == c
            &&& spans[1].1 == SpanStyle::Cursor
            &&& spans[0].1 != SpanStyle::Cursor && spans[2].1 != SpanStyle::Cursor
            &&& c < s.len() ==> line_text(spans) == s && spans[1].0 == seq![s[c]]
            &&& c == s.len() ==> line_text(spans) == s.push(' ') && spans[1].0 == seq![' ']
        },
{
    if s.len() > 0 {
        let spans = spec_input_spans((s, c), placeholder);
        let d1 = spans.drop_last();
        let d2 = d1.drop_last();
        let d3 = d2.drop_last();
        assert(line_text(d3) == Seq::<char>::empty());
        assert(line_text(d2) == line_text(d3) + spans[0].0);
        assert(line_text(d1) == line_text(d2) + spans[1].0);
        assert(line_text(spans) == line_text(d1) + spans[2].0);
        assert(line_text(spans) =~= spans[0].0 + spans[1].0 + spans[2].0);
        if c < s.len() {
            assert(s.take(c) + seq![s[c]] + s.skip(c + 1) =~= s);
        } else {
            assert(s.take(c) + seq![' '] + s.skip(c) =~= s.push(' '));
        }
    }
}

/// Render the text content inside the input area with a visual block cursor.
pub fn render_input_text(state: &InputState, placeholder: &str) -> (r: StyledLine)
    ensures
        line_view(r@) == spec_input_spans(state@, placeholder@),
{
    let mut r: StyledLine = Vec::new();
    if state.is_empty() {
        r.push(span(string_from(placeholder), SpanStyle::Dim));
        assert(line_view(r@) =~= seq![(placeholder@, SpanStyle::Dim)]);
        return r;
    }
    let text = state.value();
    let c = state.cursor();
    let len = text.unicode_len();
    let before = string_from(text.substring_char(0, c));
    assert(text@.subrange(0, c as int) =~= text@.take(c as int));
    if c < len {
        let mut under = String::new();
        push_char(&mut under, text.get_char(c));
        let after = string_from(text.substring_char(c + 1, len));
        assert(text@.subrange(c + 1, len as int) =~= text@.skip(c + 1));
        assert(under@ =~= seq![text@[c as int]]);
        r.push(span(before, SpanStyle::Plain));
        r.push(span(under, SpanStyle::Cursor));
        r.push(span(after, SpanStyle::Plain));
    } else {
        let mut under = String::new();
        push_char(&mut under, ' ');
        assert(under@ =~= seq![' ']);
        let after = string_from(text.substring_char(c, len));
        assert(text@.subrange(c as int, len as int) =~= text@.skip(c as int));
        r.push(span(before, SpanStyle::Plain));
        r.push(span(under, SpanStyle::Cursor));
        r.push(span(after, SpanStyle::Plain));
    }
    assert(line_view(r@) =~= spec_input_spans(state@, placeholder@));
    r
}

/// Composite widget: bordered input area + text content with visual cursor.
pub struct InputWidget<'a> {
    pub disabled: bool,
    pub title: &'a str,
    pub placeholder: &'a str,
}

impl<'a> InputWidget<'a> {
    /// The title on the border: the widget's title padded by a space on
    /// each side.
    pub fn border_title(&self) -> (r: String)
        ensures
            r@ == " "@ + self.title@ + " "@,
    {
        let mut r = string_from(" ");
        push_str(&mut r, self.title);
        push_str(&mut r, " ");
        r
    }

    /// The spans inside the border: while disabled, the placeholder (or
    /// "■ running..." when there is none) dimmed; otherwise the input text
    /// with its cursor.
    pub fn content(&self, input: &InputState) -> (r: StyledLine)
        ensures
            line_view(r@) == (if self.disabled {
                seq![
                    (if self.placeholder@.len() == 0 {
                        "■ running..."@
                    } else {
                        self.placeholder@
                    }, SpanStyle::Dim),
                ]
            } else {
                spec_input_spans(input@, self.placeholder@)
            }),
    {
        if self.disabled {
            let t = if self.placeholder.unicode_len() == 0 {
                string_from("■ running...")
            } else {
                string_from(self.placeholder)
            };
            let mut r: StyledLine = Vec::new();
            r.push(span(t, SpanStyle::Dim));
            assert(line_view(r@) =~= seq![(t@, SpanStyle::Dim)]);
            r
        } else {
            render_input_text(input, self.placeholder)
        }
    }
}

/// How the agent tab's input area is being used.
#[derive(Debug, Clone, Copy, PartialEq, Eq, Structural)]
pub enum InputMode {
    Browse,
    Input,
}

/// The input area's title: a running agent takes no input; otherwise the
/// title names the mode.
pub fn input_title(running: bool, mode: InputMode) -> (r: &'static str)
    ensures
        r@ == (if running {
            " ■ input (running) "@
        } else if mode == InputMode::Browse {
            "▏browse (Enter=edit) "@
        } else {
            " > input "@
        }),
{
    if running {
        " ■ input (running) "
    } else {
        match mode {
            InputMode::Browse => "▏browse (Enter=edit) ",
            InputMode::Input => " > input ",
        }
    }
}

} // verus!
