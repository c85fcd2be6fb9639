//! Layout of markdown tables and wrapped text for the chat view: alignment
//! hints, pipe-delimited rows, greedy word wrap in display columns,
//! proportional column shrinking and the box-drawn table itself.
use crate::text::{
    chars_of, lemma_split_char_nonempty, lemma_split_char_pieces, push_char, push_str, repeat_char, slice_range, split_char,
    split_chars, string_from, string_from_chars, trim, trim_vec, views,
};
use crate::width::{
    char_display_width, char_width, printable_ascii, spaces, str_display_width, str_width,
};
use vstd::prelude::*;

verus! {

// ---------------------------------------------------------------------------
// Alignment
// ---------------------------------------------------------------------------

/// Cell alignment, derived from a markdown table separator (`:--`, `:--:`, `--:`).
#[derive(Debug, Clone, Copy, PartialEq, Eq, Structural, Default)]
pub enum Align {
    #[default]
    Left,
    Center,
    Right,
}

/// The alignment a separator cell asks for: a leading and a trailing `:`
/// center, a trailing `:` alone aligns right, anything else aligns left.
pub open spec fn spec_parse_align(cell: Seq<char>) -> Align {
    let t = trim(cell);
    let left = t.len() > 0 && t[0] == ':';
    let right = t.len() > 0 && t.last() == ':';
    if left && right {
        Align::Center
    } else if right {
        Align::Right
    } else {
        Align::Left
    }
}

/// Decode a single separator cell (e.g. `:---:`) into an [`Align`].
pub fn parse_align(cell: &str) -> (a: Align)
    ensures
        a == spec_parse_align(cell@),
{
    parse_align_chars(chars_of(cell).as_slice())
}

/// The alignment the characters `cell` ask for.
pub fn parse_align_chars(cell: &[char]) -> (a: Align)
    ensures
        a == spec_parse_align(cell@),
{
    let t = trim_vec(cell);
    let n = t.len();
    let left = n > 0 && t[0] == ':';
    let right = n > 0 && t[n - 1] == ':';
    if left && right {
        Align::Center
    } else if right {
        Align::Right
    } else {
        Align::Left
    }
}

// ---------------------------------------------------------------------------
// Pipe-delimited lines
// ---------------------------------------------------------------------------

/// The content between the outer pipes of `s`, if `s` is at least two
/// characters long and both starts and ends with `|`.
pub open spec fn spec_pipe_inner(s: Seq<char>) -> Option<Seq<char>> {
    if s.len() < 2 || s[0] != '|' || s.last() != '|' {
        None
    } else {
        Some(s.subrange(1, s.len() - 1))
    }
}

/// Strip the leading and trailing `|` from a pipe-delimited table line,
/// returning the inner content; `None` unless `s` has at least two characters
/// and both starts and ends with `|` (a lone `|` has no inner content).
pub fn pipe_inner<'a>(s: &'a str) -> (r: Option<&'a str>)
    ensures
        match r {
            Some(inner) => spec_pipe_inner(s@) == Some(inner@),
            None => spec_pipe_inner(s@) is None,
        },
{
    let v = chars_of(s);
    let n = v.len();
    if n < 2 || v[0] != '|' || v[n - 1] != '|' {
        return None;
    }
    Some(s.substring_char(1, n - 1))
}

/// A character allowed in a table separator row.
pub open spec fn is_separator_char(c: char) -> bool {
    c == '-' || c == '|' || c == ':' || c == ' '
}

/// `line`, trimmed, is pipe-delimited and its inner content holds only
/// `-`, `|`, `:` and spaces (e.g. `| --- | :-: |`).
pub open spec fn spec_is_table_separator(line: Seq<char>) -> bool {
    match spec_pipe_inner(trim(line)) {
        Some(inner) => all_separator_chars(inner),
        None => false,
    }
}

/// Every character of `s` may stand in a separator row.
pub open spec fn all_separator_chars(s: Seq<char>) -> bool {
    forall|i: int| 0 <= i < s.len() ==> is_separator_char(#[trigger] s[i])
}

/// Whether the characters `v` form a separator row.
pub fn is_separator_chars(v: &[char]) -> (b: bool)
    ensures
        b == spec_is_table_separator(v@),
{
    let t = trim_vec(v);
    let n = t.len();
    if n < 2 || t[0] != '|' || t[n - 1] != '|' {
        return false;
    }
    let mut i: usize = 1;
    while i + 1 < n
        invariant
            1 <= i <= n - 1,
            n == t@.len(),
            n >= 2,
            t@ == trim(v@),
            t@[0] == '|',
            t@[n - 1] == '|',
            forall|k: int| 1 <= k < i ==> is_separator_char(#[trigger] t@[k]),
        decreases n - i,
    {
        let c = t[i];
        if !(c == '-' || c == '|' || c == ':' || c == ' ') {
            assert(t@.subrange(1, n - 1)[i - 1] == c);
            assert(!is_separator_char(t@.subrange(1, n - 1)[i - 1]));
            assert(spec_pipe_inner(trim(v@)) == Some(t@.subrange(1, n - 1)));
            let ghost inner = t@.subrange(1, n - 1);
            assert(0 <= i - 1 < inner.len());
            assert(!all_separator_chars(inner));
            return false;
        }
        i = i + 1;
    }
    assert forall|k: int| 0 <= k < t@.subrange(1, n - 1).len() implies is_separator_char(
        #[trigger] t@.subrange(1, n - 1)[k],
    ) by {
        assert(t@.subrange(1, n - 1)[k] == t@[k + 1]);
    }
    assert(all_separator_chars(t@.subrange(1, n - 1)));
    true
}

/// Check if a line is a markdown table separator (e.g. `| --- | --- |`).
pub fn is_table_separator(line: &str) -> (b: bool)
    ensures
        b == spec_is_table_separator(line@),
{
    is_separator_chars(chars_of(line).as_slice())
}

// ---------------------------------------------------------------------------
// Widths
// ---------------------------------------------------------------------------

/// The display width of the characters `v`.
pub fn chars_width(v: &[char]) -> (w: usize)
    ensures
        w == str_width(v@),
        printable_ascii(v@) ==> w == v@.len(),
{
    let s = string_from_chars(v);
    str_display_width(s.as_str())
}

/// The columns a character takes while hard-breaking: its width, or 0 for a
/// control character.
pub open spec fn col_width(c: char) -> int {
    match char_width(c) {
        Some(w) => w as int,
        None => 0,
    }
}

// ---------------------------------------------------------------------------
// Greedy word wrap
// ---------------------------------------------------------------------------

/// The state of a wrap in progress: finished lines, the current line and the
/// columns the current line takes.
pub type WrapState = (Seq<Seq<char>>, Seq<char>, int);

/// Place one character of an over-long word, starting a new line first when
/// it would overflow a non-empty line.
pub open spec fn wrap_step_char(st: WrapState, c: char, width: int) -> WrapState {
    let w = col_width(c);
    if st.2 + w > width && st.2 > 0 {
        (st.0.push(st.1), seq![c], w)
    } else {
        (st.0, st.1.push(c), st.2 + w)
    }
}

/// Place the characters of `word` one by one (a word wider than the column).
pub open spec fn wrap_hard_break(st: WrapState, word: Seq<char>, width: int) -> WrapState
    decreases word.len(),
{
    if word.len() == 0 {
        st
    } else {
        wrap_step_char(wrap_hard_break(st, word.drop_last(), width), word.last(), width)
    }
}

/// Place one word: on the current line after a space if it fits, else on a
/// fresh line, hard-broken by character when it is wider than the column.
/// An empty word (from consecutive spaces) changes nothing.
pub open spec fn wrap_place_word(st: WrapState, word: Seq<char>, width: int) -> WrapState {
    let ww = str_width(word) as int;
    if word.len() == 0 {
        st
    } else if st.2 == 0 {
        if ww <= width {
            (st.0, st.1 + word, ww)
        } else {
            wrap_hard_break(st, word, width)
        }
    } else if st.2 + 1 + ww <= width {
        (st.0, st.1.push(' ') + word, st.2 + 1 + ww)
    } else if ww <= width {
        (st.0.push(st.1), word, ww)
    } else {
        wrap_hard_break((st.0.push(st.1), Seq::<char>::empty(), 0), word, width)
    }
}

/// Place the words in order.
pub open spec fn wrap_place_words(st: WrapState, words: Seq<Seq<char>>, width: int) -> WrapState
    decreases words.len(),
{
    if words.len() == 0 {
        st
    } else {
        wrap_place_word(wrap_place_words(st, words.drop_last(), width), words.last(), width)
    }
}

/// Wrap one paragraph (split on `' '`) after the lines in `out`; the last
/// line of the paragraph is always emitted, even when empty.
pub open spec fn wrap_paragraph(out: Seq<Seq<char>>, para: Seq<char>, width: int) -> Seq<
    Seq<char>,
> {
    let st = wrap_place_words((out, Seq::<char>::empty(), 0), split_char(para, ' '), width);
    st.0.push(st.1)
}

/// Wrap the paragraphs in order.
pub open spec fn wrap_paragraphs(paras: Seq<Seq<char>>, width: int) -> Seq<Seq<char>>
    decreases paras.len(),
{
    if paras.len() == 0 {
        Seq::empty()
    } else {
        wrap_paragraph(wrap_paragraphs(paras.drop_last(), width), paras.last(), width)
    }
}

/// Greedy word wrap of `s` to `width` display columns: each `'\n'` starts a
/// new paragraph, words are separated by single spaces, a word wider than
/// the column is broken by character, and a zero width gives one empty line.
pub open spec fn spec_wrap_text(s: Seq<char>, width: int) -> Seq<Seq<char>> {
    if width == 0 {
        seq![Seq::<char>::empty()]
    } else {
        let o = wrap_paragraphs(split_char(s, '\n'), width);
        if o.len() == 0 {
            seq![Seq::<char>::empty()]
        } else {
            o
        }
    }
}

/// Breaking a word by character never takes back a finished line.
proof fn lemma_hard_break_grows(st: WrapState, word: Seq<char>, width: int)
    ensures
        wrap_hard_break(st, word, width).0.len() >= st.0.len(),
    decreases word.len(),
{
    if word.len() > 0 {
        lemma_hard_break_grows(st, word.drop_last(), width);
    }
}

/// The characters of a wrap state, line after line.
pub open spec fn wrapped_chars(st: WrapState) -> Seq<char> {
    concat(st.0) + st.1
}

/// Breaking a word by character keeps every character, in order: a
/// character wider than the column still gets a line of its own.
pub proof fn law_hard_break_keeps_characters(st: WrapState, word: Seq<char>, width: int)
    ensures
        wrapped_chars(wrap_hard_break(st, word, width)) == wrapped_chars(st) + word,
    decreases word.len(),
{
    if word.len() == 0 {
        assert(wrapped_chars(st) + word =~= wrapped_chars(st));
    } else {
        let prev = wrap_hard_break(st, word.drop_last(), width);
        law_hard_break_keeps_characters(st, word.drop_last(), width);
        let c = word.last();
        let next = wrap_step_char(prev, c, width);
        if prev.2 + col_width(c) > width && prev.2 > 0 {
            assert(next.0.drop_last() =~= prev.0);
            assert(concat(next.0) == concat(prev.0) + prev.1);
        }
        assert(wrapped_chars(next) =~= wrapped_chars(prev).push(c));
        assert(word.drop_last().push(c) =~= word);
        assert(wrapped_chars(st) + word =~= (wrapped_chars(st) + word.drop_last()).push(c));
    }
}

/// Placing words never takes back a finished line.
proof fn lemma_place_words_grows(st: WrapState, words: Seq<Seq<char>>, width: int)
    ensures
        wrap_place_words(st, words, width).0.len() >= st.0.len(),
    decreases words.len(),
{
    if words.len() > 0 {
        let st1 = wrap_place_words(st, words.drop_last(), width);
        lemma_place_words_grows(st, words.drop_last(), width);
        lemma_hard_break_grows(st1, words.last(), width);
        lemma_hard_break_grows((st1.0.push(st1.1), Seq::<char>::empty(), 0), words.last(), width);
    }
}

/// Each paragraph gives at least one line.
proof fn lemma_paragraphs_lines(paras: Seq<Seq<char>>, width: int)
    ensures
        wrap_paragraphs(paras, width).len() >= paras.len(),
    decreases paras.len(),
{
    if paras.len() > 0 {
        let out = wrap_paragraphs(paras.drop_last(), width);
        lemma_paragraphs_lines(paras.drop_last(), width);
        lemma_place_words_grows(
            (out, Seq::<char>::empty(), 0),
            split_char(paras.last(), ' '),
            width,
        );
    }
}

/// Wrapping gives at least one line, and, for a positive width, at least
/// one line for each line of the text: every line break starts a new line.
pub proof fn law_wrap_keeps_line_breaks(s: Seq<char>, width: int)
    ensures
        spec_wrap_text(s, width).len() >= 1,
        width != 0 ==> spec_wrap_text(s, width).len() >= split_char(s, '\n').len(),
{
    if width != 0 {
        lemma_paragraphs_lines(split_char(s, '\n'), width);
        lemma_split_char_nonempty(s, '\n');
    }
}

/// `s` without its spaces and line breaks: the characters a wrap keeps.
pub open spec fn without_breaks(s: Seq<char>) -> Seq<char>
    decreases s.len(),
{
    if s.len() == 0 {
        Seq::empty()
    } else if s.last() == ' ' || s.last() == '\n' {
        without_breaks(s.drop_last())
    } else {
        without_breaks(s.drop_last()).push(s.last())
    }
}

/// `without_breaks` of a concatenation is the concatenation of the parts'.
proof fn lemma_without_breaks_add(a: Seq<char>, b: Seq<char>)
    ensures
        without_breaks(a + b) == without_breaks(a) + without_breaks(b),
    decreases b.len(),
{
    if b.len() == 0 {
        assert(a + b =~= a);
        assert(without_breaks(a) + without_breaks(b) =~= without_breaks(a));
    } else {
        lemma_without_breaks_add(a, b.drop_last());
        assert((a + b).drop_last() =~= a + b.drop_last());
        assert((a + b).last() == b.last());
        if !(b.last() == ' ' || b.last() == '\n') {
            assert(without_breaks(a) + without_breaks(b) =~= (without_breaks(a) + without_breaks(
                b.drop_last(),
            )).push(b.last()));
        }
    }
}

/// Splitting at spaces or at line breaks and joining the pieces again
/// keeps the characters that are neither.
proof fn lemma_without_breaks_split(s: Seq<char>, sep: char)
    requires
        sep == ' ' || sep == '\n',
    ensures
        without_breaks(concat(split_char(s, sep))) == without_breaks(s),
    decreases s.len(),
{
    if s.len() == 0 {
        assert(concat(seq![Seq::<char>::empty()]) =~= Seq::<char>::empty()) by {
            assert(seq![Seq::<char>::empty()].drop_last() =~= Seq::<Seq<char>>::empty());
            assert(concat(Seq::<Seq<char>>::empty()) =~= Seq::<char>::empty());
            assert(seq![Seq::<char>::empty()].last() == Seq::<char>::empty());
        }
        assert(s =~= Seq::<char>::empty());
    } else {
        let d = s.drop_last();
        let c = s.last();
        lemma_without_breaks_split(d, sep);
        lemma_split_char_nonempty(d, sep);
        let r = split_char(d, sep);
        if c == sep {
            assert(r.push(Seq::<char>::empty()).drop_last() =~= r);
            assert(concat(r.push(Seq::<char>::empty())) =~= concat(r));
        } else {
            let q = r.update(r.len() - 1, r.last().push(c));
            assert(q.drop_last() =~= r.drop_last());
            assert(concat(r) == concat(r.drop_last()) + r.last());
            assert(concat(q) =~= concat(r).push(c));
            assert(concat(r).push(c).drop_last() =~= concat(r));
        }
    }
}

/// Placing a word keeps the characters of the state and of the word, in
/// order, adding at most a space.
proof fn lemma_place_word_keeps(st: WrapState, word: Seq<char>, width: int)
    ensures
        without_breaks(wrapped_chars(wrap_place_word(st, word, width))) == without_breaks(
            wrapped_chars(st),
        ) + without_breaks(word),
{
    let old_chars = wrapped_chars(st);
    let ww = str_width(word) as int;
    lemma_without_breaks_add(old_chars, word);
    let lined = (st.0.push(st.1), Seq::<char>::empty(), 0int);
    assert(st.0.push(st.1).drop_last() =~= st.0);
    assert(wrapped_chars(lined) =~= old_chars);
    if word.len() == 0 {
        assert(old_chars + word =~= old_chars);
    } else if st.2 == 0 {
        if ww <= width {
            assert(wrapped_chars(wrap_place_word(st, word, width)) =~= old_chars + word);
        } else {
            law_hard_break_keeps_characters(st, word, width);
        }
    } else if st.2 + 1 + ww <= width {
        let spaced = old_chars.push(' ');
        assert(wrapped_chars(wrap_place_word(st, word, width)) =~= spaced + word);
        lemma_without_breaks_add(spaced, word);
        assert(spaced.drop_last() =~= old_chars);
    } else if ww <= width {
        assert(wrapped_chars(wrap_place_word(st, word, width)) =~= old_chars + word);
    } else {
        law_hard_break_keeps_characters(lined, word, width);
    }
}

/// Placing words keeps the characters of the state and of the words, in
/// order.
proof fn lemma_place_words_keeps(st: WrapState, words: Seq<Seq<char>>, width: int)
    ensures
        without_breaks(wrapped_chars(wrap_place_words(st, words, width))) == without_breaks(
            wrapped_chars(st),
        ) + without_breaks(concat(words)),
    decreases words.len(),
{
    if words.len() == 0 {
        assert(without_breaks(concat(words)) =~= Seq::<char>::empty());
        assert(without_breaks(wrapped_chars(st)) + Seq::<char>::empty() =~= without_breaks(
            wrapped_chars(st),
        ));
    } else {
        let d = words.drop_last();
        lemma_place_words_keeps(st, d, width);
        lemma_place_word_keeps(wrap_place_words(st, d, width), words.last(), width);
        lemma_without_breaks_add(concat(d), words.last());
        assert(without_breaks(wrapped_chars(st)) + without_breaks(concat(d)) + without_breaks(
            words.last(),
        ) =~= without_breaks(wrapped_chars(st)) + (without_breaks(concat(d)) + without_breaks(
            words.last(),
        )));
    }
}

/// Wrapping paragraphs keeps their characters other than spaces, in order.
proof fn lemma_paragraphs_keep(paras: Seq<Seq<char>>, width: int)
    ensures
        without_breaks(concat(wrap_paragraphs(paras, width))) == without_breaks(concat(paras)),
    decreases paras.len(),
{
    if paras.len() > 0 {
        let d = paras.drop_last();
        let para = paras.last();
        lemma_paragraphs_keep(d, width);
        let out = wrap_paragraphs(d, width);
        let st0 = (out, Seq::<char>::empty(), 0int);
        let words = split_char(para, ' ');
        let st = wrap_place_words(st0, words, width);
        lemma_place_words_keeps(st0, words, width);
        lemma_without_breaks_split(para, ' ');
        assert(wrapped_chars(st0) =~= concat(out));
        assert(st.0.push(st.1).drop_last() =~= st.0);
        assert(concat(st.0.push(st.1)) == wrapped_chars(st));
        lemma_without_breaks_add(concat(d), para);
    }
}

/// Wrapping at a positive width keeps every character of the text other
/// than spaces and line breaks, in order: joined, the lines hold exactly
/// the text's words, nothing added, lost or reordered.
pub proof fn law_wrap_keeps_words(s: Seq<char>, width: int)
    requires
        width > 0,
    ensures
        without_breaks(concat(spec_wrap_text(s, width))) == without_breaks(s),
{
    let paras = split_char(s, '\n');
    lemma_paragraphs_lines(paras, width);
    lemma_split_char_nonempty(s, '\n');
    lemma_paragraphs_keep(paras, width);
    lemma_without_breaks_split(s, '\n');
}

/// The views of a sequence of strings.
pub open spec fn string_views(v: Seq<String>) -> Seq<Seq<char>> {
    v.map_values(|x: String| x@)
}

/// `s` holds only printable ASCII characters and line breaks.
pub open spec fn ascii_text(s: Seq<char>) -> bool {
    forall|i: int|
        0 <= i < s.len() ==> (0x20 <= #[trigger] (s[i] as u32) && (s[i] as u32) < 0x7F) || s[i]
            == '\n'
}

/// Every line is printable ASCII text of at most `width` characters.
pub open spec fn lines_fit(ls: Seq<Seq<char>>, width: int) -> bool {
    forall|i: int| 0 <= i < ls.len() ==> #[trigger] ls[i].len() <= width && printable_ascii(ls[i])
}

/// Placing the printable ASCII word `word` at a positive width into a state
/// whose lines fit, and whose current line is as long as its count.
pub open spec fn ascii_fits(out: Seq<Seq<char>>, line: Seq<char>, line_w: int, word: Seq<char>, width: int) -> bool {
    &&& printable_ascii(word)
    &&& width >= 1
    &&& lines_fit(out, width)
    &&& line.len() == line_w <= width
    &&& printable_ascii(line)
}

/// Push a word that is wider than `width` into `line`/`out`, breaking it by
/// character. A single character wider than the column is still emitted (it
/// can't be made narrower), so progress is always guaranteed.
fn push_hard_broken(
    out: &mut Vec<Vec<char>>,
    line: &mut Vec<char>,
    line_w: &mut usize,
    word: &[char],
    width: usize,
)
    ensures
        (views(final(out)@), final(line)@, *final(line_w) as int) == wrap_hard_break(
            (views(old(out)@), old(line)@, *old(line_w) as int),
            word@,
            width as int,
        ),
        ascii_fits(views(old(out)@), old(line)@, *old(line_w) as int, word@, width as int)
            ==> lines_fit(views(final(out)@), width as int) && final(line)@.len() == *final(line_w)
            <= width && printable_ascii(final(line)@),
{
    let ghost st0 = (views(out@), line@, *line_w as int);
    let ghost ok = ascii_fits(views(out@), line@, *line_w as int, word@, width as int);
    let mut k: usize = 0;
    assert(word@.take(0) =~= Seq::<char>::empty());
    while k < word.len()
        invariant
            k <= word@.len(),
            (views(out@), line@, *line_w as int) == wrap_hard_break(
                st0,
                word@.take(k as int),
                width as int,
            ),
            ok == ascii_fits(st0.0, st0.1, st0.2, word@, width as int),
            ok ==> lines_fit(views(out@), width as int) && line@.len() == *line_w <= width
                && printable_ascii(line@),
        decreases word.len() - k,
    {
        let ch = word[k];
        assert(word@.take(k as int + 1).drop_last() =~= word@.take(k as int));
        let cw = match char_display_width(ch) {
            Some(w) => w,
            None => 0,
        };
        let ghost before = views(out@);
        proof {
            if ok {
                assert(printable_ascii(word@));
                assert(0x20 <= (word@[k as int] as u32));
            }
        }
        if *line_w > 0 && (*line_w > width || cw > width - *line_w) {
            let mut done: Vec<char> = Vec::new();
            std::mem::swap(&mut done, line);
            out.push(done);
            assert(views(out@) =~= before.push(done@));
            *line_w = 0;
        }
        line.push(ch);
        *line_w = *line_w + cw;
        k = k + 1;
    }
    assert(word@.take(word@.len() as int) =~= word@);
}

/// Append `word` to the current line, hard-breaking when needed.
fn place_word(
    out: &mut Vec<Vec<char>>,
    line: &mut Vec<char>,
    line_w: &mut usize,
    word: &[char],
    width: usize,
)
    ensures
        (views(final(out)@), final(line)@, *final(line_w) as int) == wrap_place_word(
            (views(old(out)@), old(line)@, *old(line_w) as int),
            word@,
            width as int,
        ),
        ascii_fits(views(old(out)@), old(line)@, *old(line_w) as int, word@, width as int)
            ==> lines_fit(views(final(out)@), width as int) && final(line)@.len() == *final(line_w)
            <= width && printable_ascii(final(line)@),
{
    if word.len() == 0 {
        return;
    }
    let word_w = chars_width(word);
    let ghost before = views(out@);
    if *line_w == 0 {
        if word_w <= width {
            push_all(line, word);
            *line_w = word_w;
        } else {
            push_hard_broken(out, line, line_w, word, width);
        }
    } else if word_w < width && *line_w <= width - 1 - word_w {
        line.push(' ');
        push_all(line, word);
        *line_w = *line_w + 1 + word_w;
    } else {
        let mut done: Vec<char> = Vec::new();
            std::mem::swap(&mut done, line);
        out.push(done);
        assert(views(out@) =~= before.push(done@));
        *line_w = 0;
        if word_w <= width {
            push_all(line, word);
            *line_w = word_w;
        } else {
            push_hard_broken(out, line, line_w, word, width);
        }
    }
}

/// Appends the characters of `v` to `line`.
pub fn push_all(line: &mut Vec<char>, v: &[char])
    ensures
        final(line)@ == old(line)@ + v@,
{
    let ghost l0 = line@;
    let mut k: usize = 0;
    while k < v.len()
        invariant
            k <= v@.len(),
            line@ == l0 + v@.take(k as int),
        decreases v.len() - k,
    {
        line.push(v[k]);
        k = k + 1;
        assert(line@ =~= l0 + v@.take(k as int));
    }
    assert(v@.take(v@.len() as int) =~= v@);
}

/// Greedy word wrap of `s`, as character sequences.
pub fn wrap_chars(s: &[char], width: usize) -> (r: Vec<Vec<char>>)
    ensures
        views(r@) == spec_wrap_text(s@, width as int),
        ascii_text(s@) ==> lines_fit(views(r@), width as int),
{
    if width == 0 {
        let mut r: Vec<Vec<char>> = Vec::new();
        r.push(Vec::new());
        assert(views(r@) =~= seq![Seq::<char>::empty()]);
        return r;
    }
    let mut out: Vec<Vec<char>> = Vec::new();
    let paras = split_chars(s, '\n');
    let ghost ok = ascii_text(s@);
    proof {
        if ok {
            let pred = |c: char| (0x20 <= (c as u32) && (c as u32) < 0x7F) || c == '\n';
            assert forall|i: int| 0 <= i < s@.len() implies pred(#[trigger] s@[i]) by {}
            lemma_split_char_pieces(s@, '\n', pred);
        }
    }
    let mut p: usize = 0;
    assert(views(paras@).take(0) =~= Seq::<Seq<char>>::empty());
    while p < paras.len()
        invariant
            p <= paras@.len(),
            views(paras@) == split_char(s@, '\n'),
            width > 0,
            views(out@) == wrap_paragraphs(views(paras@).take(p as int), width as int),
            ok == ascii_text(s@),
            ok ==> forall|k: int, j: int|
                0 <= k < views(paras@).len() && 0 <= j < views(paras@)[k].len() ==> ((0x20
                    <= (#[trigger] views(paras@)[k][j] as u32) && (views(paras@)[k][j] as u32)
                    < 0x7F) || views(paras@)[k][j] == '\n') && views(paras@)[k][j] != '\n',
            ok ==> lines_fit(views(out@), width as int),
        decreases paras.len() - p,
    {
        let para = &paras[p];
        assert(views(paras@)[p as int] == para@);
        let words = split_chars(para.as_slice(), ' ');
        proof {
            if ok {
                let pred = |c: char| 0x20 <= (c as u32) && (c as u32) < 0x7F;
                assert forall|i: int| 0 <= i < para@.len() implies pred(#[trigger] para@[i]) by {
                    assert(views(paras@)[p as int][i] == para@[i]);
                }
                lemma_split_char_pieces(para@, ' ', pred);
            }
        }
        let mut line: Vec<char> = Vec::new();
        let mut line_w: usize = 0;
        let ghost out0 = views(out@);
        let mut k: usize = 0;
        assert(views(words@).take(0) =~= Seq::<Seq<char>>::empty());
        while k < words.len()
            invariant
                k <= words@.len(),
                views(words@) == split_char(para@, ' '),
                (views(out@), line@, line_w as int) == wrap_place_words(
                    (out0, Seq::<char>::empty(), 0),
                    views(words@).take(k as int),
                    width as int,
                ),
                width > 0,
                ok ==> forall|a: int, j: int|
                    0 <= a < views(words@).len() && 0 <= j < views(words@)[a].len() ==> 0x20
                        <= (#[trigger] views(words@)[a][j] as u32) && (views(words@)[a][j] as u32)
                        < 0x7F,
                ok ==> lines_fit(views(out@), width as int) && line@.len() == line_w <= width
                    && printable_ascii(line@),
            decreases words.len() - k,
        {
            assert(views(words@).take(k as int + 1).drop_last() =~= views(words@).take(k as int));
            assert(views(words@)[k as int] == words@[k as int]@);
            proof {
                if ok {
                    assert forall|j: int| 0 <= j < words@[k as int]@.len() implies 0x20 <= (
                    #[trigger] words@[k as int]@[j] as u32) && (words@[k as int]@[j] as u32)
                        < 0x7F by {
                        assert(views(words@)[k as int][j] == words@[k as int]@[j]);
                    }
                }
            }
            place_word(&mut out, &mut line, &mut line_w, words[k].as_slice(), width);
            k = k + 1;
        }
        assert(views(words@).take(words@.len() as int) =~= views(words@));
        let ghost mid = views(out@);
        let ghost last_line = line@;
        out.push(line);
        assert(views(out@) =~= mid.push(last_line));
        assert(views(paras@).take(p as int + 1).drop_last() =~= views(paras@).take(p as int));
        p = p + 1;
    }
    assert(views(paras@).take(paras@.len() as int) =~= views(paras@));
    if out.len() == 0 {
        out.push(Vec::new());
        assert(views(out@) =~= seq![Seq::<char>::empty()]);
    }
    out
}

/// Converts character vectors to strings.
pub fn strings_of(v: &Vec<Vec<char>>) -> (r: Vec<String>)
    ensures
        string_views(r@) == views(v@),
{
    let mut r: Vec<String> = Vec::new();
    let mut k: usize = 0;
    while k < v.len()
        invariant
            k <= v@.len(),
            string_views(r@) == views(v@).take(k as int),
        decreases v.len() - k,
    {
        let s = string_from_chars(v[k].as_slice());
        let ghost before = string_views(r@);
        r.push(s);
        assert(string_views(r@) =~= before.push(s@));
        k = k + 1;
        assert(views(v@).take(k as int) =~= views(v@).take(k as int - 1).push(v@[k as int - 1]@));
    }
    assert(views(v@).take(v@.len() as int) =~= views(v@));
    r
}

/// Greedily word-wrap a string to fit within `width` display columns.
///
/// Words are split on ASCII spaces; a word longer than the column is
/// hard-broken by character. Each `\n` in the input starts a new output line.
/// Width is measured in terminal display columns, so wide (e.g. CJK)
/// characters count for two.
pub fn wrap_text(s: &str, width: usize) -> (r: Vec<String>)
    ensures
        string_views(r@) == spec_wrap_text(s@, width as int),
        ascii_text(s@) ==> lines_fit(string_views(r@), width as int),
        width > 0 ==> without_breaks(concat(string_views(r@))) == without_breaks(s@),
{
    let v = chars_of(s);
    let w = wrap_chars(v.as_slice(), width);
    let r = strings_of(&w);
    proof {
        if width > 0 {
            law_wrap_keeps_words(s@, width as int);
        }
    }
    r
}


// ---------------------------------------------------------------------------
// Proportional column shrinking
// ---------------------------------------------------------------------------

/// The sum of `s`.
pub open spec fn sum_of(s: Seq<int>) -> int
    decreases s.len(),
{
    if s.len() == 0 {
        0
    } else {
        sum_of(s.drop_last()) + s.last()
    }
}

/// The widths as integers.
pub open spec fn ints(w: Seq<usize>) -> Seq<int> {
    Seq::new(w.len(), |i: int| w[i] as int)
}

/// The room of each column above the floor of one column.
pub open spec fn shrinkable(w: Seq<usize>) -> Seq<int> {
    Seq::new(w.len(), |i: int| if w[i] >= 1 { w[i] - 1 } else { 0 })
}

/// How far column `j` is from its exact proportional share, scaled by the
/// total room `ts`: `(s[j] * rem / ts - alloc[j]) * ts`.
pub open spec fn share_key(s: Seq<int>, rem: int, ts: int, alloc: Seq<int>, j: int) -> int {
    s[j] * rem - alloc[j] * ts
}

/// Among the first `i` columns that can still grow (`alloc[j] < s[j]`), the
/// first one with the largest `share_key`.
pub open spec fn pick_column(s: Seq<int>, rem: int, ts: int, alloc: Seq<int>, i: int) -> Option<
    int,
>
    decreases i,
{
    if i <= 0 {
        None
    } else {
        let b = pick_column(s, rem, ts, alloc, i - 1);
        let j = i - 1;
        if alloc[j] < s[j] && (b is None || share_key(s, rem, ts, alloc, j) > share_key(
            s,
            rem,
            ts,
            alloc,
            b->0,
        )) {
            Some(j)
        } else {
            b
        }
    }
}

/// A picked column is one of the first `i` and can still grow.
proof fn lemma_pick_column(s: Seq<int>, rem: int, ts: int, alloc: Seq<int>, i: int)
    ensures
        pick_column(s, rem, ts, alloc, i) matches Some(j) ==> 0 <= j < i && alloc[j] < s[j],
    decreases i,
{
    if i > 0 {
        lemma_pick_column(s, rem, ts, alloc, i - 1);
    }
}

/// Hand out `k` more columns one at a time, each to the column picked by
/// `pick_column`, stopping early when no column can grow.
pub open spec fn distribute(s: Seq<int>, rem: int, ts: int, alloc: Seq<int>, k: int) -> Seq<int>
    decreases k,
{
    if k <= 0 {
        alloc
    } else {
        match pick_column(s, rem, ts, alloc, s.len() as int) {
            None => alloc,
            Some(j) => distribute(s, rem, ts, alloc.update(j, alloc[j] + 1), k - 1),
        }
    }
}

/// Shrink the widths `w` to a total of `target` columns, never below one
/// column each: each column keeps a share of the room above the floor
/// proportional to its own room (rounded down), and the columns left over go
/// one by one to the largest fractional remainders. Widths that already fit
/// are kept.
pub open spec fn spec_shrink_widths(w: Seq<usize>, target: int) -> Seq<int> {
    let n = w.len() as int;
    if sum_of(ints(w)) <= target || n == 0 {
        ints(w)
    } else {
        let rem = if target >= n { target - n } else { 0 };
        let s = shrinkable(w);
        let ts = sum_of(s);
        if ts == 0 || rem == 0 {
            Seq::new(n as nat, |i: int| 1)
        } else {
            let floors = Seq::new(n as nat, |i: int| s[i] * rem / ts);
            let alloc = distribute(s, rem, ts, floors, rem - sum_of(floors));
            Seq::new(n as nat, |i: int| 1 + alloc[i])
        }
    }
}


/// An element of a sequence of non-negative integers is at most its sum.
pub proof fn lemma_elem_le_sum(s: Seq<int>, j: int)
    requires
        0 <= j < s.len(),
        forall|k: int| 0 <= k < s.len() ==> s[k] >= 0,
    ensures
        s[j] <= sum_of(s),
        sum_of(s) >= 0,
    decreases s.len(),
{
    lemma_sum_nonneg(s.drop_last());
    if j < s.len() - 1 {
        lemma_elem_le_sum(s.drop_last(), j);
        assert(s.drop_last()[j] == s[j]);
    }
}

/// The sum of non-negative integers is non-negative.
pub proof fn lemma_sum_nonneg(s: Seq<int>)
    requires
        forall|k: int| 0 <= k < s.len() ==> s[k] >= 0,
    ensures
        sum_of(s) >= 0,
    decreases s.len(),
{
    if s.len() > 0 {
        lemma_sum_nonneg(s.drop_last());
    }
}

/// Adding one to an element adds one to the sum.
pub proof fn lemma_sum_update_inc(a: Seq<int>, j: int)
    requires
        0 <= j < a.len(),
    ensures
        sum_of(a.update(j, a[j] + 1)) == sum_of(a) + 1,
    decreases a.len(),
{
    let b = a.update(j, a[j] + 1);
    if j < a.len() - 1 {
        assert(b.drop_last() =~= a.drop_last().update(j, a[j] + 1));
        lemma_sum_update_inc(a.drop_last(), j);
    } else {
        assert(b.drop_last() =~= a.drop_last());
    }
}

/// The floors of the exact shares add up to at most the room handed out:
/// `ts * sum(floor(s[k] * rem / ts)) <= rem * sum(s)` over every prefix.
proof fn lemma_sum_floors(s: Seq<int>, rem: int, ts: int, i: int)
    requires
        ts > 0,
        rem >= 0,
        0 <= i <= s.len(),
        forall|k: int| 0 <= k < s.len() ==> s[k] >= 0,
    ensures
        ts * sum_of(Seq::new(s.len(), |k: int| s[k] * rem / ts).take(i)) <= rem * sum_of(
            s.take(i),
        ),
    decreases i,
{
    let f = Seq::new(s.len(), |k: int| s[k] * rem / ts);
    if i > 0 {
        lemma_sum_floors(s, rem, ts, i - 1);
        assert(f.take(i).drop_last() =~= f.take(i - 1));
        assert(s.take(i).drop_last() =~= s.take(i - 1));
        let x = s[i - 1] * rem;
        vstd::arithmetic::div_mod::lemma_fundamental_div_mod(x, ts);
        vstd::arithmetic::div_mod::lemma_mod_bound(x, ts);
        let a = sum_of(f.take(i - 1));
        let b = sum_of(s.take(i - 1));
        let q = x / ts;
        assert(ts * (a + q) <= rem * (b + s[i - 1])) by (nonlinear_arith)
            requires
                ts * a <= rem * b,
                x == ts * q + x % ts,
                x % ts >= 0,
                x == s[i - 1] * rem,
        ;
    }
}

/// Handing out columns keeps the length, never lowers a column, and adds at
/// most `k` in total.
proof fn lemma_distribute(s: Seq<int>, rem: int, ts: int, alloc: Seq<int>, k: int)
    requires
        alloc.len() == s.len(),
    ensures
        distribute(s, rem, ts, alloc, k).len() == alloc.len(),
        forall|j: int|
            0 <= j < alloc.len() ==> #[trigger] distribute(s, rem, ts, alloc, k)[j] >= alloc[j],
        sum_of(distribute(s, rem, ts, alloc, k)) <= sum_of(alloc) + (if k > 0 {
            k
        } else {
            0
        }),
    decreases k,
{
    if k > 0 {
        lemma_pick_column(s, rem, ts, alloc, s.len() as int);
        match pick_column(s, rem, ts, alloc, s.len() as int) {
            None => {},
            Some(j) => {
                let a2 = alloc.update(j, alloc[j] + 1);
                lemma_distribute(s, rem, ts, a2, k - 1);
                lemma_sum_update_inc(alloc, j);
            },
        }
    }
}

/// A shrunk width is at least one column and at most the larger of the
/// target and one column; a width that is kept already fits the target.
pub proof fn law_shrunk_widths_bounded(w: Seq<usize>, target: int)
    requires
        0 <= target,
    ensures
        spec_shrink_widths(w, target).len() == w.len(),
        forall|j: int|
            0 <= j < w.len() ==> 1 <= #[trigger] spec_shrink_widths(w, target)[j] <= imax(
                target,
                1,
            ) || (spec_shrink_widths(w, target)[j] == w[j] && w[j] <= target),
{
    let n = w.len() as int;
    let r = spec_shrink_widths(w, target);
    if sum_of(ints(w)) <= target || n == 0 {
        assert forall|j: int| 0 <= j < n implies #[trigger] r[j] == w[j] && w[j] <= target by {
            lemma_elem_le_sum(ints(w), j);
        }
    } else {
        let rem = if target >= n {
            target - n
        } else {
            0
        };
        let s = shrinkable(w);
        let ts = sum_of(s);
        lemma_sum_nonneg(s);
        if ts == 0 || rem == 0 {
        } else {
            let floors = Seq::new(n as nat, |i: int| s[i] * rem / ts);
            let k = rem - sum_of(floors);
            let alloc = distribute(s, rem, ts, floors, k);
            lemma_sum_floors(s, rem, ts, n);
            assert(floors.take(n) =~= floors);
            assert(s.take(n) =~= s);
            assert(sum_of(floors) <= rem) by (nonlinear_arith)
                requires
                    ts * sum_of(floors) <= rem * ts,
                    ts > 0,
            ;
            assert forall|i: int| 0 <= i < n implies floors[i] >= 0 by {
                vstd::arithmetic::div_mod::lemma_div_pos_is_pos(s[i] * rem, ts);
                assert(s[i] * rem >= 0) by (nonlinear_arith)
                    requires
                        s[i] >= 0,
                        rem >= 0,
                ;
            }
            lemma_distribute(s, rem, ts, floors, k);
            assert forall|j: int| 0 <= j < n implies 1 <= #[trigger] r[j] <= imax(target, 1) by {
                lemma_elem_le_sum(alloc, j);
            }
        }
    }
}

/// Some column that can still grow is picked whenever there is one.
proof fn lemma_pick_found(s: Seq<int>, rem: int, ts: int, alloc: Seq<int>, i: int, j: int)
    requires
        0 <= j < i,
        alloc[j] < s[j],
    ensures
        pick_column(s, rem, ts, alloc, i) is Some,
    decreases i,
{
    if j < i - 1 {
        lemma_pick_found(s, rem, ts, alloc, i - 1, j);
    }
}

/// When no element of `a` is below the matching element of `b`, the sum of
/// `a` is at least the sum of `b`.
proof fn lemma_sum_mono(a: Seq<int>, b: Seq<int>)
    requires
        a.len() == b.len(),
        forall|j: int| 0 <= j < a.len() ==> a[j] >= b[j],
    ensures
        sum_of(a) >= sum_of(b),
    decreases a.len(),
{
    if a.len() > 0 {
        lemma_sum_mono(a.drop_last(), b.drop_last());
    }
}

/// Handing out `k` columns hands out all of them while the total stays
/// within the room `sum(s)`.
proof fn lemma_distribute_fills(s: Seq<int>, rem: int, ts: int, alloc: Seq<int>, k: int)
    requires
        alloc.len() == s.len(),
        k >= 0,
        sum_of(alloc) + k <= sum_of(s),
    ensures
        sum_of(distribute(s, rem, ts, alloc, k)) == sum_of(alloc) + k,
    decreases k,
{
    if k > 0 {
        if forall|j: int| 0 <= j < s.len() ==> alloc[j] >= s[j] {
            lemma_sum_mono(alloc, s);
        }
        let j = choose|j: int| 0 <= j < s.len() && alloc[j] < s[j];
        lemma_pick_found(s, rem, ts, alloc, s.len() as int, j);
        lemma_pick_column(s, rem, ts, alloc, s.len() as int);
        let p = pick_column(s, rem, ts, alloc, s.len() as int)->0;
        let a2 = alloc.update(p, alloc[p] + 1);
        lemma_sum_update_inc(alloc, p);
        lemma_distribute_fills(s, rem, ts, a2, k - 1);
    }
}

/// Widths that do not fit and leave at least one column each are shrunk to
/// exactly the target in total.
pub proof fn law_shrunk_widths_sum_to_target(w: Seq<usize>, target: int)
    requires
        w.len() <= target < sum_of(ints(w)),
    ensures
        sum_of(spec_shrink_widths(w, target)) == target,
{
    let n = w.len() as int;
    let r = spec_shrink_widths(w, target);
    let rem = target - n;
    let s = shrinkable(w);
    let ts = sum_of(s);
    lemma_shrinkable_room(w, n);
    assert forall|i: int| 0 <= i < n implies s[i] >= 0 by {}
    lemma_sum_nonneg(s);
    if rem == 0 {
        assert(r =~= Seq::new(n as nat, |i: int| 1int));
        lemma_sum_const_one(n);
    } else {
        assert(ts > rem);
        let floors = Seq::new(n as nat, |i: int| s[i] * rem / ts);
        let k = rem - sum_of(floors);
        lemma_sum_floors(s, rem, ts, n);
        assert(floors.take(n) =~= floors);
        assert(s.take(n) =~= s);
        assert(sum_of(floors) <= rem) by (nonlinear_arith)
            requires
                ts * sum_of(floors) <= rem * ts,
                ts > 0,
        ;
        lemma_distribute_fills(s, rem, ts, floors, k);
        let alloc = distribute(s, rem, ts, floors, k);
        lemma_distribute(s, rem, ts, floors, k);
        assert(r =~= Seq::new(n as nat, |i: int| 1 + alloc[i]));
        lemma_sum_plus_one(alloc);
    }
}

/// `n` ones add up to `n`.
proof fn lemma_sum_const_one(n: int)
    requires
        n >= 0,
    ensures
        sum_of(Seq::new(n as nat, |i: int| 1int)) == n,
    decreases n,
{
    if n > 0 {
        assert(Seq::new(n as nat, |i: int| 1int).drop_last() =~= Seq::new((n - 1) as nat, |i: int| 1int));
        lemma_sum_const_one(n - 1);
    }
}

/// Adding one to every element adds the length to the sum.
proof fn lemma_sum_plus_one(a: Seq<int>)
    ensures
        sum_of(Seq::new(a.len(), |i: int| 1 + a[i])) == sum_of(a) + a.len(),
    decreases a.len(),
{
    if a.len() > 0 {
        let b = Seq::new(a.len(), |i: int| 1 + a[i]);
        let a2 = a.drop_last();
        assert(b.drop_last() =~= Seq::new(a2.len(), |i: int| 1 + a2[i]));
        lemma_sum_plus_one(a2);
    }
}

/// Widths that already fit the target are kept as they are.
pub proof fn law_fitting_widths_kept(w: Seq<usize>, target: int)
    requires
        sum_of(ints(w)) <= target,
    ensures
        spec_shrink_widths(w, target) == ints(w),
{
}

/// The column picked has a share key at least that of every other column
/// among the first `i` that can still grow; none is picked only when none
/// of them can grow.
proof fn lemma_pick_max(s: Seq<int>, rem: int, ts: int, alloc: Seq<int>, i: int)
    ensures
        pick_column(s, rem, ts, alloc, i) matches Some(p) ==> forall|j: int|
            0 <= j < i && alloc[j] < s[j] ==> share_key(s, rem, ts, alloc, p) >= #[trigger] share_key(
                s,
                rem,
                ts,
                alloc,
                j,
            ),
        pick_column(s, rem, ts, alloc, i) is None ==> forall|j: int|
            0 <= j < i ==> !(#[trigger] alloc[j] < s[j]),
    decreases i,
{
    if i > 0 {
        lemma_pick_max(s, rem, ts, alloc, i - 1);
        let b = pick_column(s, rem, ts, alloc, i - 1);
        let j0 = i - 1;
        if alloc[j0] < s[j0] && (b is None || share_key(s, rem, ts, alloc, j0) > share_key(
            s,
            rem,
            ts,
            alloc,
            b->0,
        )) {
            assert(pick_column(s, rem, ts, alloc, i) == Some(j0));
        } else {
            assert(pick_column(s, rem, ts, alloc, i) == b);
        }
    }
}

/// A column with more room never holds less than a column with less room,
/// and no column holds more than its room: handing out columns keeps both.
proof fn lemma_distribute_ordered(s: Seq<int>, rem: int, ts: int, alloc: Seq<int>, k: int)
    requires
        alloc.len() == s.len(),
        rem > 0,
        ts > 0,
        forall|j: int| 0 <= j < s.len() ==> alloc[j] <= s[j],
        forall|a: int, b: int|
            0 <= a < s.len() && 0 <= b < s.len() && s[a] > s[b] ==> alloc[a] >= alloc[b],
    ensures
        forall|j: int| 0 <= j < s.len() ==> distribute(s, rem, ts, alloc, k)[j] <= s[j],
        forall|a: int, b: int|
            0 <= a < s.len() && 0 <= b < s.len() && s[a] > s[b] ==> distribute(
                s,
                rem,
                ts,
                alloc,
                k,
            )[a] >= distribute(s, rem, ts, alloc, k)[b],
    decreases k,
{
    if k > 0 {
        lemma_pick_column(s, rem, ts, alloc, s.len() as int);
        lemma_pick_max(s, rem, ts, alloc, s.len() as int);
        match pick_column(s, rem, ts, alloc, s.len() as int) {
            None => {},
            Some(p) => {
                let a2 = alloc.update(p, alloc[p] + 1);
                assert forall|a: int, b: int|
                    0 <= a < s.len() && 0 <= b < s.len() && s[a] > s[b] implies a2[a] >= a2[b] by {
                    if b == p && a != p {
                        if alloc[a] < s[a] {
                            assert(share_key(s, rem, ts, alloc, p) >= share_key(s, rem, ts, alloc, a));
                            assert(alloc[a] > alloc[b]) by (nonlinear_arith)
                                requires
                                    s[b] * rem - alloc[b] * ts >= s[a] * rem - alloc[a] * ts,
                                    s[a] > s[b],
                                    rem > 0,
                                    ts > 0,
                            ;
                        }
                    }
                }
                lemma_distribute_ordered(s, rem, ts, a2, k - 1);
            },
        }
    }
}

/// A wider column is never shrunk to less than a narrower one.
pub proof fn law_wider_column_keeps_more(w: Seq<usize>, target: int, a: int, b: int)
    requires
        0 <= target,
        0 <= a < w.len(),
        0 <= b < w.len(),
        w[a] > w[b],
    ensures
        spec_shrink_widths(w, target)[a] >= spec_shrink_widths(w, target)[b],
{
    let n = w.len() as int;
    if !(sum_of(ints(w)) <= target || n == 0) {
        let rem = if target >= n {
            target - n
        } else {
            0
        };
        let s = shrinkable(w);
        let ts = sum_of(s);
        if !(ts == 0 || rem == 0) {
            lemma_sum_nonneg(s);
            lemma_shrinkable_room(w, n);
            let floors = Seq::new(n as nat, |i: int| s[i] * rem / ts);
            assert forall|j: int| 0 <= j < n implies 0 <= #[trigger] floors[j] <= s[j] by {
                lemma_floor_share(s[j], rem, ts);
            }
            assert forall|x: int, y: int| 0 <= x < n && 0 <= y < n && s[x] > s[y] implies #[trigger] floors[x]
                >= #[trigger] floors[y] by {
                assert(s[x] * rem >= s[y] * rem) by (nonlinear_arith)
                    requires
                        s[x] > s[y],
                        rem > 0,
                ;
                vstd::arithmetic::div_mod::lemma_div_is_ordered(s[y] * rem, s[x] * rem, ts);
            }
            let k = rem - sum_of(floors);
            lemma_distribute_ordered(s, rem, ts, floors, k);
            lemma_distribute(s, rem, ts, floors, k);
            let alloc = distribute(s, rem, ts, floors, k);
            if w[b] >= 1 {
                assert(s[a] > s[b]);
            } else {
                assert(alloc[b] <= s[b]);
                assert(alloc[a] >= floors[a]);
            }
        }
    }
}

/// Widths that do not fit are each shrunk to between one column and their
/// own width (one when it was zero), and add up to the larger of the target
/// and one column per column.
pub proof fn law_shrunk_widths_within_columns(w: Seq<usize>, target: int)
    requires
        0 <= target < sum_of(ints(w)),
    ensures
        forall|j: int|
            0 <= j < w.len() ==> 1 <= #[trigger] spec_shrink_widths(w, target)[j] <= imax(
                w[j] as int,
                1,
            ),
        sum_of(spec_shrink_widths(w, target)) == imax(target, w.len() as int),
{
    let n = w.len() as int;
    let r = spec_shrink_widths(w, target);
    let rem = if target >= n {
        target - n
    } else {
        0
    };
    let s = shrinkable(w);
    let ts = sum_of(s);
    assert(n > 0) by {
        if n == 0 {
            assert(ints(w) =~= Seq::<int>::empty());
        }
    }
    lemma_shrinkable_room(w, n);
    lemma_sum_nonneg(s);
    if ts == 0 || rem == 0 {
        assert(r =~= Seq::new(n as nat, |i: int| 1int));
        lemma_sum_const_one(n);
        assert(rem == 0);
    } else {
        let floors = Seq::new(n as nat, |i: int| s[i] * rem / ts);
        assert forall|j: int| 0 <= j < n implies 0 <= #[trigger] floors[j] <= s[j] by {
            lemma_floor_share(s[j], rem, ts);
        }
        assert forall|x: int, y: int| 0 <= x < n && 0 <= y < n && s[x] > s[y] implies #[trigger] floors[x]
            >= #[trigger] floors[y] by {
            assert(s[x] * rem >= s[y] * rem) by (nonlinear_arith)
                requires
                    s[x] > s[y],
                    rem > 0,
            ;
            vstd::arithmetic::div_mod::lemma_div_is_ordered(s[y] * rem, s[x] * rem, ts);
        }
        let k = rem - sum_of(floors);
        lemma_distribute_ordered(s, rem, ts, floors, k);
        lemma_distribute(s, rem, ts, floors, k);
        let alloc = distribute(s, rem, ts, floors, k);
        assert forall|j: int| 0 <= j < n implies 1 <= #[trigger] r[j] <= imax(w[j] as int, 1) by {
            assert(r[j] == 1 + alloc[j]);
            assert(alloc[j] <= s[j]);
            assert(alloc[j] >= floors[j]);
        }
        law_shrunk_widths_sum_to_target(w, target);
    }
}

/// The widths of a `Vec<usize>` as integers.
pub open spec fn usize_ints(v: Seq<usize>) -> Seq<int> {
    ints(v)
}

/// Comparing shares by increments then remainders agrees with `share_key`.
proof fn lemma_key_compare(sj: int, sb: int, rem: int, ts: int, aj: int, ab: int)
    requires
        ts > 0,
        rem >= 0,
        sj >= 0,
        sb >= 0,
        aj >= sj * rem / ts,
        ab >= sb * rem / ts,
    ensures
        (sj * rem - aj * ts > sb * rem - ab * ts) <==> ((aj - sj * rem / ts) < (ab - sb * rem
            / ts) || ((aj - sj * rem / ts) == (ab - sb * rem / ts) && (sj * rem) % ts > (sb
            * rem) % ts)),
{
    let qj = sj * rem / ts;
    let qb = sb * rem / ts;
    let rj = (sj * rem) % ts;
    let rb = (sb * rem) % ts;
    vstd::arithmetic::div_mod::lemma_fundamental_div_mod(sj * rem, ts);
    vstd::arithmetic::div_mod::lemma_fundamental_div_mod(sb * rem, ts);
    vstd::arithmetic::div_mod::lemma_mod_bound(sj * rem, ts);
    vstd::arithmetic::div_mod::lemma_mod_bound(sb * rem, ts);
    let ej = aj - qj;
    let eb = ab - qb;
    assert(sj * rem - aj * ts == rj - ej * ts) by (nonlinear_arith)
        requires
            sj * rem == ts * qj + rj,
            ej == aj - qj,
    ;
    assert(sb * rem - ab * ts == rb - eb * ts) by (nonlinear_arith)
        requires
            sb * rem == ts * qb + rb,
            eb == ab - qb,
    ;
    if ej < eb {
        assert(ej * ts + ts <= eb * ts) by (nonlinear_arith)
            requires
                ej < eb,
                ts > 0,
        ;
    } else if ej > eb {
        assert(eb * ts + ts <= ej * ts) by (nonlinear_arith)
            requires
                eb < ej,
                ts > 0,
        ;
    }
}

/// A share `s * rem / ts` of a room `s`, with `rem <= ts`, is between zero
/// and the room.
proof fn lemma_floor_share(s: int, rem: int, ts: int)
    requires
        s >= 0,
        0 <= rem <= ts,
        ts > 0,
    ensures
        0 <= s * rem / ts <= s,
{
    assert(0 <= s * rem <= s * ts) by (nonlinear_arith)
        requires
            0 <= rem <= ts,
            s >= 0,
    ;
    vstd::arithmetic::div_mod::lemma_div_is_ordered(s * rem, s * ts, ts);
    vstd::arithmetic::div_mod::lemma_div_pos_is_pos(s * rem, ts);
    assert(s * ts / ts == s) by (nonlinear_arith)
        requires
            ts > 0,
    ;
}

/// Shrink a set of intrinsic column widths down to a total of `target`
/// display columns, never going below a floor of 1 per column.
///
/// Each column keeps a share of the available budget proportional to its size
/// above the floor, with the remainder distributed by largest fractional part,
/// computed exactly in integers.
#[verifier::spinoff_prover]
pub fn shrink_widths(widths: &[usize], target: usize) -> (r: Vec<usize>)
    ensures
        usize_ints(r@) == spec_shrink_widths(widths@, target as int),
{
    let n = widths.len();
    let mut total: u128 = 0;
    let mut i: usize = 0;
    while i < n
        invariant
            i <= n == widths@.len(),
            total == sum_of(ints(widths@.take(i as int))),
            total <= i * 0x1_0000_0000_0000_0000u128,
        decreases n - i,
    {
        assert(ints(widths@.take(i as int + 1)).drop_last() =~= ints(widths@.take(i as int)));
        total = total + widths[i] as u128;
        i = i + 1;
    }
    assert(widths@.take(n as int) =~= widths@);
    if total <= target as u128 || n == 0 {
        let r = vstd::slice::slice_to_vec(widths);
        assert(usize_ints(r@) =~= ints(widths@));
        return r;
    }
    let rem: usize = if target >= n { target - n } else { 0 };
    let ghost sh = shrinkable(widths@);
    let mut s: Vec<usize> = Vec::new();
    let mut ts: u128 = 0;
    i = 0;
    while i < n
        invariant
            i <= n == widths@.len(),
            sh == shrinkable(widths@),
            s@.len() == i,
            forall|k: int| 0 <= k < i ==> s@[k] == sh[k],
            ts == sum_of(sh.take(i as int)),
            ts <= i * 0x1_0000_0000_0000_0000u128,
        decreases n - i,
    {
        assert(sh.take(i as int + 1).drop_last() =~= sh.take(i as int));
        let x = if widths[i] >= 1 { widths[i] - 1 } else { 0 };
        s.push(x);
        ts = ts + x as u128;
        i = i + 1;
    }
    assert(sh.take(n as int) =~= sh);
    if ts == 0 || rem == 0 {
        let mut r: Vec<usize> = Vec::new();
        i = 0;
        while i < n
            invariant
                i <= n,
                r@.len() == i,
                forall|k: int| 0 <= k < i ==> r@[k] == 1,
            decreases n - i,
        {
            r.push(1);
            i = i + 1;
        }
        assert(usize_ints(r@) =~= Seq::new(n as nat, |k: int| 1));
        return r;
    }
    proof {
        lemma_shrinkable_room(widths@, n as int);
    }
    assert(rem < ts);
    // Floors and remainders of each exact share.
    let ghost remi = rem as int;
    let ghost tsi = ts as int;
    let ghost floors = Seq::new(n as nat, |k: int| sh[k] * remi / tsi);
    assert forall|k: int| 0 <= k < n implies 0 <= #[trigger] floors[k] <= sh[k] by {
        lemma_floor_share(sh[k], remi, tsi);
    }
    let mut q: Vec<u128> = Vec::new();
    let mut rr: Vec<u128> = Vec::new();
    let mut alloc: Vec<usize> = Vec::new();
    let mut assigned: u128 = 0;
    i = 0;
    while i < n
        invariant
            i <= n == s@.len() == sh.len(),
            forall|k: int| 0 <= k < n ==> s@[k] == sh[k],
            tsi == ts > 0,
            remi == rem < ts,
            floors == Seq::new(n as nat, |k: int| sh[k] * remi / tsi),
            q@.len() == i,
            rr@.len() == i,
            alloc@.len() == i,
            forall|k: int| 0 <= k < i ==> #[trigger] q@[k] == floors[k],
            forall|k: int| 0 <= k < i ==> #[trigger] rr@[k] == (sh[k] * remi) % tsi,
            forall|k: int| 0 <= k < i ==> #[trigger] alloc@[k] == floors[k],
            forall|k: int| 0 <= k < n ==> 0 <= #[trigger] floors[k] <= sh[k],
            assigned == sum_of(floors.take(i as int)),
            assigned <= i * 0x1_0000_0000_0000_0000u128,
        decreases n - i,
    {
        let a = s[i] as u128;
        let b = rem as u128;
        assert(a * b <= 0xFFFF_FFFF_FFFF_FFFFu128 * 0xFFFF_FFFF_FFFF_FFFFu128) by (nonlinear_arith)
            requires
                a <= 0xFFFF_FFFF_FFFF_FFFFu128,
                b <= 0xFFFF_FFFF_FFFF_FFFFu128,
        ;
        let x = a * b;
        let qi = x / ts;
        let ri = x % ts;
        proof {
            assert(x == sh[i as int] * remi);
            assert(qi as int == floors[i as int]);
            assert(0 <= floors[i as int] <= sh[i as int]);
            assert(sh[i as int] == s@[i as int]);
            assert(floors.take(i as int + 1).drop_last() =~= floors.take(i as int));
        }
        q.push(qi);
        rr.push(ri);
        alloc.push(qi as usize);
        assigned = assigned + qi;
        i = i + 1;
    }
    assert(floors.take(n as int) =~= floors);
    assert(usize_ints(alloc@) =~= floors);
    assert forall|k: int| 0 <= k < n implies q@[k] == sh[k] * remi / tsi && rr@[k] == (sh[k]
        * remi) % tsi by {
        assert(floors[k] == sh[k] * remi / tsi);
    }
    assert forall|k: int| 0 <= k < n implies q@[k] <= #[trigger] alloc@[k] <= sh[k] by {
        assert(floors[k] == sh[k] * remi / tsi);
    }
    let ghost goal = distribute(sh, remi, tsi, floors, remi - sum_of(floors));
    let mut steps: u128 = if assigned < rem as u128 { rem as u128 - assigned } else { 0 };
    assert(distribute(sh, remi, tsi, usize_ints(alloc@), steps as int) == goal);
    loop
        invariant
            n == s@.len() == sh.len() == q@.len() == rr@.len() == alloc@.len(),
            forall|k: int| 0 <= k < n ==> s@[k] == sh[k],
            tsi == ts > 0,
            remi == rem,
            forall|k: int|
                0 <= k < n ==> q@[k] == sh[k] * remi / tsi && rr@[k] == (sh[k] * remi) % tsi,
            forall|k: int| 0 <= k < n ==> q@[k] <= #[trigger] alloc@[k] <= sh[k],
            distribute(sh, remi, tsi, usize_ints(alloc@), steps as int) == goal,
        ensures
            n == alloc@.len() == sh.len(),
            usize_ints(alloc@) == goal,
            forall|k: int| 0 <= k < n ==> #[trigger] alloc@[k] <= sh[k],
        decreases steps,
    {
        if steps == 0 {
            break;
        }
        // Pick the column with the largest fractional remainder that still
        // has room above the floor.
        let mut best: Option<usize> = None;
        let mut j: usize = 0;
        while j < n
            invariant
                j <= n == s@.len() == sh.len() == q@.len() == rr@.len() == alloc@.len(),
                forall|k: int| 0 <= k < n ==> s@[k] == sh[k],
                tsi == ts > 0,
                remi == rem,
                forall|k: int|
                    0 <= k < n ==> q@[k] == sh[k] * remi / tsi && rr@[k] == (sh[k] * remi) % tsi,
                forall|k: int| 0 <= k < n ==> q@[k] <= #[trigger] alloc@[k] <= sh[k],
                best == (match pick_column(sh, remi, tsi, usize_ints(alloc@), j as int) {
                    Some(b) => Some(b as usize),
                    None => None::<usize>,
                }),
                forall|b: usize| best == Some(b) ==> b < j,
            decreases n - j,
        {
            proof {
                lemma_pick_column(sh, remi, tsi, usize_ints(alloc@), j as int);
                lemma_pick_column(sh, remi, tsi, usize_ints(alloc@), j as int + 1);
            }
            if alloc[j] < s[j] {
                let better = match best {
                    None => true,
                    Some(b) => {
                        let ej = alloc[j] as u128 - q[j];
                        let eb = alloc[b] as u128 - q[b];
                        proof {
                            lemma_key_compare(
                                sh[j as int],
                                sh[b as int],
                                remi,
                                tsi,
                                alloc@[j as int] as int,
                                alloc@[b as int] as int,
                            );
                        }
                        assert(share_key(sh, remi, tsi, usize_ints(alloc@), j as int) == sh[j as int]
                            * remi - alloc@[j as int] * tsi);
                        assert(share_key(sh, remi, tsi, usize_ints(alloc@), b as int) == sh[b as int]
                            * remi - alloc@[b as int] * tsi);
                        ej < eb || (ej == eb && rr[j] > rr[b])
                    },
                };
                if better {
                    best = Some(j);
                }
            }
            j = j + 1;
        }
        proof {
            lemma_pick_column(sh, remi, tsi, usize_ints(alloc@), n as int);
        }
        match best {
            None => {
                break;
            },
            Some(b) => {
                let ghost before = usize_ints(alloc@);
                let v = alloc[b] + 1;
                alloc.set(b, v);
                assert(usize_ints(alloc@) =~= before.update(b as int, before[b as int] + 1));
                steps = steps - 1;
            },
        }
    }
    let mut r: Vec<usize> = Vec::new();
    i = 0;
    while i < n
        invariant
            i <= n == alloc@.len() == sh.len(),
            forall|k: int| 0 <= k < n ==> #[trigger] alloc@[k] <= sh[k] < usize::MAX,
            r@.len() == i,
            forall|k: int| 0 <= k < i ==> r@[k] == 1 + alloc@[k],
        decreases n - i,
    {
        r.push(1 + alloc[i]);
        i = i + 1;
    }
    assert(usize_ints(r@) =~= Seq::new(n as nat, |k: int| 1 + goal[k]));
    r
}

/// The room above the floor exceeds the columns left once each column has
/// its floor, when the widths do not fit.
proof fn lemma_shrinkable_room(w: Seq<usize>, n: int)
    requires
        n == w.len(),
    ensures
        sum_of(shrinkable(w)) >= sum_of(ints(w)) - n,
        forall|k: int| 0 <= k < n ==> shrinkable(w)[k] < usize::MAX,
    decreases n,
{
    if n > 0 {
        let w0 = w.drop_last();
        lemma_shrinkable_room(w0, n - 1);
        assert(shrinkable(w).drop_last() =~= shrinkable(w0));
        assert(ints(w).drop_last() =~= ints(w0));
    }
}


// ---------------------------------------------------------------------------
// Styled output
// ---------------------------------------------------------------------------

/// The styles the chat view draws its text with.
#[derive(Debug, Clone, Copy, PartialEq, Eq, Structural)]
pub enum SpanStyle {
    /// Unstyled text.
    Plain,
    /// Table borders (dim blue-grey on the table background).
    TableBorder,
    /// Table header cells (bold light blue on the table background).
    TableHeader,
    /// Table body cells (light grey on the table background).
    TableCell,
    /// The "You" label above a user message (bold cyan).
    UserLabel,
    /// User message text (cyan).
    UserText,
    /// The "Assistant" label above an assistant message (bold white).
    AssistantLabel,
    /// Thinking text, tool call inputs and separators (dark grey).
    Dim,
    /// A tool call header (yellow).
    ToolCall,
    /// A tool running in the background (dim yellow).
    ToolBackground,
    /// A successful tool result (green).
    ToolOk,
    /// A failed tool result or an error (red).
    Failure,
    /// The character under the text cursor (white, reversed).
    Cursor,
}

/// A piece of text drawn in one style.
pub struct StyledSpan {
    pub text: String,
    pub style: SpanStyle,
}

impl View for StyledSpan {
    type V = (Seq<char>, SpanStyle);

    open spec fn view(&self) -> (Seq<char>, SpanStyle) {
        (self.text@, self.style)
    }
}

/// One line on screen: its spans, left to right.
pub type StyledLine = Vec<StyledSpan>;

/// The view of a line.
pub open spec fn line_view(l: Seq<StyledSpan>) -> Seq<(Seq<char>, SpanStyle)> {
    l.map_values(|x: StyledSpan| x@)
}

/// The views of lines.
pub open spec fn lines_view(ls: Seq<StyledLine>) -> Seq<Seq<(Seq<char>, SpanStyle)>> {
    ls.map_values(|l: StyledLine| line_view(l@))
}

/// The sequences of `s`, one after the other.
pub open spec fn concat<A>(s: Seq<Seq<A>>) -> Seq<A>
    decreases s.len(),
{
    if s.len() == 0 {
        Seq::empty()
    } else {
        concat(s.drop_last()) + s.last()
    }
}

/// A span of `text` in `style`.
pub fn span(text: String, style: SpanStyle) -> (r: StyledSpan)
    ensures
        r@ == (text@, style),
{
    StyledSpan { text, style }
}

/// A one-character span.
pub fn char_span(c: char, style: SpanStyle) -> (r: StyledSpan)
    ensures
        r@ == (seq![c], style),
{
    let mut t = String::new();
    push_char(&mut t, c);
    assert(t@ =~= seq![c]);
    StyledSpan { text: t, style }
}

// ---------------------------------------------------------------------------
// Markdown tables
// ---------------------------------------------------------------------------

/// The larger of `a` and `b`.
pub open spec fn imax(a: int, b: int) -> int {
    if a >= b {
        a
    } else {
        b
    }
}

/// The views of a sequence of `str`s.
pub open spec fn str_views(s: Seq<&str>) -> Seq<Seq<char>> {
    s.map_values(|x: &str| x@)
}

/// The views of rows of cells.
pub open spec fn rows_view(v: Seq<Vec<Vec<char>>>) -> Seq<Seq<Seq<char>>> {
    v.map_values(|r: Vec<Vec<char>>| views(r@))
}

/// The trimmed cells between the pipes of a row's inner content.
pub open spec fn row_cells(inner: Seq<char>) -> Seq<Seq<char>> {
    split_char(inner, '|').map_values(|c: Seq<char>| trim(c))
}

/// Read the lines of a table: pipe-delimited lines become rows of trimmed
/// cells, except separator rows, whose cells give the column alignments;
/// other lines are skipped.
pub open spec fn parse_table(lines: Seq<Seq<char>>) -> (Seq<Seq<Seq<char>>>, Seq<Align>)
    decreases lines.len(),
{
    if lines.len() == 0 {
        (Seq::empty(), Seq::empty())
    } else {
        let prev = parse_table(lines.drop_last());
        let t = trim(lines.last());
        match spec_pipe_inner(t) {
            None => prev,
            Some(inner) => {
                let cells = row_cells(inner);
                if spec_is_table_separator(t) {
                    (prev.0, prev.1 + cells.map_values(|c: Seq<char>| spec_parse_align(c)))
                } else {
                    (prev.0.push(cells), prev.1)
                }
            },
        }
    }
}

/// The number of cells of the widest row.
pub open spec fn num_cols(rows: Seq<Seq<Seq<char>>>) -> int
    decreases rows.len(),
{
    if rows.len() == 0 {
        0
    } else {
        imax(num_cols(rows.drop_last()), rows.last().len() as int)
    }
}

/// The widest cell of each of the `n` columns, at least one column each.
pub open spec fn col_widths(rows: Seq<Seq<Seq<char>>>, n: int) -> Seq<usize>
    decreases rows.len(),
{
    if rows.len() == 0 {
        Seq::new(n as nat, |j: int| 1usize)
    } else {
        let w = col_widths(rows.drop_last(), n);
        let r = rows.last();
        Seq::new(
            n as nat,
            |j: int|
                if j < r.len() && w[j] < str_width(r[j]) {
                    str_width(r[j])
                } else {
                    w[j]
                },
        )
    }
}

/// Cell `j` of `row`, or empty text when the row is shorter.
pub open spec fn cell_at(row: Seq<Seq<char>>, j: int) -> Seq<char> {
    if j < row.len() {
        row[j]
    } else {
        Seq::empty()
    }
}

/// A table whose cells are printable ASCII text, with at least one row and
/// column, in a viewport that leaves at least one character per cell.
pub open spec fn ascii_table(lines: Seq<Seq<char>>, available_width: int) -> bool {
    let rows = parse_table(lines).0;
    let n = num_cols(rows);
    &&& rows.len() > 0
    &&& n > 0
    &&& available_width >= 4 * n + 1
    &&& forall|r: int, c: int|
        0 <= r < rows.len() && 0 <= c < rows[r].len() ==> printable_ascii(#[trigger] rows[r][c])
}

/// Each cell's lines are printable ASCII text that fits its column.
pub open spec fn cells_fit(wrapped: Seq<Seq<Seq<char>>>, widths: Seq<int>) -> bool {
    forall|j: int| 0 <= j < wrapped.len() ==> lines_fit(#[trigger] wrapped[j], widths[j])
}

/// Each line as a single unstyled span.
pub open spec fn plain_lines(lines: Seq<Seq<char>>) -> Seq<Seq<(Seq<char>, SpanStyle)>> {
    lines.map_values(|l: Seq<char>| seq![(l, SpanStyle::Plain)])
}

/// `n` copies of the horizontal box-drawing line.
pub open spec fn dashes(n: int) -> Seq<char> {
    Seq::new(n as nat, |i: int| '─')
}

/// The spans of column `j` in a horizontal border: its run of dashes (cell
/// width plus the two padding columns) and, between columns, the joint.
pub open spec fn border_part(widths: Seq<int>, mid: char, j: int) -> Seq<(Seq<char>, SpanStyle)> {
    seq![(dashes(widths[j] + 2), SpanStyle::TableBorder)] + if j + 1 < widths.len() {
        seq![(seq![mid], SpanStyle::TableBorder)]
    } else {
        Seq::empty()
    }
}

/// A horizontal border such as `╭──────┬──────╮`.
pub open spec fn border_line(widths: Seq<int>, left: char, mid: char, right: char) -> Seq<
    (Seq<char>, SpanStyle),
> {
    seq![(seq![left], SpanStyle::TableBorder)] + concat(
        Seq::new(widths.len(), |j: int| border_part(widths, mid, j)),
    ) + seq![(seq![right], SpanStyle::TableBorder)]
}

/// The spans of column `j` in one screen line of a row: the aligned text
/// padded by a space on each side, then a vertical border.
pub open spec fn row_part(
    wrapped: Seq<Seq<Seq<char>>>,
    sub: int,
    widths: Seq<int>,
    aligns: Seq<Align>,
    style: SpanStyle,
    j: int,
) -> Seq<(Seq<char>, SpanStyle)> {
    let text = if sub < wrapped[j].len() {
        wrapped[j][sub]
    } else {
        Seq::empty()
    };
    seq![
        (seq![' '] + spec_align_cell(text, widths[j], aligns[j]) + seq![' '], style),
        (seq!['│'], SpanStyle::TableBorder),
    ]
}

/// Screen line `sub` of a row whose cells are wrapped to `wrapped`.
pub open spec fn row_line(
    wrapped: Seq<Seq<Seq<char>>>,
    sub: int,
    widths: Seq<int>,
    aligns: Seq<Align>,
    style: SpanStyle,
) -> Seq<(Seq<char>, SpanStyle)> {
    seq![(seq!['│'], SpanStyle::TableBorder)] + concat(
        Seq::new(widths.len(), |j: int| row_part(wrapped, sub, widths, aligns, style, j)),
    )
}

/// Each cell of `row` wrapped to its column's width.
pub open spec fn wrap_row(row: Seq<Seq<char>>, widths: Seq<int>) -> Seq<Seq<Seq<char>>> {
    Seq::new(widths.len(), |j: int| spec_wrap_text(cell_at(row, j), widths[j]))
}

/// The number of screen lines of a wrapped row: its tallest cell, at least one.
pub open spec fn row_height(wrapped: Seq<Seq<Seq<char>>>) -> int
    decreases wrapped.len(),
{
    if wrapped.len() == 0 {
        1
    } else {
        imax(row_height(wrapped.drop_last()), wrapped.last().len() as int)
    }
}

/// The screen lines of row `ri`; the header row (`ri == 0`) is followed by
/// the `├──┼──┤` rule.
pub open spec fn row_block(
    rows: Seq<Seq<Seq<char>>>,
    ri: int,
    widths: Seq<int>,
    aligns: Seq<Align>,
) -> Seq<Seq<(Seq<char>, SpanStyle)>> {
    let wrapped = wrap_row(rows[ri], widths);
    let style = if ri == 0 {
        SpanStyle::TableHeader
    } else {
        SpanStyle::TableCell
    };
    Seq::new(row_height(wrapped) as nat, |sub: int| row_line(wrapped, sub, widths, aligns, style))
        + if ri == 0 {
        seq![border_line(widths, '├', '┼', '┤')]
    } else {
        Seq::empty()
    }
}

/// The budget of content columns left once borders and cell padding take
/// their share: one more vertical border than columns, and a space on each
/// side of every cell.
pub open spec fn table_budget(available_width: int, n: int) -> int {
    if available_width >= 3 * n + 1 {
        available_width - (3 * n + 1)
    } else {
        0
    }
}

/// A markdown table drawn with rounded box-drawing borders: column widths
/// are the widest cell of each column, proportionally shrunk to fit
/// `available_width`; cells are word-wrapped to their column and aligned as
/// the separator row asks (left by default); the first row is the header.
/// Without any row with cells, the lines are returned unstyled.
pub open spec fn spec_render_table_lines(lines: Seq<Seq<char>>, available_width: int) -> Seq<
    Seq<(Seq<char>, SpanStyle)>,
> {
    let (rows, aligns0) = parse_table(lines);
    let n = num_cols(rows);
    if rows.len() == 0 || n == 0 {
        plain_lines(lines)
    } else {
        let aligns = Seq::new(
            n as nat,
            |j: int|
                if j < aligns0.len() {
                    aligns0[j]
                } else {
                    Align::Left
                },
        );
        let widths = spec_shrink_widths(col_widths(rows, n), table_budget(available_width, n));
        seq![border_line(widths, '╭', '┬', '╮')] + concat(
            Seq::new(rows.len(), |ri: int| row_block(rows, ri, widths, aligns)),
        ) + seq![border_line(widths, '╰', '┴', '╯')]
    }
}


/// Line `sub` of the wrapped lines `ls` of a cell, or nothing past the last.
pub open spec fn wrapped_line(ls: Seq<Seq<char>>, sub: int) -> Seq<char> {
    if 0 <= sub < ls.len() {
        ls[sub]
    } else {
        Seq::empty()
    }
}

/// The alignment the separator rows of a table give its column `j` (left
/// when they give none).
pub open spec fn column_align(lines: Seq<Seq<char>>, j: int) -> Align {
    let a0 = parse_table(lines).1;
    if j < a0.len() {
        a0[j]
    } else {
        Align::Left
    }
}

/// The widths of a table's columns: the widest cell of each, shrunk in
/// proportion to the room the view leaves.
pub open spec fn table_widths(lines: Seq<Seq<char>>, available_width: int) -> Seq<int> {
    let rows = parse_table(lines).0;
    let n = num_cols(rows);
    spec_shrink_widths(col_widths(rows, n), table_budget(available_width, n))
}

/// The alignments parsed from a table with one separator row, line `k`
/// with cells between the pipes `inner`: that row's cells, each read as
/// an alignment (none when `k` is past the lines).
proof fn lemma_parse_aligns(lines: Seq<Seq<char>>, k: int, inner: Seq<char>)
    requires
        0 <= k,
        k < lines.len() ==> spec_pipe_inner(trim(lines[k])) == Some(inner)
            && spec_is_table_separator(trim(lines[k])),
        forall|m: int|
            0 <= m < lines.len() && m != k ==> !spec_is_table_separator(trim(#[trigger] lines[m])),
    ensures
        parse_table(lines).1 == (if k < lines.len() {
            row_cells(inner).map_values(|c: Seq<char>| spec_parse_align(c))
        } else {
            Seq::<Align>::empty()
        }),
    decreases lines.len(),
{
    if lines.len() > 0 {
        let d = lines.drop_last();
        assert forall|m: int| 0 <= m < d.len() && m != k implies !spec_is_table_separator(
            trim(#[trigger] d[m]),
        ) by {
            assert(d[m] == lines[m]);
        }
        if k < d.len() {
            assert(d[k] == lines[k]);
        }
        lemma_parse_aligns(d, k, inner);
        if k == lines.len() - 1 {
            assert(Seq::<Align>::empty() + row_cells(inner).map_values(
                |c: Seq<char>| spec_parse_align(c),
            ) =~= row_cells(inner).map_values(|c: Seq<char>| spec_parse_align(c)));
        } else {
            assert(!spec_is_table_separator(trim(lines[lines.len() - 1])));
        }
    }
}

/// In a table with one separator row, column `j` takes the alignment that
/// the row's `j`-th cell asks for (`:--` left, `--:` right, `:-:` centre),
/// and columns past the row's cells are left-aligned.
pub proof fn law_separator_sets_alignment(lines: Seq<Seq<char>>, k: int, inner: Seq<char>, j: int)
    requires
        0 <= k < lines.len(),
        spec_pipe_inner(trim(lines[k])) == Some(inner),
        spec_is_table_separator(trim(lines[k])),
        forall|m: int|
            0 <= m < lines.len() && m != k ==> !spec_is_table_separator(trim(#[trigger] lines[m])),
        0 <= j,
    ensures
        j < row_cells(inner).len() ==> column_align(lines, j) == spec_parse_align(
            row_cells(inner)[j],
        ),
        j >= row_cells(inner).len() ==> column_align(lines, j) == Align::Left,
{
    lemma_parse_aligns(lines, k, inner);
}

/// Each element of a concatenation is an element of one of its parts.
proof fn lemma_concat_index<A>(bs: Seq<Seq<A>>, i: int) -> (bk: (int, int))
    requires
        0 <= i < concat(bs).len(),
    ensures
        0 <= bk.0 < bs.len(),
        0 <= bk.1 < bs[bk.0].len(),
        concat(bs)[i] == bs[bk.0][bk.1],
    decreases bs.len(),
{
    if bs.len() == 0 {
        assert(false);
        (0, 0)
    } else {
        let d = bs.drop_last();
        if i < concat(d).len() {
            let r = lemma_concat_index(d, i);
            assert(bs[r.0] == d[r.0]);
            r
        } else {
            (bs.len() - 1, i - concat(d).len())
        }
    }
}

/// The concatenation of pairs holds the first of pair `b` at `2b` and the
/// second at `2b + 1`.
proof fn lemma_concat_pairs<A>(bs: Seq<Seq<A>>)
    requires
        forall|b: int| 0 <= b < bs.len() ==> #[trigger] bs[b].len() == 2,
    ensures
        concat(bs).len() == 2 * bs.len(),
        forall|b: int|
            0 <= b < bs.len() ==> concat(bs)[2 * b] == #[trigger] bs[b][0] && concat(bs)[2 * b + 1]
                == bs[b][1],
    decreases bs.len(),
{
    if bs.len() > 0 {
        let d = bs.drop_last();
        assert forall|b: int| 0 <= b < d.len() implies #[trigger] d[b].len() == 2 by {
            assert(d[b] == bs[b]);
        }
        lemma_concat_pairs(d);
        assert forall|b: int| 0 <= b < bs.len() implies concat(bs)[2 * b] == #[trigger] bs[b][0]
            && concat(bs)[2 * b + 1] == bs[b][1] by {
            if b < d.len() {
                assert(d[b] == bs[b]);
                assert(d[b][0] == bs[b][0]);
            }
        }
    }
}

/// Every cell of every drawn row line follows the alignment the separator
/// row gives its column: line `i` of the drawing, when it is a row line
/// (it starts with a vertical border), holds for column `j` a line of the
/// cell's text wrapped to the column's width, aligned in that width as the
/// separator asks, with a space on each side; header cells in header style,
/// body cells in cell style.
pub proof fn law_table_cells_follow_separator(
    lines: Seq<Seq<char>>,
    available_width: int,
    i: int,
    j: int,
)
    requires
        parse_table(lines).0.len() > 0,
        0 <= j < num_cols(parse_table(lines).0),
        0 <= i < spec_render_table_lines(lines, available_width).len(),
        spec_render_table_lines(lines, available_width)[i][0] == (
            seq!['│'],
            SpanStyle::TableBorder,
        ),
    ensures
        spec_render_table_lines(lines, available_width)[i].len() == 2 * num_cols(
            parse_table(lines).0,
        ) + 1,
        exists|ri: int, sub: int|
            #![trigger wrapped_line(
                spec_wrap_text(
                    cell_at(parse_table(lines).0[ri], j),
                    table_widths(lines, available_width)[j],
                ),
                sub,
            )]
            0 <= ri < parse_table(lines).0.len() && 0 <= sub && spec_render_table_lines(
                lines,
                available_width,
            )[i][2 * j + 1] == (
                seq![' '] + spec_align_cell(
                    wrapped_line(
                        spec_wrap_text(
                            cell_at(parse_table(lines).0[ri], j),
                            table_widths(lines, available_width)[j],
                        ),
                        sub,
                    ),
                    table_widths(lines, available_width)[j],
                    column_align(lines, j),
                ) + seq![' '],
                if ri == 0 {
                    SpanStyle::TableHeader
                } else {
                    SpanStyle::TableCell
                },
            ),
{
    let rows = parse_table(lines).0;
    let a0 = parse_table(lines).1;
    let n = num_cols(rows);
    let aligns = Seq::new(n as nat, |k: int| if k < a0.len() { a0[k] } else { Align::Left });
    let ws = table_widths(lines, available_width);
    assert(col_widths(rows, n).len() == n);
    law_shrunk_widths_bounded(col_widths(rows, n), table_budget(available_width, n));
    assert(ws.len() == n);
    let blocks = Seq::new(rows.len(), |ri: int| row_block(rows, ri, ws, aligns));
    let top = border_line(ws, '╭', '┬', '╮');
    let bot = border_line(ws, '╰', '┴', '╯');
    let out = spec_render_table_lines(lines, available_width);
    assert(out == seq![top] + concat(blocks) + seq![bot]);
    let line = out[i];
    assert(line[0].0[0] == '│');
    if i == 0 {
        assert(line == top);
        assert(top[0].0 == seq!['╭']);
        assert(false);
    } else if i == out.len() - 1 {
        assert(line == bot);
        assert(bot[0].0 == seq!['╰']);
        assert(false);
    } else {
        assert(line == concat(blocks)[i - 1]);
        let bk = lemma_concat_index(blocks, i - 1);
        let b = bk.0;
        let k = bk.1;
        let wr = wrap_row(rows[b], ws);
        let style = if b == 0 {
            SpanStyle::TableHeader
        } else {
            SpanStyle::TableCell
        };
        let h = row_height(wr);
        assert(blocks[b] == row_block(rows, b, ws, aligns));
        if k >= h {
            assert(b == 0 && k == h);
            assert(line == border_line(ws, '├', '┼', '┤'));
            assert(line[0].0 == seq!['├']);
            assert(false);
        }
        assert(line == row_line(wr, k, ws, aligns, style));
        let parts = Seq::new(ws.len(), |jj: int| row_part(wr, k, ws, aligns, style, jj));
        lemma_concat_pairs(parts);
        assert(parts[j].len() == 2);
        assert(line[2 * j + 1] == concat(parts)[2 * j]);
        assert(line[2 * j + 1] == parts[j][0]);
        assert(wr[j] == spec_wrap_text(cell_at(rows[b], j), ws[j]));
        assert(aligns[j] == column_align(lines, j));
        assert(wrapped_line(wr[j], k) == (if k < wr[j].len() {
            wr[j][k]
        } else {
            Seq::<char>::empty()
        }));
    }
}

/// The characters of a line of spans, one span after the other.
pub open spec fn line_text(line: Seq<(Seq<char>, SpanStyle)>) -> Seq<char>
    decreases line.len(),
{
    if line.len() == 0 {
        Seq::empty()
    } else {
        line_text(line.drop_last()) + line.last().0
    }
}

proof fn lemma_line_text_append(a: Seq<(Seq<char>, SpanStyle)>, b: Seq<(Seq<char>, SpanStyle)>)
    ensures
        line_text(a + b) == line_text(a) + line_text(b),
    decreases b.len(),
{
    if b.len() == 0 {
        assert(a + b =~= a);
    } else {
        assert((a + b).drop_last() =~= a + b.drop_last());
        lemma_line_text_append(a, b.drop_last());
    }
}

proof fn lemma_line_text_single(t: Seq<char>, st: SpanStyle)
    ensures
        line_text(seq![(t, st)]) == t,
{
    let one = seq![(t, st)];
    assert(one.drop_last() =~= Seq::<(Seq<char>, SpanStyle)>::empty());
    assert(line_text(one.drop_last()) == Seq::<char>::empty());
    assert(one.last().0 == t);
    assert(Seq::<char>::empty() + t =~= t);
}

/// The border parts of the first `k` columns take the columns' widths plus
/// three characters each, less the joint after the last of all columns.
proof fn lemma_border_parts_len(widths: Seq<int>, mid: char, k: int)
    requires
        0 <= k <= widths.len(),
        forall|j: int| 0 <= j < widths.len() ==> widths[j] >= 0,
    ensures
        line_text(concat(Seq::new(widths.len(), |j: int| border_part(widths, mid, j)).take(k))).len()
            == sum_of(widths.take(k)) + 3 * k - (if k == widths.len() && k > 0 {
            1int
        } else {
            0
        }),
    decreases k,
{
    let parts = Seq::new(widths.len(), |j: int| border_part(widths, mid, j));
    if k == 0 {
        assert(parts.take(0) =~= Seq::<Seq<(Seq<char>, SpanStyle)>>::empty());
        assert(widths.take(0) =~= Seq::<int>::empty());
    } else {
        lemma_border_parts_len(widths, mid, k - 1);
        assert(parts.take(k).drop_last() =~= parts.take(k - 1));
        assert(parts.take(k).last() == parts[k - 1]);
        assert(concat(parts.take(k)) == concat(parts.take(k - 1)) + parts[k - 1]);
        assert(widths.take(k).drop_last() =~= widths.take(k - 1));
        assert(sum_of(widths.take(k)) == sum_of(widths.take(k - 1)) + widths[k - 1]);
        let p = parts[k - 1];
        lemma_line_text_append(concat(parts.take(k - 1)), p);
        let dt = dashes(widths[k - 1] + 2);
        let d = seq![(dt, SpanStyle::TableBorder)];
        lemma_line_text_single(dt, SpanStyle::TableBorder);
        assert(dt.len() == widths[k - 1] + 2);
        if k < widths.len() {
            let m = seq![(seq![mid], SpanStyle::TableBorder)];
            assert(p == d + m);
            lemma_line_text_append(d, m);
            lemma_line_text_single(seq![mid], SpanStyle::TableBorder);
            assert(line_text(p).len() == widths[k - 1] + 3);
        } else {
            assert(p =~= d);
            assert(line_text(p).len() == widths[k - 1] + 2);
        }
    }
}

/// A border is as long as its columns' widths, plus three characters per
/// column and one more.
proof fn lemma_border_len(widths: Seq<int>, left: char, mid: char, right: char)
    requires
        widths.len() > 0,
        forall|j: int| 0 <= j < widths.len() ==> widths[j] >= 0,
    ensures
        line_text(border_line(widths, left, mid, right)).len() == sum_of(widths) + 3 * widths.len() + 1,
{
    let ps = Seq::new(widths.len(), |j: int| border_part(widths, mid, j));
    let parts = concat(ps);
    lemma_border_parts_len(widths, mid, widths.len() as int);
    assert(ps.take(widths.len() as int) =~= ps);
    assert(widths.take(widths.len() as int) =~= widths);
    let l = seq![(seq![left], SpanStyle::TableBorder)];
    let r = seq![(seq![right], SpanStyle::TableBorder)];
    assert(border_line(widths, left, mid, right) == l + parts + r);
    lemma_line_text_append(l + parts, r);
    lemma_line_text_append(l, parts);
    lemma_line_text_single(seq![left], SpanStyle::TableBorder);
    lemma_line_text_single(seq![right], SpanStyle::TableBorder);
}

/// A rendered table fits the viewport: when the viewport leaves at least one
/// character per cell, its top and bottom borders are at most the viewport
/// wide, and exactly that wide when the columns had to shrink.
pub proof fn law_table_borders_fit(lines: Seq<Seq<char>>, available_width: int)
    requires
        parse_table(lines).0.len() > 0,
        num_cols(parse_table(lines).0) > 0,
        available_width >= 4 * num_cols(parse_table(lines).0) + 1,
    ensures
        ({
            let out = spec_render_table_lines(lines, available_width);
            let rows = parse_table(lines).0;
            let n = num_cols(rows);
            let shrunk = sum_of(ints(col_widths(rows, n))) > table_budget(available_width, n);
            &&& line_text(out[0]).len() <= available_width
            &&& line_text(out.last()).len() <= available_width
            &&& shrunk ==> line_text(out[0]).len() == available_width
            &&& shrunk ==> line_text(out.last()).len() == available_width
        }),
{
    let rows = parse_table(lines).0;
    let n = num_cols(rows);
    let budget = table_budget(available_width, n);
    let cw = col_widths(rows, n);
    let widths = spec_shrink_widths(cw, budget);
    let out = spec_render_table_lines(lines, available_width);
    assert(cw.len() == n);
    law_shrunk_widths_bounded(cw, budget);
    assert forall|j: int| 0 <= j < widths.len() implies widths[j] >= 0 by {
        assert(widths[j] >= 1 || widths[j] == cw[j]);
    }
    lemma_border_len(widths, '╭', '┬', '╮');
    lemma_border_len(widths, '╰', '┴', '╯');
    let body = concat(Seq::new(rows.len(), |ri: int| row_block(rows, ri, widths, Seq::new(
        n as nat,
        |j: int|
            if j < parse_table(lines).1.len() {
                parse_table(lines).1[j]
            } else {
                Align::Left
            },
    ))));
    assert(out[0] == border_line(widths, '╭', '┬', '╮'));
    assert(out.last() == border_line(widths, '╰', '┴', '╯'));
    if sum_of(ints(cw)) > budget {
        law_shrunk_widths_sum_to_target(cw, budget);
    } else {
        law_fitting_widths_kept(cw, budget);
    }
}

/// The trimmed cells of a row's inner content.
fn split_cells(inner: &[char]) -> (r: Vec<Vec<char>>)
    ensures
        views(r@) == row_cells(inner@),
{
    let pieces = split_chars(inner, '|');
    let mut r: Vec<Vec<char>> = Vec::new();
    let mut k: usize = 0;
    while k < pieces.len()
        invariant
            k <= pieces@.len(),
            views(pieces@) == split_char(inner@, '|'),
            views(r@) == row_cells(inner@).take(k as int),
        decreases pieces.len() - k,
    {
        let c = trim_vec(pieces[k].as_slice());
        assert(views(pieces@)[k as int] == pieces@[k as int]@);
        let ghost before = views(r@);
        r.push(c);
        assert(views(r@) =~= before.push(c@));
        k = k + 1;
        assert(row_cells(inner@).take(k as int) =~= row_cells(inner@).take(k as int - 1).push(
            c@,
        ));
    }
    assert(row_cells(inner@).take(pieces@.len() as int) =~= row_cells(inner@));
    r
}

/// Read the rows and alignments of a table (see `parse_table`).
fn parse_rows(lines: &Vec<Vec<char>>) -> (r: (Vec<Vec<Vec<char>>>, Vec<Align>))
    ensures
        (rows_view(r.0@), r.1@) == parse_table(views(lines@)),
{
    let mut rows: Vec<Vec<Vec<char>>> = Vec::new();
    let mut aligns: Vec<Align> = Vec::new();
    let mut i: usize = 0;
    assert(views(lines@).take(0) =~= Seq::<Seq<char>>::empty());
    assert(rows_view(rows@) =~= Seq::<Seq<Seq<char>>>::empty());
    while i < lines.len()
        invariant
            i <= lines@.len(),
            (rows_view(rows@), aligns@) == parse_table(views(lines@).take(i as int)),
        decreases lines.len() - i,
    {
        let ghost ls = views(lines@).take(i as int + 1);
        assert(ls.drop_last() =~= views(lines@).take(i as int));
        assert(ls.last() == lines@[i as int]@);
        let t = trim_vec(lines[i].as_slice());
        let n = t.len();
        if n >= 2 && t[0] == '|' && t[n - 1] == '|' {
            let inner = slice_range(t.as_slice(), 1, n - 1);
            let cells = split_cells(inner.as_slice());
            if is_separator_chars(t.as_slice()) {
                let ghost a0 = aligns@;
                let mut k: usize = 0;
                while k < cells.len()
                    invariant
                        k <= cells@.len(),
                        aligns@ == a0 + views(cells@).take(k as int).map_values(
                            |c: Seq<char>| spec_parse_align(c),
                        ),
                    decreases cells.len() - k,
                {
                    let a = parse_align_chars(cells[k].as_slice());
                    aligns.push(a);
                    k = k + 1;
                    assert(aligns@ =~= a0 + views(cells@).take(k as int).map_values(
                        |c: Seq<char>| spec_parse_align(c),
                    ));
                }
                assert(views(cells@).take(cells@.len() as int) =~= views(cells@));
            } else {
                let ghost before = rows_view(rows@);
                rows.push(cells);
                assert(rows_view(rows@) =~= before.push(views(cells@)));
            }
        }
        i = i + 1;
    }
    assert(views(lines@).take(lines@.len() as int) =~= views(lines@));
    (rows, aligns)
}

/// The column count: the number of cells of the widest row.
fn count_cols(rows: &Vec<Vec<Vec<char>>>) -> (n: usize)
    ensures
        n == num_cols(rows_view(rows@)),
{
    let mut n: usize = 0;
    let mut i: usize = 0;
    while i < rows.len()
        invariant
            i <= rows@.len(),
            n == num_cols(rows_view(rows@).take(i as int)),
        decreases rows.len() - i,
    {
        assert(rows_view(rows@).take(i as int + 1).drop_last() =~= rows_view(rows@).take(
            i as int,
        ));
        assert(rows_view(rows@)[i as int].len() == rows@[i as int]@.len());
        if rows[i].len() > n {
            n = rows[i].len();
        }
        i = i + 1;
    }
    assert(rows_view(rows@).take(rows@.len() as int) =~= rows_view(rows@));
    n
}

/// The widest cell of each of the `n` columns (see `col_widths`).
fn column_widths(rows: &Vec<Vec<Vec<char>>>, n: usize) -> (w: Vec<usize>)
    ensures
        w@ == col_widths(rows_view(rows@), n as int),
{
    let mut w: Vec<usize> = Vec::new();
    let mut j: usize = 0;
    while j < n
        invariant
            j <= n,
            w@ == Seq::new(j as nat, |k: int| 1usize),
        decreases n - j,
    {
        w.push(1);
        j = j + 1;
        assert(w@ =~= Seq::new(j as nat, |k: int| 1usize));
    }
    assert(rows_view(rows@).take(0) =~= Seq::<Seq<Seq<char>>>::empty());
    let mut i: usize = 0;
    while i < rows.len()
        invariant
            i <= rows@.len(),
            w@ == col_widths(rows_view(rows@).take(i as int), n as int),
            w@.len() == n,
        decreases rows.len() - i,
    {
        let ghost rv = rows_view(rows@).take(i as int + 1);
        assert(rv.drop_last() =~= rows_view(rows@).take(i as int));
        assert(rv.last() == views(rows@[i as int]@));
        let ghost prev = w@;
        let row = &rows[i];
        let mut j: usize = 0;
        while j < n
            invariant
                j <= n == w@.len() == prev.len(),
                row@ == rows@[i as int]@,
                forall|k: int| j <= k < n ==> w@[k] == prev[k],
                forall|k: int|
                    0 <= k < j ==> w@[k] == (if k < row@.len() && prev[k] < str_width(
                        row@[k]@,
                    ) {
                        str_width(row@[k]@)
                    } else {
                        prev[k]
                    }),
            decreases n - j,
        {
            if j < row.len() {
                let cw = chars_width(row[j].as_slice());
                if w[j] < cw {
                    w.set(j, cw);
                }
            }
            j = j + 1;
        }
        assert(w@ =~= col_widths(rv, n as int));
        i = i + 1;
    }
    assert(rows_view(rows@).take(rows@.len() as int) =~= rows_view(rows@));
    w
}

/// A horizontal border such as `╭──────┬──────╮`.
fn make_border(widths: &Vec<usize>, left: char, mid: char, right: char) -> (r: StyledLine)
    requires
        forall|j: int| 0 <= j < widths@.len() ==> widths@[j] <= usize::MAX - 2,
    ensures
        line_view(r@) == border_line(usize_ints(widths@), left, mid, right),
{
    let ghost ws = usize_ints(widths@);
    let ghost parts = Seq::new(ws.len(), |j: int| border_part(ws, mid, j));
    let mut spans: Vec<StyledSpan> = Vec::new();
    spans.push(char_span(left, SpanStyle::TableBorder));
    let n = widths.len();
    let mut j: usize = 0;
    assert(line_view(spans@) =~= seq![(seq![left], SpanStyle::TableBorder)] + concat(
        parts.take(0),
    ));
    while j < n
        invariant
            j <= n == widths@.len() == ws.len() == parts.len(),
            ws == usize_ints(widths@),
            parts == Seq::new(ws.len(), |k: int| border_part(ws, mid, k)),
            forall|k: int| 0 <= k < widths@.len() ==> widths@[k] <= usize::MAX - 2,
            line_view(spans@) == seq![(seq![left], SpanStyle::TableBorder)] + concat(
                parts.take(j as int),
            ),
        decreases n - j,
    {
        let ghost before = line_view(spans@);
        let d = repeat_char('─', widths[j] + 2);
        assert(d@ =~= dashes(ws[j as int] + 2));
        spans.push(span(d, SpanStyle::TableBorder));
        if j + 1 < n {
            spans.push(char_span(mid, SpanStyle::TableBorder));
        }
        assert(parts.take(j as int + 1).drop_last() =~= parts.take(j as int));
        assert(line_view(spans@) =~= before + parts[j as int]);
        j = j + 1;
    }
    assert(parts.take(n as int) =~= parts);
    let ghost before = line_view(spans@);
    spans.push(char_span(right, SpanStyle::TableBorder));
    assert(line_view(spans@) =~= before + seq![(seq![right], SpanStyle::TableBorder)]);
    spans
}

/// Each cell of `row` wrapped to its column's width (see `wrap_row`).
fn wrap_cells(row: &Vec<Vec<char>>, widths: &Vec<usize>) -> (r: Vec<Vec<Vec<char>>>)
    ensures
        rows_view(r@) == wrap_row(views(row@), usize_ints(widths@)),
        r@.len() == widths@.len(),
        (forall|c: int| 0 <= c < row@.len() ==> printable_ascii(#[trigger] views(row@)[c]))
            ==> cells_fit(rows_view(r@), usize_ints(widths@)),
{
    let ghost ok = forall|c: int| 0 <= c < row@.len() ==> printable_ascii(#[trigger] views(row@)[c]);
    let n = widths.len();
    let mut r: Vec<Vec<Vec<char>>> = Vec::new();
    let mut j: usize = 0;
    let empty: Vec<char> = Vec::new();
    while j < n
        invariant
            j <= n == widths@.len(),
            empty@ == Seq::<char>::empty(),
            rows_view(r@) == wrap_row(views(row@), usize_ints(widths@)).take(j as int),
            r@.len() == j,
            ok == (forall|c: int| 0 <= c < row@.len() ==> printable_ascii(#[trigger] views(row@)[c])),
            ok ==> forall|k: int| 0 <= k < j ==> lines_fit(#[trigger] rows_view(r@)[k], usize_ints(widths@)[k]),
        decreases n - j,
    {
        let cell: &Vec<char> = if j < row.len() {
            &row[j]
        } else {
            &empty
        };
        assert(cell@ == cell_at(views(row@), j as int));
        proof {
            if ok && j < row.len() {
                assert(printable_ascii(views(row@)[j as int]));
            }
            if ok {
                assert(ascii_text(cell@));
            }
        }
        let wrapped = wrap_chars(cell.as_slice(), widths[j]);
        let ghost before = rows_view(r@);
        r.push(wrapped);
        assert(rows_view(r@) =~= before.push(views(wrapped@)));
        assert(usize_ints(widths@)[j as int] == widths@[j as int]);
        j = j + 1;
        assert(wrap_row(views(row@), usize_ints(widths@)).take(j as int) =~= wrap_row(
            views(row@),
            usize_ints(widths@),
        ).take(j as int - 1).push(views(wrapped@)));
    }
    assert(wrap_row(views(row@), usize_ints(widths@)).take(n as int) =~= wrap_row(
        views(row@),
        usize_ints(widths@),
    ));
    r
}

/// The number of screen lines a wrapped row takes.
fn wrapped_height(wrapped: &Vec<Vec<Vec<char>>>) -> (h: usize)
    ensures
        h == row_height(rows_view(wrapped@)),
{
    let mut h: usize = 1;
    let mut j: usize = 0;
    assert(rows_view(wrapped@).take(0) =~= Seq::<Seq<Seq<char>>>::empty());
    while j < wrapped.len()
        invariant
            j <= wrapped@.len(),
            h == row_height(rows_view(wrapped@).take(j as int)),
        decreases wrapped.len() - j,
    {
        assert(rows_view(wrapped@).take(j as int + 1).drop_last() =~= rows_view(wrapped@).take(
            j as int,
        ));
        assert(rows_view(wrapped@)[j as int].len() == wrapped@[j as int]@.len());
        if wrapped[j].len() > h {
            h = wrapped[j].len();
        }
        j = j + 1;
    }
    assert(rows_view(wrapped@).take(wrapped@.len() as int) =~= rows_view(wrapped@));
    h
}

/// Screen line `sub` of a wrapped row (see `row_line`).
fn make_row_line(
    wrapped: &Vec<Vec<Vec<char>>>,
    sub: usize,
    widths: &Vec<usize>,
    aligns: &Vec<Align>,
    style: SpanStyle,
) -> (r: StyledLine)
    requires
        wrapped@.len() == widths@.len() == aligns@.len(),
    ensures
        line_view(r@) == row_line(rows_view(wrapped@), sub as int, usize_ints(widths@), aligns@, style),
        cells_fit(rows_view(wrapped@), usize_ints(widths@)) ==> line_text(line_view(r@)).len()
            == sum_of(usize_ints(widths@)) + 3 * widths@.len() + 1,
{
    let ghost wv = rows_view(wrapped@);
    let ghost ws = usize_ints(widths@);
    let ghost ok = cells_fit(wv, ws);
    let ghost parts = Seq::new(ws.len(), |j: int| row_part(wv, sub as int, ws, aligns@, style, j));
    let mut spans: Vec<StyledSpan> = Vec::new();
    spans.push(char_span('│', SpanStyle::TableBorder));
    proof {
        lemma_line_text_single(seq!['│'], SpanStyle::TableBorder);
        assert(line_view(spans@) =~= seq![(seq!['│'], SpanStyle::TableBorder)]);
        assert(ws.take(0) =~= Seq::<int>::empty());
    }
    let n = widths.len();
    let mut j: usize = 0;
    assert(line_view(spans@) =~= seq![(seq!['│'], SpanStyle::TableBorder)] + concat(
        parts.take(0),
    ));
    while j < n
        invariant
            j <= n == widths@.len() == ws.len() == parts.len() == wrapped@.len() == aligns@.len(),
            wv == rows_view(wrapped@),
            ws == usize_ints(widths@),
            parts == Seq::new(ws.len(), |k: int| row_part(wv, sub as int, ws, aligns@, style, k)),
            line_view(spans@) == seq![(seq!['│'], SpanStyle::TableBorder)] + concat(
                parts.take(j as int),
            ),
            ok == cells_fit(wv, ws),
            ok ==> line_text(line_view(spans@)).len() == 1 + sum_of(ws.take(j as int)) + 3 * j,
        decreases n - j,
    {
        let ghost before = line_view(spans@);
        let cell = &wrapped[j];
        assert(wv[j as int] == views(cell@));
        let text = if sub < cell.len() {
            string_from_chars(cell[sub].as_slice())
        } else {
            String::new()
        };
        assert(text@ == (if (sub as int) < wv[j as int].len() {
            wv[j as int][sub as int]
        } else {
            Seq::<char>::empty()
        }));
        let aligned = align_cell(text.as_str(), widths[j], aligns[j]);
        let mut t = String::new();
        push_char(&mut t, ' ');
        push_str(&mut t, aligned.as_str());
        push_char(&mut t, ' ');
        assert(t@ =~= seq![' '] + aligned@ + seq![' ']);
        assert(ws[j as int] == widths@[j as int]);
        let ghost tv = t@;
        proof {
            if ok {
                assert(printable_ascii(text@) && text@.len() <= widths@[j as int]) by {
                    if (sub as int) < wv[j as int].len() {
                        assert(lines_fit(wv[j as int], ws[j as int]));
                        assert(wv[j as int][sub as int].len() <= ws[j as int]);
                    }
                }
                assert(tv.len() == ws[j as int] + 2);
            }
        }
        let ghost mid = line_view(spans@);
        spans.push(span(t, style));
        assert(line_view(spans@) =~= mid.push((tv, style)));
        let ghost mid2 = line_view(spans@);
        spans.push(char_span('│', SpanStyle::TableBorder));
        assert(line_view(spans@) =~= mid2.push((seq!['│'], SpanStyle::TableBorder)));
        assert(parts.take(j as int + 1).drop_last() =~= parts.take(j as int));
        assert(line_view(spans@) =~= before + parts[j as int]);
        proof {
            let l2 = line_view(spans@);
            assert(l2.drop_last() == mid2);
            assert(mid2.drop_last() == mid);
            assert(line_text(l2) == line_text(mid2) + seq!['│']);
            assert(line_text(mid2) == line_text(mid) + tv);
            assert(ws.take(j as int + 1).drop_last() =~= ws.take(j as int));
        }
        j = j + 1;
    }
    assert(parts.take(n as int) =~= parts);
    assert(ws.take(n as int) =~= ws);
    spans
}

/// Each line as a single unstyled span.
fn plain(lines: &Vec<Vec<char>>) -> (r: Vec<StyledLine>)
    ensures
        lines_view(r@) == plain_lines(views(lines@)),
{
    let mut r: Vec<StyledLine> = Vec::new();
    let mut i: usize = 0;
    while i < lines.len()
        invariant
            i <= lines@.len(),
            lines_view(r@) == plain_lines(views(lines@)).take(i as int),
        decreases lines.len() - i,
    {
        let mut l: StyledLine = Vec::new();
        l.push(span(string_from_chars(lines[i].as_slice()), SpanStyle::Plain));
        assert(views(lines@)[i as int] == lines@[i as int]@);
        assert(line_view(l@) =~= seq![(lines@[i as int]@, SpanStyle::Plain)]);
        let ghost before = lines_view(r@);
        r.push(l);
        assert(lines_view(r@) =~= before.push(line_view(l@)));
        i = i + 1;
        assert(plain_lines(views(lines@)).take(i as int) =~= plain_lines(views(lines@)).take(
            i as int - 1,
        ).push(seq![(lines@[i - 1]@, SpanStyle::Plain)]));
    }
    assert(plain_lines(views(lines@)).take(lines@.len() as int) =~= plain_lines(views(lines@)));
    r
}

/// Render a markdown table as styled lines with rounded box-drawing borders.
///
/// - Column content width = the widest cell in that column across all rows,
///   measured in terminal display columns.
/// - If the table would be wider than `available_width`, columns are
///   proportionally shrunk and cell contents are word-wrapped, so a row may
///   span several rendered lines.
/// - Per-column alignment is read from the `:--:` separator row.
pub fn render_table_lines(table_lines: &[&str], available_width: usize) -> (r: Vec<StyledLine>)
    ensures
        lines_view(r@) == spec_render_table_lines(str_views(table_lines@), available_width as int),
        ascii_table(str_views(table_lines@), available_width as int) ==> forall|i: int|
            0 <= i < r@.len() ==> line_text(#[trigger] lines_view(r@)[i]).len() <= available_width,
        ascii_table(str_views(table_lines@), available_width as int) ==> r@.len() > 0 && forall|i: int|
            0 <= i < r@.len() ==> line_text(#[trigger] lines_view(r@)[i]).len() == line_text(
                lines_view(r@)[0],
            ).len(),
{
    let mut v: Vec<Vec<char>> = Vec::new();
    let mut i: usize = 0;
    while i < table_lines.len()
        invariant
            i <= table_lines@.len(),
            views(v@) == str_views(table_lines@).take(i as int),
        decreases table_lines.len() - i,
    {
        let c = chars_of(table_lines[i]);
        let ghost before = views(v@);
        v.push(c);
        assert(views(v@) =~= before.push(c@));
        i = i + 1;
        assert(str_views(table_lines@).take(i as int) =~= str_views(table_lines@).take(
            i as int - 1,
        ).push(table_lines@[i - 1]@));
    }
    assert(str_views(table_lines@).take(table_lines@.len() as int) =~= str_views(table_lines@));
    render_table_chars(&v, available_width)
}

/// Render the table whose lines are the characters `table_lines` (see
/// `spec_render_table_lines`).
#[verifier::rlimit(60)]
#[verifier::spinoff_prover]
pub fn render_table_chars(table_lines: &Vec<Vec<char>>, available_width: usize) -> (r: Vec<
    StyledLine,
>)
    ensures
        lines_view(r@) == spec_render_table_lines(views(table_lines@), available_width as int),
        ascii_table(views(table_lines@), available_width as int) ==> forall|i: int|
            0 <= i < r@.len() ==> line_text(#[trigger] lines_view(r@)[i]).len() <= available_width,
        ascii_table(views(table_lines@), available_width as int) ==> r@.len() > 0 && forall|i: int|
            0 <= i < r@.len() ==> line_text(#[trigger] lines_view(r@)[i]).len() == line_text(
                lines_view(r@)[0],
            ).len(),
{
    let ghost ok = ascii_table(views(table_lines@), available_width as int);
    let (rows, aligns0) = parse_rows(table_lines);
    if rows.len() == 0 {
        return plain(table_lines);
    }
    let n = count_cols(&rows);
    if n == 0 {
        return plain(table_lines);
    }
    // Pad (or cut) the alignments to one per column (default: left).
    let mut aligns: Vec<Align> = Vec::new();
    let mut j: usize = 0;
    while j < n
        invariant
            j <= n,
            aligns@ == Seq::new(
                j as nat,
                |k: int|
                    if k < aligns0@.len() {
                        aligns0@[k]
                    } else {
                        Align::Left
                    },
            ),
        decreases n - j,
    {
        let a = if j < aligns0.len() {
            aligns0[j]
        } else {
            Align::Left
        };
        aligns.push(a);
        j = j + 1;
        assert(aligns@ =~= Seq::new(
            j as nat,
            |k: int|
                if k < aligns0@.len() {
                    aligns0@[k]
                } else {
                    Align::Left
                },
        ));
    }
    let content_widths = column_widths(&rows, n);
    let budget: usize = if n <= (usize::MAX - 1) / 3 && available_width >= 3 * n + 1 {
        available_width - (3 * n + 1)
    } else {
        0
    };
    assert(budget == table_budget(available_width as int, n as int));
    let widths = shrink_widths(content_widths.as_slice(), budget);
    proof {
        law_shrunk_widths_bounded(content_widths@, budget as int);
        assert forall|k: int| 0 <= k < widths@.len() implies widths@[k] <= usize::MAX - 2 by {
            assert(usize_ints(widths@)[k] == widths@[k]);
        }
    }
    let ghost ws = usize_ints(widths@);
    let ghost rv = rows_view(rows@);
    let ghost blocks = Seq::new(rv.len(), |ri: int| row_block(rv, ri, ws, aligns@));
    let ghost full = sum_of(ws) + 3 * n + 1;
    proof {
        if ok {
            let cw = usize_ints(content_widths@);
            assert(ws.len() == n);
            assert forall|k: int| 0 <= k < ws.len() implies ws[k] >= 0 by {}
            lemma_border_len(ws, '╭', '┬', '╮');
            lemma_border_len(ws, '├', '┼', '┤');
            lemma_border_len(ws, '╰', '┴', '╯');
            if sum_of(ints(content_widths@)) > budget {
                law_shrunk_widths_sum_to_target(content_widths@, budget as int);
            } else {
                law_fitting_widths_kept(content_widths@, budget as int);
            }
            assert(full <= available_width);
        }
    }
    let mut result: Vec<StyledLine> = Vec::new();
    let top = make_border(&widths, '╭', '┬', '╮');
    result.push(top);
    assert(lines_view(result@) =~= seq![line_view(top@)]);
    assert(lines_view(result@) =~= seq![border_line(ws, '╭', '┬', '╮')] + concat(
        blocks.take(0),
    ));
    let mut ri: usize = 0;
    while ri < rows.len()
        invariant
            ri <= rows@.len() == rv.len() == blocks.len(),
            rv == rows_view(rows@),
            ws == usize_ints(widths@),
            widths@.len() == n == aligns@.len(),
            forall|k: int| 0 <= k < widths@.len() ==> widths@[k] <= usize::MAX - 2,
            blocks == Seq::new(rv.len(), |i: int| row_block(rv, i, ws, aligns@)),
            lines_view(result@) == seq![border_line(ws, '╭', '┬', '╮')] + concat(
                blocks.take(ri as int),
            ),
            ok == ascii_table(views(table_lines@), available_width as int),
            rv == parse_table(views(table_lines@)).0,
            n == num_cols(rv),
            full == sum_of(ws) + 3 * n + 1,
            ok ==> line_text(border_line(ws, '├', '┼', '┤')).len() == full,
            ok ==> forall|i: int|
                0 <= i < result@.len() ==> line_text(#[trigger] lines_view(result@)[i]).len()
                    == full,
        decreases rows.len() - ri,
    {
        let ghost before = lines_view(result@);
        let style = if ri == 0 {
            SpanStyle::TableHeader
        } else {
            SpanStyle::TableCell
        };
        assert(rv[ri as int] == views(rows@[ri as int]@));
        proof {
            if ok {
                assert forall|c: int| 0 <= c < rows@[ri as int]@.len() implies printable_ascii(
                    #[trigger] views(rows@[ri as int]@)[c],
                ) by {
                    assert(views(rows@[ri as int]@)[c] == rv[ri as int][c]);
                }
            }
        }
        let wrapped = wrap_cells(&rows[ri], &widths);
        let ghost wv = rows_view(wrapped@);
        let h = wrapped_height(&wrapped);
        let ghost lines_of_row = Seq::new(
            h as nat,
            |sub: int| row_line(wv, sub, ws, aligns@, style),
        );
        let mut sub: usize = 0;
        while sub < h
            invariant
                sub <= h,
                wrapped@.len() == widths@.len() == aligns@.len(),
                wv == rows_view(wrapped@),
                ws == usize_ints(widths@),
                lines_of_row == Seq::new(h as nat, |k: int| row_line(wv, k, ws, aligns@, style)),
                lines_view(result@) == before + lines_of_row.take(sub as int),
                ok ==> cells_fit(wv, ws),
                widths@.len() == n,
                full == sum_of(ws) + 3 * n + 1,
                ok ==> forall|i: int|
                    0 <= i < result@.len() ==> line_text(#[trigger] lines_view(result@)[i]).len()
                        == full,
            decreases h - sub,
        {
            let l = make_row_line(&wrapped, sub, &widths, aligns_ref(&aligns), style);
            let ghost b2 = lines_view(result@);
            result.push(l);
            assert(lines_view(result@) =~= b2.push(line_view(l@)));
            proof {
                if ok {
                    assert(line_text(line_view(l@)).len() == full);
                    assert forall|i: int| 0 <= i < result@.len() implies line_text(
                        #[trigger] lines_view(result@)[i],
                    ).len() == full by {
                        if i < b2.len() {
                            assert(lines_view(result@)[i] == b2[i]);
                        } else {
                            assert(lines_view(result@)[i] == line_view(l@));
                        }
                    }
                }
            }
            sub = sub + 1;
            assert(lines_of_row.take(sub as int) =~= lines_of_row.take(sub as int - 1).push(
                lines_of_row[sub as int - 1],
            ));
        }
        assert(lines_of_row.take(h as int) =~= lines_of_row);
        if ri == 0 {
            let mid = make_border(&widths, '├', '┼', '┤');
            let ghost b3 = lines_view(result@);
            result.push(mid);
            assert(lines_view(result@) =~= b3.push(line_view(mid@)));
            proof {
                if ok {
                    assert forall|i: int| 0 <= i < result@.len() implies line_text(
                        #[trigger] lines_view(result@)[i],
                    ).len() == full by {
                        if i < b3.len() {
                            assert(lines_view(result@)[i] == b3[i]);
                        }
                    }
                }
            }
        }
        assert(blocks[ri as int] =~= lines_of_row + if ri == 0 {
            seq![border_line(ws, '├', '┼', '┤')]
        } else {
            Seq::empty()
        });
        assert(blocks.take(ri as int + 1).drop_last() =~= blocks.take(ri as int));
        assert(lines_view(result@) =~= seq![border_line(ws, '╭', '┬', '╮')] + concat(
            blocks.take(ri as int + 1),
        ));
        ri = ri + 1;
    }
    assert(blocks.take(rows@.len() as int) =~= blocks);
    let bottom = make_border(&widths, '╰', '┴', '╯');
    let ghost b4 = lines_view(result@);
    result.push(bottom);
    assert(lines_view(result@) =~= b4.push(line_view(bottom@)));
    proof {
        if ok {
            assert forall|i: int| 0 <= i < result@.len() implies line_text(
                #[trigger] lines_view(result@)[i],
            ).len() == full by {
                if i < b4.len() {
                    assert(lines_view(result@)[i] == b4[i]);
                }
            }
            assert(line_text(lines_view(result@)[0]).len() == full);
        }
    }
    result
}

/// The alignments, borrowed.
fn aligns_ref(a: &Vec<Align>) -> (r: &Vec<Align>)
    ensures
        r@ == a@,
{
    a
}

// ---------------------------------------------------------------------------
// Cell padding
// ---------------------------------------------------------------------------

/// `content` padded with spaces to `width` display columns according to
/// `align` (centering puts the smaller half on the left); content that is
/// already at least `width` wide is left unchanged.
pub open spec fn spec_align_cell(content: Seq<char>, width: int, align: Align) -> Seq<char> {
    let w = str_width(content) as int;
    if w >= width {
        content
    } else {
        let pad = width - w;
        match align {
            Align::Left => content + spaces(pad),
            Align::Right => spaces(pad) + content,
            Align::Center => spaces(pad / 2) + content + spaces(pad - pad / 2),
        }
    }
}

/// Padding puts the content between runs of spaces that together make up
/// the missing columns: none before it when left-aligned, all before it
/// when right-aligned, and the smaller half before it when centred.
/// Content at least as wide as the column is left as it is.
pub proof fn law_align_cell_places_content(content: Seq<char>, width: int, align: Align)
    ensures
        str_width(content) >= width ==> spec_align_cell(content, width, align) == content,
        str_width(content) < width ==> exists|l: int|
            #![trigger spaces(l)]
            0 <= l <= width - str_width(content) && spec_align_cell(content, width, align)
                == spaces(l) + content + spaces(width - str_width(content) - l) && (align
                == Align::Left ==> l == 0) && (align == Align::Right ==> l == width - str_width(
                content,
            )) && (align == Align::Center ==> l == (width - str_width(content)) / 2),
{
    let w = str_width(content) as int;
    if w < width {
        let p = width - w;
        match align {
            Align::Left => {
                assert(spaces(0) + content + spaces(p) =~= content + spaces(p));
                assert(spaces(p - 0) == spaces(p));
            },
            Align::Right => {
                assert(spaces(p) + content + spaces(p - p) =~= spaces(p) + content);
            },
            Align::Center => {
                assert(spaces(p / 2) + content + spaces(p - p / 2) == spaces(p / 2) + content
                    + spaces(p - p / 2));
            },
        }
    }
}

/// Pad/align `content` to exactly `width` display columns.
///
/// Assumes `content` already fits within `width` (callers wrap first); if it
/// is wider, it is returned unchanged so the layout never breaks on bad math.
pub fn align_cell(content: &str, width: usize, align: Align) -> (r: String)
    ensures
        r@ == spec_align_cell(content@, width as int, align),
        printable_ascii(content@) && content@.len() <= width ==> r@.len() == width,
        str_width(content@) < width ==> str_width(r@) == width,
{
    let w = str_display_width(content);
    if w >= width {
        return string_from(content);
    }
    let pad = width - w;
    match align {
        Align::Left => {
            let mut r = string_from(content);
            let sp = repeat_char(' ', pad);
            push_str(&mut r, sp.as_str());
            proof {
                assert(spaces(0) + content@ + spaces(pad as int) =~= content@ + spaces(pad as int));
                assert(str_width(spaces(0) + content@ + spaces(pad as int)) == w + 0 + pad);
            }
            r
        },
        Align::Right => {
            let mut r = repeat_char(' ', pad);
            push_str(&mut r, content);
            proof {
                assert(spaces(pad as int) + content@ + spaces(0) =~= spaces(pad as int) + content@);
                assert(str_width(spaces(pad as int) + content@ + spaces(0)) == w + pad + 0);
            }
            r
        },
        Align::Center => {
            let left = pad / 2;
            let right = pad - left;
            let mut r = repeat_char(' ', left);
            push_str(&mut r, content);
            let sp = repeat_char(' ', right);
            push_str(&mut r, sp.as_str());
            proof {
                assert(str_width(spaces(left as int) + content@ + spaces(right as int)) == w + left
                    + right);
            }
            r
        },
    }
}

} // verus!
