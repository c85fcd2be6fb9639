//! Character-level text primitives shared by the renderers and formatters:
//! whitespace, trimming, splitting, line iteration and UTF-8 byte lengths,
//! all stated over `Seq<char>`, the view of `str` and `String`.
use vstd::prelude::*;

verus! {

// ---------------------------------------------------------------------------
// Whitespace (the Unicode `White_Space` property, as used by `char::is_whitespace`)
// ---------------------------------------------------------------------------

/// `c` has the Unicode `White_Space` property.
pub open spec fn is_ws(c: char) -> bool {
    let u = c as u32;
    ||| (0x09 <= u && u <= 0x0D)
    ||| u == 0x20
    ||| u == 0x85
    ||| u == 0xA0
    ||| u == 0x1680
    ||| (0x2000 <= u && u <= 0x200A)
    ||| u == 0x2028
    ||| u == 0x2029
    ||| u == 0x202F
    ||| u == 0x205F
    ||| u == 0x3000
}

/// Whether `c` is whitespace.
pub fn is_whitespace(c: char) -> (b: bool)
    ensures
        b == is_ws(c),
{
    let u = c as u32;
    (0x09 <= u && u <= 0x0D) || u == 0x20 || u == 0x85 || u == 0xA0 || u == 0x1680 || (0x2000
        <= u && u <= 0x200A) || u == 0x2028 || u == 0x2029 || u == 0x202F || u == 0x205F || u
        == 0x3000
}

/// `s` without its leading whitespace.
pub open spec fn trim_start(s: Seq<char>) -> Seq<char>
    decreases s.len(),
{
    if s.len() > 0 && is_ws(s[0]) {
        trim_start(s.drop_first())
    } else {
        s
    }
}

/// `s` without its trailing whitespace.
pub open spec fn trim_end(s: Seq<char>) -> Seq<char>
    decreases s.len(),
{
    if s.len() > 0 && is_ws(s.last()) {
        trim_end(s.drop_last())
    } else {
        s
    }
}

/// `s` without leading and trailing whitespace.
pub open spec fn trim(s: Seq<char>) -> Seq<char> {
    trim_end(trim_start(s))
}

/// Skipping `i` leading whitespace characters does not change `trim_start`.
proof fn lemma_trim_start_skip(s: Seq<char>, i: int)
    requires
        0 <= i <= s.len(),
        forall|k: int| 0 <= k < i ==> is_ws(#[trigger] s[k]),
    ensures
        trim_start(s) == trim_start(s.skip(i)),
    decreases i,
{
    if i > 0 {
        assert(s.drop_first().skip(i - 1) =~= s.skip(i));
        lemma_trim_start_skip(s.drop_first(), i - 1);
    } else {
        assert(s.skip(0) =~= s);
    }
}

/// Dropping `n - j` trailing whitespace characters does not change `trim_end`.
proof fn lemma_trim_end_take(s: Seq<char>, j: int)
    requires
        0 <= j <= s.len(),
        forall|k: int| j <= k < s.len() ==> is_ws(#[trigger] s[k]),
    ensures
        trim_end(s) == trim_end(s.take(j)),
    decreases s.len() - j,
{
    if j < s.len() {
        assert(s.drop_last().take(j) =~= s.take(j));
        lemma_trim_end_take(s.drop_last(), j);
    } else {
        assert(s.take(j) =~= s);
    }
}

/// `trim_start(s)` is a suffix of `s` that is empty or starts with a
/// non-whitespace character.
proof fn lemma_trim_start_shape(s: Seq<char>) -> (i: int)
    ensures
        0 <= i <= s.len(),
        trim_start(s) == s.skip(i),
        trim_start(s).len() > 0 ==> !is_ws(trim_start(s)[0]),
    decreases s.len(),
{
    if s.len() > 0 && is_ws(s[0]) {
        let k = lemma_trim_start_shape(s.drop_first());
        assert(s.drop_first().skip(k) =~= s.skip(k + 1));
        k + 1
    } else {
        assert(s.skip(0) =~= s);
        0
    }
}

/// `trim_end(s)` is a prefix of `s` that is empty or ends with a
/// non-whitespace character.
proof fn lemma_trim_end_shape(s: Seq<char>) -> (j: int)
    ensures
        0 <= j <= s.len(),
        trim_end(s) == s.take(j),
        trim_end(s).len() > 0 ==> !is_ws(trim_end(s).last()),
    decreases s.len(),
{
    if s.len() > 0 && is_ws(s.last()) {
        let k = lemma_trim_end_shape(s.drop_last());
        assert(s.drop_last().take(k) =~= s.take(k));
        k
    } else {
        assert(s.take(s.len() as int) =~= s);
        s.len() as int
    }
}

/// A sequence that is empty, or starts and ends with non-whitespace, is
/// its own trim.
pub proof fn lemma_trim_fixed(t: Seq<char>)
    requires
        t.len() > 0 ==> !is_ws(t[0]) && !is_ws(t.last()),
    ensures
        trim(t) == t,
{
    assert(trim_start(t) == t);
    assert(trim_end(t) == t);
}

/// `trim(s)` is a contiguous part `s[i..j]` of `s`, empty or starting and
/// ending with non-whitespace; trimming it again changes nothing.
pub proof fn lemma_trim_shape(s: Seq<char>) -> (ij: (int, int))
    ensures
        0 <= ij.0 <= ij.1 <= s.len(),
        trim(s) == s.subrange(ij.0, ij.1),
        trim(s).len() > 0 ==> !is_ws(trim(s)[0]) && !is_ws(trim(s).last()),
        trim(trim(s)) == trim(s),
{
    let i = lemma_trim_start_shape(s);
    let x = trim_start(s);
    let j = lemma_trim_end_shape(x);
    assert(x.take(j) =~= s.subrange(i, i + j));
    if trim(s).len() > 0 {
        assert(trim(s)[0] == x[0]);
    }
    lemma_trim_fixed(trim(s));
    (i, i + j)
}

/// The bounds `(i, j)` such that `trim(v) == v[i..j]`.
pub fn trim_bounds(v: &[char]) -> (r: (usize, usize))
    ensures
        r.0 <= r.1 <= v@.len(),
        trim(v@) == v@.subrange(r.0 as int, r.1 as int),
        trim_start(v@) == v@.skip(r.0 as int),
{
    let n = v.len();
    let mut i: usize = 0;
    while i < n && is_whitespace(v[i])
        invariant
            i <= n == v@.len(),
            forall|k: int| 0 <= k < i ==> is_ws(#[trigger] v@[k]),
        decreases n - i,
    {
        i = i + 1;
    }
    proof {
        lemma_trim_start_skip(v@, i as int);
    }
    let ghost t = v@.skip(i as int);
    assert(trim_start(t) == t);
    let mut j: usize = n;
    while j > i && is_whitespace(v[j - 1])
        invariant
            i <= j <= n == v@.len(),
            forall|k: int| j <= k < n ==> is_ws(#[trigger] v@[k]),
        decreases j,
    {
        j = j - 1;
    }
    proof {
        assert forall|k: int| j - i <= k < t.len() implies is_ws(#[trigger] t[k]) by {
            assert(t[k] == v@[k + i]);
        }
        lemma_trim_end_take(t, j - i);
        assert(t.take(j - i) =~= v@.subrange(i as int, j as int));
    }
    (i, j)
}

/// `s` with leading and trailing whitespace removed.
pub fn trim_str(s: &str) -> (r: &str)
    ensures
        r@ == trim(s@),
{
    let v = chars_of(s);
    let (i, j) = trim_bounds(v.as_slice());
    s.substring_char(i, j)
}

/// `v` with leading and trailing whitespace removed.
pub fn trim_vec(v: &[char]) -> (r: Vec<char>)
    ensures
        r@ == trim(v@),
{
    let (i, j) = trim_bounds(v);
    slice_range(v, i, j)
}

/// `v` with trailing whitespace removed.
pub fn trim_end_vec(v: &[char]) -> (r: Vec<char>)
    ensures
        r@ == trim_end(v@),
{
    let n = v.len();
    let mut j: usize = n;
    while j > 0 && is_whitespace(v[j - 1])
        invariant
            j <= n == v@.len(),
            forall|k: int| j <= k < n ==> is_ws(#[trigger] v@[k]),
        decreases j,
    {
        j = j - 1;
    }
    proof {
        lemma_trim_end_take(v@, j as int);
    }
    slice_range(v, 0, j)
}

// ---------------------------------------------------------------------------
// Building sequences and strings
// ---------------------------------------------------------------------------

/// The characters of `s`, in order.
pub fn chars_of(s: &str) -> (v: Vec<char>)
    ensures
        v@ == s@,
{
    let mut v: Vec<char> = Vec::new();
    for c in it: s.chars()
        invariant
            v@ == it.seq().take(it.index() as int),
            it.seq() == s@,
    {
        v.push(c);
    }
    v
}

/// A copy of `v[i..j]`.
pub fn slice_range(v: &[char], i: usize, j: usize) -> (r: Vec<char>)
    requires
        i <= j <= v@.len(),
    ensures
        r@ == v@.subrange(i as int, j as int),
{
    let mut r: Vec<char> = Vec::new();
    let mut k = i;
    while k < j
        invariant
            i <= k <= j <= v@.len(),
            r@ == v@.subrange(i as int, k as int),
        decreases j - k,
    {
        r.push(v[k]);
        k = k + 1;
        assert(r@ =~= v@.subrange(i as int, k as int));
    }
    r
}

/// Appends `c` to `s` (`String::push`).
#[verifier::external_body]
pub(crate) fn push_char(s: &mut String, c: char)
    ensures
        final(s)@ == old(s)@.push(c),
{
    s.push(c)
}

/// Appends the characters of `v` to `s`.
pub fn push_chars(s: &mut String, v: &[char])
    ensures
        final(s)@ == old(s)@ + v@,
{
    let ghost s0 = s@;
    let mut k: usize = 0;
    while k < v.len()
        invariant
            k <= v@.len(),
            s@ == s0 + v@.take(k as int),
        decreases v.len() - k,
    {
        push_char(s, v[k]);
        k = k + 1;
        assert(s@ =~= s0 + v@.take(k as int));
    }
    assert(v@.take(v@.len() as int) =~= v@);
}

/// Appends `t` to `s`.
pub fn push_str(s: &mut String, t: &str)
    ensures
        final(s)@ == old(s)@ + t@,
{
    s.append(t);
}

/// A `String` holding the characters of `v`.
pub fn string_from_chars(v: &[char]) -> (s: String)
    ensures
        s@ == v@,
{
    let mut s = String::new();
    push_chars(&mut s, v);
    s
}

/// A `String` holding the characters of `t`.
pub fn string_from(t: &str) -> (s: String)
    ensures
        s@ == t@,
{
    String::from_str(t)
}

/// A `String` of `n` copies of `c`.
pub fn repeat_char(c: char, n: usize) -> (s: String)
    ensures
        s@ == Seq::new(n as nat, |i: int| c),
{
    let mut s = String::new();
    let mut k: usize = 0;
    while k < n
        invariant
            k <= n,
            s@ == Seq::new(k as nat, |i: int| c),
        decreases n - k,
    {
        push_char(&mut s, c);
        k = k + 1;
        assert(s@ =~= Seq::new(k as nat, |i: int| c));
    }
    s
}

// ---------------------------------------------------------------------------
// Splitting
// ---------------------------------------------------------------------------

/// The pieces of `s` between occurrences of `sep` (as `str::split` with a `char`).
/// There is always at least one piece; the empty sequence has one empty piece.
pub open spec fn split_char(s: Seq<char>, sep: char) -> Seq<Seq<char>>
    decreases s.len(),
{
    if s.len() == 0 {
        seq![Seq::<char>::empty()]
    } else {
        let r = split_char(s.drop_last(), sep);
        if s.last() == sep {
            r.push(Seq::<char>::empty())
        } else {
            r.update(r.len() - 1, r.last().push(s.last()))
        }
    }
}

/// `split_char` never yields an empty list of pieces.
pub proof fn lemma_split_char_nonempty(s: Seq<char>, sep: char)
    ensures
        split_char(s, sep).len() >= 1,
    decreases s.len(),
{
    if s.len() > 0 {
        lemma_split_char_nonempty(s.drop_last(), sep);
    }
}

/// Every character of every piece of `s` is a character of `s` other than
/// `sep`: what holds of all the characters of `s` holds of the pieces'.
pub proof fn lemma_split_char_pieces(s: Seq<char>, sep: char, p: spec_fn(char) -> bool)
    requires
        forall|i: int| 0 <= i < s.len() ==> p(#[trigger] s[i]),
    ensures
        forall|k: int, j: int|
            0 <= k < split_char(s, sep).len() && 0 <= j < split_char(s, sep)[k].len() ==> p(
                #[trigger] split_char(s, sep)[k][j],
            ) && split_char(s, sep)[k][j] != sep,
    decreases s.len(),
{
    if s.len() > 0 {
        let d = s.drop_last();
        lemma_split_char_pieces(d, sep, p);
        lemma_split_char_nonempty(d, sep);
        let r = split_char(d, sep);
        let c = s.last();
        assert(p(s[s.len() - 1]));
        if c != sep {
            let q = r.update(r.len() - 1, r.last().push(c));
            assert forall|k: int, j: int| 0 <= k < q.len() && 0 <= j < q[k].len() implies p(
                #[trigger] q[k][j],
            ) && q[k][j] != sep by {
                if k == r.len() - 1 && j == r.last().len() {
                    assert(q[k][j] == c);
                } else if k == r.len() - 1 {
                    assert(q[k][j] == r[k][j]);
                } else {
                    assert(q[k] == r[k]);
                }
            }
        } else {
            let q = r.push(Seq::<char>::empty());
            assert forall|k: int, j: int| 0 <= k < q.len() && 0 <= j < q[k].len() implies p(
                #[trigger] q[k][j],
            ) && q[k][j] != sep by {
                assert(k < r.len());
                assert(q[k] == r[k]);
            }
        }
    }
}

/// A sequence in which `sep` does not occur is its own single piece.
pub proof fn lemma_split_char_absent(s: Seq<char>, sep: char)
    requires
        forall|i: int| 0 <= i < s.len() ==> #[trigger] s[i] != sep,
    ensures
        split_char(s, sep) == seq![s],
    decreases s.len(),
{
    if s.len() > 0 {
        lemma_split_char_absent(s.drop_last(), sep);
        assert(s.drop_last().push(s.last()) =~= s);
        assert(s.last() != sep);
        assert(seq![s.drop_last()].update(0, s.drop_last().push(s.last())) =~= seq![s]);
    } else {
        assert(s =~= Seq::<char>::empty());
    }
}

/// The views of a vector of character vectors.
pub open spec fn views(v: Seq<Vec<char>>) -> Seq<Seq<char>> {
    v.map_values(|x: Vec<char>| x@)
}

/// Splits `v` at every occurrence of `sep`.
pub fn split_chars(v: &[char], sep: char) -> (r: Vec<Vec<char>>)
    ensures
        views(r@) == split_char(v@, sep),
{
    let mut pieces: Vec<Vec<char>> = Vec::new();
    let mut cur: Vec<char> = Vec::new();
    let mut k: usize = 0;
    assert(v@.take(0) =~= Seq::<char>::empty());
    while k < v.len()
        invariant
            k <= v@.len(),
            views(pieces@).push(cur@) == split_char(v@.take(k as int), sep),
        decreases v.len() - k,
    {
        let ghost prev = views(pieces@).push(cur@);
        assert(v@.take(k as int + 1).drop_last() =~= v@.take(k as int));
        proof {
            lemma_split_char_nonempty(v@.take(k as int), sep);
        }
        if v[k] == sep {
            let done = cur;
            pieces.push(done);
            cur = Vec::new();
            assert(views(pieces@).push(cur@) =~= prev.push(Seq::<char>::empty()));
        } else {
            cur.push(v[k]);
            assert(views(pieces@).push(cur@) =~= prev.update(
                prev.len() - 1,
                prev.last().push(v@[k as int]),
            ));
        }
        k = k + 1;
    }
    pieces.push(cur);
    assert(v@.take(v@.len() as int) =~= v@);
    assert(views(pieces@) =~= split_char(v@, sep));
    pieces
}

// ---------------------------------------------------------------------------
// Lines
// ---------------------------------------------------------------------------

/// The raw lines of `s`: the pieces between `'\n'`, without the empty piece
/// that follows a final `'\n'` (and none at all for an empty `s`).
pub open spec fn raw_lines(s: Seq<char>) -> Seq<Seq<char>> {
    let p = split_char(s, '\n');
    if p.last().len() == 0 {
        p.drop_last()
    } else {
        p
    }
}

/// `line` without one trailing `'\r'`.
pub open spec fn strip_cr(line: Seq<char>) -> Seq<char> {
    if line.len() > 0 && line.last() == '\r' {
        line.drop_last()
    } else {
        line
    }
}

/// The lines of `s`, as `str::lines` yields them: split at `'\n'`, a `'\r'`
/// directly before a `'\n'` removed, and no empty line after a final `'\n'`.
pub open spec fn lines(s: Seq<char>) -> Seq<Seq<char>> {
    let p = split_char(s, '\n');
    let r = raw_lines(s);
    Seq::new(r.len(), |i: int| if i < p.len() - 1 { strip_cr(r[i]) } else { r[i] })
}

/// No line of `s` holds a `'\n'`.
pub proof fn lemma_lines_no_newline(s: Seq<char>)
    ensures
        forall|k: int, j: int|
            0 <= k < lines(s).len() && 0 <= j < lines(s)[k].len() ==> #[trigger] lines(s)[k][j]
                != '\n',
{
    let p = split_char(s, '\n');
    lemma_split_char_pieces(s, '\n', |c: char| true);
    lemma_split_char_nonempty(s, '\n');
    let r = raw_lines(s);
    assert forall|k: int, j: int| 0 <= k < lines(s).len() && 0 <= j < lines(s)[k].len() implies #[trigger] lines(
        s,
    )[k][j] != '\n' by {
        assert(r[k] == p[k]);
        if k < p.len() - 1 {
            assert(lines(s)[k] == strip_cr(r[k]));
            assert(lines(s)[k][j] == r[k][j]);
        } else {
            assert(lines(s)[k] == r[k]);
        }
        assert(p[k][j] != '\n');
    }
}

/// The lines of a sequence without `'\n'`: none when it is empty, else the
/// sequence itself (no `'\r'` is taken from a last line).
pub proof fn lemma_lines_single(s: Seq<char>)
    requires
        forall|i: int| 0 <= i < s.len() ==> #[trigger] s[i] != '\n',
    ensures
        s.len() == 0 ==> lines(s).len() == 0,
        s.len() > 0 ==> lines(s) == seq![s],
{
    lemma_split_char_absent(s, '\n');
    if s.len() > 0 {
        assert(lines(s) =~= seq![s]);
    }
}

/// The raw lines of `v` (see `raw_lines`).
pub fn raw_lines_of(v: &[char]) -> (r: Vec<Vec<char>>)
    ensures
        views(r@) == raw_lines(v@),
{
    raw_lines_split(v).0
}

/// The raw lines of `v`, and whether an empty final piece was dropped.
fn raw_lines_split(v: &[char]) -> (r: (Vec<Vec<char>>, bool))
    ensures
        views(r.0@) == raw_lines(v@),
        r.1 == (split_char(v@, '\n').last().len() == 0),
        split_char(v@, '\n').len() >= 1,
{
    let mut p = split_chars(v, '\n');
    proof {
        lemma_split_char_nonempty(v@, '\n');
    }
    let n = p.len();
    if p[n - 1].len() == 0 {
        p.pop();
        assert(views(p@) =~= split_char(v@, '\n').drop_last());
        (p, true)
    } else {
        (p, false)
    }
}

/// The lines of `v` (see `lines`).
pub fn lines_of(v: &[char]) -> (r: Vec<Vec<char>>)
    ensures
        views(r@) == lines(v@),
{
    let (raw, dropped) = raw_lines_split(v);
    let ghost p = split_char(v@, '\n');
    let mut out: Vec<Vec<char>> = Vec::new();
    let mut i: usize = 0;
    while i < raw.len()
        invariant
            i <= raw@.len() == raw_lines(v@).len(),
            views(raw@) == raw_lines(v@),
            p == split_char(v@, '\n'),
            p.len() >= 1,
            dropped == (p.last().len() == 0),
            views(out@) == lines(v@).take(i as int),
        decreases raw.len() - i,
    {
        let line = &raw[i];
        assert(line@ == raw_lines(v@)[i as int]);
        let n = line.len();
        let not_last = dropped || i + 1 < raw.len();
        let piece = if not_last && n > 0 && line[n - 1] == '\r' {
            slice_range(line.as_slice(), 0, n - 1)
        } else {
            slice_range(line.as_slice(), 0, n)
        };
        proof {
            assert(line@.subrange(0, n as int) =~= line@);
            if n > 0 {
                assert(line@.subrange(0, n as int - 1) =~= line@.drop_last());
            }
            assert(piece@ == lines(v@)[i as int]);
        }
        let ghost before = views(out@);
        out.push(piece);
        assert(views(out@) =~= before.push(piece@));
        i = i + 1;
        assert(views(out@) =~= lines(v@).take(i as int));
    }
    assert(lines(v@).take(raw@.len() as int) =~= lines(v@));
    out
}

// ---------------------------------------------------------------------------
// Prefixes, suffixes and substrings
// ---------------------------------------------------------------------------

/// `s` begins with `p`.
pub open spec fn has_prefix(s: Seq<char>, p: Seq<char>) -> bool {
    p.len() <= s.len() && s.take(p.len() as int) == p
}

/// `s` ends with `p`.
pub open spec fn has_suffix(s: Seq<char>, p: Seq<char>) -> bool {
    p.len() <= s.len() && s.skip(s.len() - p.len()) == p
}

/// `p` occurs in `s` at position `i`.
pub open spec fn occurs_at(s: Seq<char>, p: Seq<char>, i: int) -> bool {
    0 <= i && i + p.len() <= s.len() && s.subrange(i, i + p.len()) == p
}

/// `p` occurs somewhere in `s`.
pub open spec fn contains_seq(s: Seq<char>, p: Seq<char>) -> bool {
    exists|i: int| occurs_at(s, p, i)
}

/// Whether `p` occurs in `s` at position `i`.
pub fn matches_at(s: &[char], p: &[char], i: usize) -> (b: bool)
    requires
        i <= s@.len(),
    ensures
        b == occurs_at(s@, p@, i as int),
{
    if p.len() > s.len() - i {
        return false;
    }
    let mut k: usize = 0;
    while k < p.len()
        invariant
            k <= p@.len(),
            i + p@.len() <= s@.len(),
            forall|m: int| 0 <= m < k ==> s@[i + m] == p@[m],
        decreases p.len() - k,
    {
        assert(i + k < s.len());
        if s[i + k] != p[k] {
            return false;
        }
        k = k + 1;
    }
    assert(s@.subrange(i as int, i + p@.len()) =~= p@);
    true
}

/// Whether `s` begins with `p`.
pub fn starts_with(s: &[char], p: &[char]) -> (b: bool)
    ensures
        b == has_prefix(s@, p@),
{
    let b = matches_at(s, p, 0);
    proof {
        if b {
            assert(s@.take(p@.len() as int) =~= s@.subrange(0, p@.len() as int));
        } else if p@.len() <= s@.len() {
            assert(s@.take(p@.len() as int) =~= s@.subrange(0, p@.len() as int));
        }
    }
    b
}

/// Whether `s` ends with `p`.
pub fn ends_with(s: &[char], p: &[char]) -> (b: bool)
    ensures
        b == has_suffix(s@, p@),
{
    if p.len() > s.len() {
        return false;
    }
    let i = s.len() - p.len();
    let b = matches_at(s, p, i);
    assert(s@.skip(i as int) =~= s@.subrange(i as int, i + p@.len()));
    b
}

/// Whether `p` occurs in `s`.
pub fn contains(s: &[char], p: &[char]) -> (b: bool)
    ensures
        b == contains_seq(s@, p@),
{
    let mut i: usize = 0;
    loop
        invariant
            i <= s@.len(),
            forall|m: int| 0 <= m < i ==> !occurs_at(s@, p@, m),
        ensures
            forall|m: int| 0 <= m <= s@.len() ==> !occurs_at(s@, p@, m),
        decreases s.len() - i,
    {
        if matches_at(s, p, i) {
            return true;
        }
        if i == s.len() {
            break;
        }
        i = i + 1;
    }
    assert forall|m: int| !occurs_at(s@, p@, m) by {
        if 0 <= m && m < i {
        } else {
        }
    }
    false
}

/// Whether `a` and `b` hold the same characters.
pub fn chars_eq(a: &[char], b: &[char]) -> (r: bool)
    ensures
        r == (a@ == b@),
{
    if a.len() != b.len() {
        return false;
    }
    let mut i: usize = 0;
    while i < a.len()
        invariant
            i <= a@.len() == b@.len(),
            forall|m: int| 0 <= m < i ==> a@[m] == b@[m],
        decreases a.len() - i,
    {
        if a[i] != b[i] {
            return false;
        }
        i = i + 1;
    }
    assert(a@ =~= b@);
    true
}


// ---------------------------------------------------------------------------
// Decimal numbers, joining and searching
// ---------------------------------------------------------------------------

/// The decimal digit for `d` (0 through 9).
pub open spec fn digit_char(d: int) -> char {
    if d == 0 {
        '0'
    } else if d == 1 {
        '1'
    } else if d == 2 {
        '2'
    } else if d == 3 {
        '3'
    } else if d == 4 {
        '4'
    } else if d == 5 {
        '5'
    } else if d == 6 {
        '6'
    } else if d == 7 {
        '7'
    } else if d == 8 {
        '8'
    } else {
        '9'
    }
}

/// The decimal representation of `n`, without leading zeros.
pub open spec fn decimal(n: nat) -> Seq<char>
    decreases n,
{
    if n < 10 {
        seq![digit_char(n as int)]
    } else {
        decimal(n / 10).push(digit_char((n % 10) as int))
    }
}

/// The digit for `d`.
fn digit(d: u64) -> (c: char)
    requires
        d < 10,
    ensures
        c == digit_char(d as int),
{
    if d == 0 {
        '0'
    } else if d == 1 {
        '1'
    } else if d == 2 {
        '2'
    } else if d == 3 {
        '3'
    } else if d == 4 {
        '4'
    } else if d == 5 {
        '5'
    } else if d == 6 {
        '6'
    } else if d == 7 {
        '7'
    } else if d == 8 {
        '8'
    } else {
        '9'
    }
}

/// Appends the decimal digits of `n` to `s`.
pub fn push_decimal(s: &mut String, n: u64)
    ensures
        final(s)@ == old(s)@ + decimal(n as nat),
    decreases n,
{
    if n >= 10 {
        push_decimal(s, n / 10);
    }
    push_char(s, digit(n % 10));
    proof {
        if n >= 10 {
            assert(decimal(n as nat) == decimal((n / 10) as nat).push(digit_char((n % 10) as int)));
        }
    }
}

/// `items` one after the other with `sep` between each two.
pub open spec fn join(items: Seq<Seq<char>>, sep: Seq<char>) -> Seq<char>
    decreases items.len(),
{
    if items.len() == 0 {
        Seq::empty()
    } else if items.len() == 1 {
        items[0]
    } else {
        join(items.drop_last(), sep) + sep + items.last()
    }
}

/// A character that occurs neither in the items nor in the separator does
/// not occur in their join.
pub proof fn lemma_join_avoids(items: Seq<Seq<char>>, sep: Seq<char>, c: char)
    requires
        forall|k: int, j: int|
            0 <= k < items.len() && 0 <= j < items[k].len() ==> #[trigger] items[k][j] != c,
        forall|j: int| 0 <= j < sep.len() ==> #[trigger] sep[j] != c,
    ensures
        forall|j: int|
            0 <= j < join(items, sep).len() ==> #[trigger] join(items, sep)[j] != c,
    decreases items.len(),
{
    if items.len() > 1 {
        let d = items.drop_last();
        assert forall|k: int, j: int| 0 <= k < d.len() && 0 <= j < d[k].len() implies #[trigger] d[
            k][j] != c by {
            assert(d[k] == items[k]);
        }
        lemma_join_avoids(d, sep, c);
        let a = join(d, sep);
        let l = items.last();
        assert forall|j: int| 0 <= j < join(items, sep).len() implies #[trigger] join(items, sep)[j]
            != c by {
            if j < a.len() {
                assert(join(items, sep)[j] == a[j]);
            } else if j < a.len() + sep.len() {
                assert(join(items, sep)[j] == sep[j - a.len()]);
            } else {
                assert(join(items, sep)[j] == l[j - a.len() - sep.len()]);
                assert(items[items.len() - 1][j - a.len() - sep.len()] != c);
            }
        }
    } else if items.len() == 1 {
        assert forall|j: int| 0 <= j < join(items, sep).len() implies #[trigger] join(items, sep)[j]
            != c by {
            assert(items[0][j] != c);
        }
    }
}

/// The join of `items` begins with `items[0]`, followed by the separator
/// when anything follows it.
pub proof fn lemma_join_head(items: Seq<Seq<char>>, sep: Seq<char>)
    requires
        items.len() >= 1,
        sep.len() >= 1,
    ensures
        items[0].len() <= join(items, sep).len(),
        join(items, sep).take(items[0].len() as int) == items[0],
        join(items, sep).len() > items[0].len() ==> join(items, sep)[items[0].len() as int]
            == sep[0],
        join(items, sep).len() > 0 ==> join(items, sep).last() == (if items.last().len() > 0 {
            items.last().last()
        } else if items.len() == 1 {
            items[0].last()
        } else {
            sep.last()
        }),
    decreases items.len(),
{
    let n = items[0].len() as int;
    if items.len() == 1 {
        assert(join(items, sep).take(n) =~= items[0]);
    } else {
        let d = items.drop_last();
        lemma_join_head(d, sep);
        assert(d[0] == items[0]);
        let a = join(d, sep);
        let whole = join(items, sep);
        assert(whole == a + sep + items.last());
        assert(whole.take(n) =~= a.take(n));
        if a.len() == n {
            assert(whole[n] == sep[0]);
        } else {
            assert(whole[n] == a[n]);
        }
    }
}

/// The views of a sequence of strings.
pub open spec fn str_seq_views(v: Seq<String>) -> Seq<Seq<char>> {
    v.map_values(|x: String| x@)
}

/// Appends `items` joined by `sep` to `s`.
pub fn push_joined(s: &mut String, items: &Vec<String>, sep: &str)
    ensures
        final(s)@ == old(s)@ + join(str_seq_views(items@), sep@),
{
    let ghost s0 = s@;
    let ghost iv = str_seq_views(items@);
    let mut k: usize = 0;
    assert(iv.take(0) =~= Seq::<Seq<char>>::empty());
    assert(s@ =~= s0 + join(iv.take(0), sep@));
    while k < items.len()
        invariant
            k <= items@.len(),
            iv == str_seq_views(items@),
            s@ == s0 + join(iv.take(k as int), sep@),
        decreases items.len() - k,
    {
        let ghost before = s@;
        if k > 0 {
            push_str(s, sep);
        }
        push_str(s, items[k].as_str());
        assert(iv.take(k as int + 1).drop_last() =~= iv.take(k as int));
        assert(iv[k as int] == items@[k as int]@);
        if k == 0 {
            assert(join(iv.take(1), sep@) == iv.take(1)[0]);
        }
        assert(s@ =~= s0 + join(iv.take(k as int + 1), sep@));
        k = k + 1;
    }
    assert(iv.take(items@.len() as int) =~= iv);
}

/// The position of the last `c` in `s`.
pub open spec fn last_index_of(s: Seq<char>, c: char) -> Option<int>
    decreases s.len(),
{
    if s.len() == 0 {
        None
    } else if s.last() == c {
        Some(s.len() - 1)
    } else {
        last_index_of(s.drop_last(), c)
    }
}

/// `last_index_of` finds an occurrence of `c` after which there is none,
/// and finds nothing only when `c` does not occur.
pub proof fn lemma_last_index_of(s: Seq<char>, c: char)
    ensures
        match last_index_of(s, c) {
            Some(i) => 0 <= i < s.len() && s[i] == c && forall|k: int|
                i < k < s.len() ==> #[trigger] s[k] != c,
            None => forall|k: int| 0 <= k < s.len() ==> #[trigger] s[k] != c,
        },
    decreases s.len(),
{
    if s.len() > 0 && s.last() != c {
        lemma_last_index_of(s.drop_last(), c);
        assert forall|k: int| 0 <= k < s.len() - 1 implies s[k] == s.drop_last()[k] by {}
    }
}

/// The position of the last `c` in `v`.
pub fn find_last(v: &[char], c: char) -> (r: Option<usize>)
    ensures
        match r {
            Some(i) => last_index_of(v@, c) == Some(i as int),
            None => last_index_of(v@, c) is None,
        },
        r matches Some(i) ==> i < v@.len() && v@[i as int] == c,
{
    let mut i = v.len();
    assert(v@.take(i as int) =~= v@);
    while i > 0
        invariant
            i <= v@.len(),
            last_index_of(v@, c) == last_index_of(v@.take(i as int), c),
        decreases i,
    {
        assert(v@.take(i as int).drop_last() =~= v@.take(i as int - 1));
        if v[i - 1] == c {
            return Some(i - 1);
        }
        i = i - 1;
    }
    None
}

/// The longest prefix of `s` (counted in characters) whose UTF-8 encoding
/// takes at most `max` bytes.
pub open spec fn prefix_within(s: Seq<char>, max: int) -> int
    decreases s.len(),
{
    if s.len() == 0 || byte_len(s) <= max {
        s.len() as int
    } else {
        prefix_within(s.drop_last(), max)
    }
}

/// `k` characters fit and the next does not: `k` is the longest prefix.
proof fn lemma_prefix_within(s: Seq<char>, max: int, k: int)
    requires
        0 <= k <= s.len(),
        byte_len(s.take(k)) <= max,
        k == s.len() || byte_len(s.take(k + 1)) > max,
    ensures
        prefix_within(s, max) == k,
    decreases s.len(),
{
    if k == s.len() {
        assert(s.take(k) =~= s);
    } else {
        lemma_byte_len_take_mono(s, k + 1, s.len() as int);
        assert(s.take(s.len() as int) =~= s);
        let d = s.drop_last();
        assert(d.take(k) =~= s.take(k));
        if k + 1 <= d.len() {
            assert(d.take(k + 1) =~= s.take(k + 1));
        }
        lemma_prefix_within(d, max, k);
    }
}

/// The longest prefix of `v` whose UTF-8 encoding takes at most `max` bytes.
pub fn prefix_chars_within(v: &[char], max: usize) -> (k: usize)
    ensures
        k == prefix_within(v@, max as int),
        k <= v@.len(),
{
    let mut k: usize = 0;
    let mut used: usize = 0;
    assert(v@.take(0) =~= Seq::<char>::empty());
    while k < v.len()
        invariant
            k <= v@.len(),
            used == byte_len(v@.take(k as int)),
            used <= max,
        decreases v.len() - k,
    {
        let w = char_utf8_len(v[k]);
        assert(v@.take(k as int + 1).drop_last() =~= v@.take(k as int));
        if w > max - used {
            proof {
                lemma_prefix_within(v@, max as int, k as int);
            }
            return k;
        }
        used = used + w;
        k = k + 1;
    }
    proof {
        lemma_prefix_within(v@, max as int, k as int);
    }
    k
}

// ---------------------------------------------------------------------------
// UTF-8 byte lengths
// ---------------------------------------------------------------------------

/// The number of bytes `c` takes in UTF-8 (`char::len_utf8`).
pub open spec fn utf8_len(c: char) -> nat {
    let u = c as u32;
    if u < 0x80 {
        1
    } else if u < 0x800 {
        2
    } else if u < 0x10000 {
        3
    } else {
        4
    }
}

/// The number of bytes `s` takes in UTF-8 (`str::len`).
pub open spec fn byte_len(s: Seq<char>) -> nat
    decreases s.len(),
{
    if s.len() == 0 {
        0
    } else {
        byte_len(s.drop_last()) + utf8_len(s.last())
    }
}

/// The UTF-8 length of `c`.
pub fn char_utf8_len(c: char) -> (n: usize)
    ensures
        n == utf8_len(c),
{
    let u = c as u32;
    if u < 0x80 {
        1
    } else if u < 0x800 {
        2
    } else if u < 0x10000 {
        3
    } else {
        4
    }
}

/// `byte_len` distributes over concatenation.
pub proof fn lemma_byte_len_concat(a: Seq<char>, b: Seq<char>)
    ensures
        byte_len(a + b) == byte_len(a) + byte_len(b),
    decreases b.len(),
{
    if b.len() == 0 {
        assert(a + b =~= a);
    } else {
        assert((a + b).drop_last() =~= a + b.drop_last());
        lemma_byte_len_concat(a, b.drop_last());
    }
}

/// `byte_len` is at least the number of characters.
pub proof fn lemma_byte_len_ge_len(s: Seq<char>)
    ensures
        byte_len(s) >= s.len(),
    decreases s.len(),
{
    if s.len() > 0 {
        lemma_byte_len_ge_len(s.drop_last());
    }
}

/// `byte_len` grows with the prefix taken.
pub proof fn lemma_byte_len_take_mono(s: Seq<char>, i: int, j: int)
    requires
        0 <= i <= j <= s.len(),
    ensures
        byte_len(s.take(i)) <= byte_len(s.take(j)),
    decreases j - i,
{
    if i < j {
        assert(s.take(j).drop_last() =~= s.take(j - 1));
        lemma_byte_len_take_mono(s, i, j - 1);
    }
}

/// The UTF-8 byte length of `v`, when it fits in a `usize`.
pub fn byte_len_of(v: &[char]) -> (n: usize)
    requires
        byte_len(v@) <= usize::MAX,
    ensures
        n == byte_len(v@),
{
    let mut n: usize = 0;
    let mut i: usize = 0;
    while i < v.len()
        invariant
            i <= v@.len(),
            n == byte_len(v@.take(i as int)),
            byte_len(v@) <= usize::MAX,
        decreases v.len() - i,
    {
        assert(v@.take(i as int + 1).drop_last() =~= v@.take(i as int));
        proof {
            lemma_byte_len_take_mono(v@, i as int + 1, v@.len() as int);
            assert(v@.take(v@.len() as int) =~= v@);
        }
        n = n + char_utf8_len(v[i]);
        i = i + 1;
    }
    assert(v@.take(v@.len() as int) =~= v@);
    n
}

} // verus!
