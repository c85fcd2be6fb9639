//! Render literature-search responses (JSON) into compact, LLM-friendly
//! Markdown: search result lists and article details.
use crate::json::{
    get_array, get_str, spec_as_bool, spec_as_str, spec_as_u64, spec_get, JsonNumber, JsonValue,
};
use crate::table::concat;
use crate::text::{
    byte_len, byte_len_of, chars_eq, chars_of, contains, contains_seq, decimal, find_last,
    has_prefix, has_suffix, is_ws, join, last_index_of, lemma_last_index_of, lemma_join_avoids, lemma_join_head,
    lemma_lines_no_newline, lemma_lines_single, lemma_trim_fixed, lemma_trim_shape, lines, lines_of, prefix_chars_within, prefix_within, push_char,
    push_decimal, push_joined, push_str, starts_with, str_seq_views, string_from,
    string_from_chars, trim, trim_end, trim_end_vec, trim_start, trim_vec, views,
};
use vstd::prelude::*;

verus! {

// ---------------------------------------------------------------------------
// Helpers
// ---------------------------------------------------------------------------

/// The string under `key` in `v`, or `default`.
pub open spec fn spec_str_or(v: JsonValue, key: Seq<char>, default: Seq<char>) -> Seq<char> {
    match get_str(v, key) {
        Some(s) => s,
        None => default,
    }
}

/// The string under `key` in `v`, or `default`.
pub fn str_or<'a>(v: &'a JsonValue, key: &str, default: &'a str) -> (r: &'a str)
    ensures
        r@ == spec_str_or(*v, key@, default@),
{
    match v.get(key) {
        Some(x) => match x.as_str() {
            Some(s) => s,
            None => default,
        },
        None => default,
    }
}

/// `s` when it has at most `max_len` characters; otherwise its first
/// `max_len` characters, cut back to their last space when they hold one,
/// followed by `...`.
pub open spec fn spec_truncate(s: Seq<char>, max_len: int) -> Seq<char> {
    if s.len() <= max_len {
        s
    } else {
        let t = s.take(max_len);
        let kept = match last_index_of(t, ' ') {
            Some(i) => t.take(i),
            None => t,
        };
        kept + "..."@
    }
}

/// Truncation keeps a text of at most `max_len` characters as it is; a
/// longer one becomes a beginning of it of at most `max_len` characters,
/// cut at a space when its first `max_len` characters hold one (the space
/// itself dropped), followed by "...".
pub proof fn law_truncate_keeps_a_prefix(s: Seq<char>, max_len: int)
    requires
        0 <= max_len,
    ensures
        s.len() <= max_len ==> spec_truncate(s, max_len) == s,
        s.len() > max_len ==> exists|k: int|
            #![trigger s.take(k)]
            0 <= k <= max_len && spec_truncate(s, max_len) == s.take(k) + "..."@ && (k < max_len
                <==> s.take(max_len).contains(' ')) && (k < max_len ==> s[k] == ' '
                && !s.subrange(k + 1, max_len).contains(' ')),
{
    if s.len() > max_len {
        let t = s.take(max_len);
        match last_index_of(t, ' ') {
            Some(i) => {
                lemma_last_index_of(t, ' ');
                assert(t.take(i) =~= s.take(i));
                assert(s[i] == t[i]);
                assert(t.contains(' ')) by {
                    assert(t[i] == ' ');
                }
                let rest = s.subrange(i + 1, max_len);
                assert forall|x: int| 0 <= x < rest.len() implies #[trigger] rest[x] != ' ' by {
                    assert(rest[x] == t[i + 1 + x]);
                }
            },
            None => {
                lemma_last_index_of(t, ' ');
                assert(t =~= s.take(max_len));
            },
        }
    }
}

/// Truncate a string to `max_len` characters, appending "..." if truncated
/// (breaking at the last space of the kept characters when there is one).
pub fn truncate(s: &str, max_len: usize) -> (r: String)
    ensures
        r@ == spec_truncate(s@, max_len as int),
{
    let v = chars_of(s);
    if v.len() <= max_len {
        return string_from(s);
    }
    let t = crate::text::slice_range(v.as_slice(), 0, max_len);
    assert(t@ =~= v@.take(max_len as int));
    let mut out = match find_last(t.as_slice(), ' ') {
        Some(i) => {
            let kept = crate::text::slice_range(t.as_slice(), 0, i);
            assert(kept@ =~= t@.take(i as int));
            string_from_chars(kept.as_slice())
        },
        None => string_from_chars(t.as_slice()),
    };
    push_str(&mut out, "...");
    out
}

/// The longest prefix within `max` bytes does fit.
proof fn lemma_prefix_fits(s: Seq<char>, max: int)
    ensures
        0 <= prefix_within(s, max) <= s.len(),
        prefix_within(s, max) == s.len() ==> (s.len() == 0 || byte_len(s) <= max),
    decreases s.len(),
{
    if s.len() > 0 && byte_len(s) > max {
        lemma_prefix_fits(s.drop_last(), max);
    }
}

/// The markers of noise in a raw publication-type string.
pub open spec fn pub_type_noise(s: Seq<char>) -> bool {
    ||| contains_seq(s, "Search in PubMed"@)
    ||| contains_seq(s, "Search in MeSH"@)
    ||| contains_seq(s, "Add to Search"@)
    ||| contains_seq(s, "Actions"@)
}

/// A publication type is clean: free of page noise and shorter than 120 bytes.
pub open spec fn spec_is_clean_pub_type(s: Seq<char>) -> bool {
    !pub_type_noise(s) && byte_len(s) < 120
}

/// Whether `v` contains the text `p`.
fn contains_str(v: &[char], p: &str) -> (b: bool)
    ensures
        b == contains_seq(v@, p@),
{
    let pv = chars_of(p);
    contains(v, pv.as_slice())
}

/// Whether `v` begins with the text `p`.
fn starts_with_str(v: &[char], p: &str) -> (b: bool)
    ensures
        b == has_prefix(v@, p@),
{
    let pv = chars_of(p);
    starts_with(v, pv.as_slice())
}

/// Check whether a raw publication-type string is clean (free of HTML noise).
pub fn is_clean_pub_type(s: &str) -> (b: bool)
    ensures
        b == spec_is_clean_pub_type(s@),
{
    let v = chars_of(s);
    let noisy = contains_str(v.as_slice(), "Search in PubMed") || contains_str(
        v.as_slice(),
        "Search in MeSH",
    ) || contains_str(v.as_slice(), "Add to Search") || contains_str(v.as_slice(), "Actions");
    if noisy {
        return false;
    }
    // Count bytes only as far as needed: 120 is the bound.
    let k = prefix_chars_within(v.as_slice(), 119);
    proof {
        lemma_prefix_fits(v@, 119);
        if k < v@.len() {
            crate::text::lemma_byte_len_take_mono(v@, k as int + 1, v@.len() as int);
            assert(v@.take(v@.len() as int) =~= v@);
            lemma_prefix_is_longest(v@, 119);
        } else {
            assert(v@.take(k as int) =~= v@);
        }
    }
    k == v.len()
}

/// Past the longest prefix within `max` bytes, one more character does not fit.
proof fn lemma_prefix_is_longest(s: Seq<char>, max: int)
    requires
        max >= 0,
    ensures
        prefix_within(s, max) < s.len() ==> byte_len(s.take(prefix_within(s, max) + 1)) > max,
        byte_len(s.take(prefix_within(s, max))) <= max,
    decreases s.len(),
{
    assert(s.take(s.len() as int) =~= s);
    if s.len() > 0 && byte_len(s) > max {
        let d = s.drop_last();
        lemma_prefix_is_longest(d, max);
        lemma_prefix_fits(d, max);
        let k = prefix_within(d, max);
        assert(s.take(k) =~= d.take(k));
        if k < d.len() {
            assert(s.take(k + 1) =~= d.take(k + 1));
        } else {
            assert(s.take(k + 1) =~= s);
        }
    }
}

/// A citation line that is page noise.
pub open spec fn citation_noise(l: Seq<char>) -> bool {
    ||| has_prefix(l, "PubMed"@)
    ||| has_prefix(l, "PMC"@)
    ||| has_prefix(l, "Actions"@)
    ||| has_prefix(l, "-"@)
    ||| has_prefix(l, "Search in"@)
    ||| has_prefix(l, "Add to"@)
}

/// The trimmed lines that are neither empty nor noise.
pub open spec fn kept_citation_lines(ls: Seq<Seq<char>>) -> Seq<Seq<char>>
    decreases ls.len(),
{
    if ls.len() == 0 {
        Seq::empty()
    } else {
        let prev = kept_citation_lines(ls.drop_last());
        let t = trim(ls.last());
        if !citation_noise(t) && t.len() > 0 {
            prev.push(t)
        } else {
            prev
        }
    }
}

/// A raw citation without page noise: its lines trimmed, empty and noise
/// lines dropped, the rest joined by single spaces and trimmed.
pub open spec fn spec_clean_citation(raw: Seq<char>) -> Seq<char> {
    trim(join(kept_citation_lines(lines(raw)), " "@))
}

/// Remove HTML-like noise from a raw citation string (newlines, extra
/// whitespace, trailing "PubMed" / "PMC" labels).
pub fn clean_citation(raw: &str) -> (r: String)
    ensures
        r@ == spec_clean_citation(raw@),
{
    let v = chars_of(raw);
    let ls = lines_of(v.as_slice());
    let mut kept: Vec<String> = Vec::new();
    let mut i: usize = 0;
    assert(views(ls@).take(0) =~= Seq::<Seq<char>>::empty());
    while i < ls.len()
        invariant
            i <= ls@.len(),
            views(ls@) == lines(raw@),
            str_seq_views(kept@) == kept_citation_lines(views(ls@).take(i as int)),
        decreases ls.len() - i,
    {
        let t = trim_vec(ls[i].as_slice());
        assert(views(ls@).take(i as int + 1).drop_last() =~= views(ls@).take(i as int));
        assert(views(ls@)[i as int] == ls@[i as int]@);
        let noise = starts_with_str(t.as_slice(), "PubMed") || starts_with_str(t.as_slice(), "PMC")
            || starts_with_str(t.as_slice(), "Actions") || starts_with_str(t.as_slice(), "-")
            || starts_with_str(t.as_slice(), "Search in") || starts_with_str(
            t.as_slice(),
            "Add to",
        );
        if !noise && t.len() > 0 {
            let ghost before = str_seq_views(kept@);
            let ts = string_from_chars(t.as_slice());
            kept.push(ts);
            assert(str_seq_views(kept@) =~= before.push(ts@));
        }
        i = i + 1;
    }
    assert(views(ls@).take(ls@.len() as int) =~= views(ls@));
    let mut joined = String::new();
    push_joined(&mut joined, &kept, " ");
    let jv = chars_of(joined.as_str());
    let t = trim_vec(jv.as_slice());
    string_from_chars(t.as_slice())
}

/// A kept citation line: non-empty, not noise, starting and ending with
/// non-whitespace, and without `'\n'`.
spec fn tidy_citation_line(l: Seq<char>) -> bool {
    &&& l.len() > 0
    &&& !citation_noise(l)
    &&& !is_ws(l[0])
    &&& !is_ws(l.last())
    &&& forall|j: int| 0 <= j < l.len() ==> l[j] != '\n'
}

/// Every kept citation line is tidy when the lines it came from hold no `'\n'`.
proof fn lemma_kept_citation_lines_shape(ls: Seq<Seq<char>>)
    requires
        forall|k: int, j: int| 0 <= k < ls.len() && 0 <= j < ls[k].len() ==> #[trigger] ls[k][j] != '\n',
    ensures
        forall|m: int|
            0 <= m < kept_citation_lines(ls).len() ==> tidy_citation_line(
                #[trigger] kept_citation_lines(ls)[m],
            ),
    decreases ls.len(),
{
    if ls.len() > 0 {
        let d = ls.drop_last();
        assert forall|k: int, j: int| 0 <= k < d.len() && 0 <= j < d[k].len() implies #[trigger] d[
            k][j] != '\n' by {
            assert(d[k] == ls[k]);
        }
        lemma_kept_citation_lines_shape(d);
        let prev = kept_citation_lines(d);
        let l = ls.last();
        let t = trim(l);
        if !citation_noise(t) && t.len() > 0 {
            let ij = lemma_trim_shape(l);
            assert forall|j: int| 0 <= j < t.len() implies t[j] != '\n' by {
                assert(t[j] == l[ij.0 + j]);
                assert(ls[ls.len() - 1][ij.0 + j] != '\n');
            }
            assert(tidy_citation_line(t));
            assert forall|m: int| 0 <= m < kept_citation_lines(ls).len() implies tidy_citation_line(
                #[trigger] kept_citation_lines(ls)[m],
            ) by {
                if m < prev.len() {
                    assert(kept_citation_lines(ls)[m] == prev[m]);
                }
            }
        } else {
            assert(kept_citation_lines(ls) == prev);
        }
    }
}

/// A text whose first `n` characters are `head`, with a space after them
/// when anything follows, starts with a space-free `p` only if `head` does.
proof fn lemma_prefix_within_head(c: Seq<char>, head: Seq<char>, p: Seq<char>)
    requires
        head.len() <= c.len(),
        c.take(head.len() as int) == head,
        c.len() > head.len() ==> c[head.len() as int] == ' ',
        forall|i: int| 0 <= i < p.len() ==> #[trigger] p[i] != ' ',
        has_prefix(c, p),
    ensures
        has_prefix(head, p),
{
    let n = head.len() as int;
    if p.len() <= n {
        assert(head.take(p.len() as int) =~= c.take(p.len() as int));
    } else {
        assert(c.take(p.len() as int)[n] == c[n]);
        assert(p[n] != ' ');
    }
}

/// A cleaned citation holds no `'\n'`; when it is not empty it is the join
/// of the kept lines itself, the first of which is tidy.
proof fn lemma_clean_citation_shape(raw: Seq<char>)
    ensures
        forall|i: int|
            0 <= i < spec_clean_citation(raw).len() ==> #[trigger] spec_clean_citation(raw)[i]
                != '\n',
        spec_clean_citation(raw).len() > 0 ==> {
            let kept = kept_citation_lines(lines(raw));
            &&& kept.len() > 0
            &&& tidy_citation_line(kept[0])
            &&& spec_clean_citation(raw) == join(kept, " "@)
        },
{
    reveal_strlit(" ");
    let ls = lines(raw);
    lemma_lines_no_newline(raw);
    lemma_kept_citation_lines_shape(ls);
    let kept = kept_citation_lines(ls);
    let sp = " "@;
    assert forall|k: int, j: int| 0 <= k < kept.len() && 0 <= j < kept[k].len() implies #[trigger] kept[
        k][j] != '\n' by {
        assert(tidy_citation_line(kept[k]));
    }
    lemma_join_avoids(kept, sp, '\n');
    let jn = join(kept, sp);
    let c = trim(jn);
    let ij = lemma_trim_shape(jn);
    assert forall|i: int| 0 <= i < c.len() implies #[trigger] c[i] != '\n' by {
        assert(c[i] == jn[ij.0 + i]);
    }
    if c.len() > 0 {
        assert(kept.len() > 0);
        lemma_join_head(kept, sp);
        let k0 = kept[0];
        assert(tidy_citation_line(k0));
        let kl = kept[kept.len() - 1];
        assert(tidy_citation_line(kl));
        assert(jn[0] == k0[0]) by {
            assert(jn.take(k0.len() as int)[0] == jn[0]);
        }
        lemma_trim_fixed(jn);
    }
}

/// A non-empty cleaned citation begins with none of the noise markers
/// that hold no space.
proof fn lemma_clean_citation_no_marker(raw: Seq<char>)
    requires
        spec_clean_citation(raw).len() > 0,
    ensures
        !has_prefix(spec_clean_citation(raw), "PubMed"@),
        !has_prefix(spec_clean_citation(raw), "PMC"@),
        !has_prefix(spec_clean_citation(raw), "Actions"@),
        !has_prefix(spec_clean_citation(raw), "-"@),
{
    let c = spec_clean_citation(raw);
    lemma_clean_citation_shape(raw);
    reveal_strlit(" ");
    reveal_strlit("PubMed");
    reveal_strlit("PMC");
    reveal_strlit("Actions");
    reveal_strlit("-");
    let kept = kept_citation_lines(lines(raw));
    let k0 = kept[0];
    lemma_join_head(kept, " "@);
    if has_prefix(c, "PubMed"@) {
        lemma_prefix_within_head(c, k0, "PubMed"@);
    }
    if has_prefix(c, "PMC"@) {
        lemma_prefix_within_head(c, k0, "PMC"@);
    }
    if has_prefix(c, "Actions"@) {
        lemma_prefix_within_head(c, k0, "Actions"@);
    }
    if has_prefix(c, "-"@) {
        lemma_prefix_within_head(c, k0, "-"@);
    }
}

/// A single line that is not noise and is already trimmed is its own
/// cleaned citation.
proof fn lemma_clean_citation_of_line(c: Seq<char>)
    requires
        c.len() > 0,
        forall|i: int| 0 <= i < c.len() ==> #[trigger] c[i] != '\n',
        !citation_noise(c),
        trim(c) == c,
    ensures
        spec_clean_citation(c) == c,
{
    lemma_lines_single(c);
    let one = seq![c];
    assert(one.drop_last() =~= Seq::<Seq<char>>::empty());
    assert(kept_citation_lines(one.drop_last()) =~= Seq::<Seq<char>>::empty());
    assert(one.last() == c);
    assert(kept_citation_lines(one) =~= seq![c]);
    assert(join(seq![c], " "@) == c);
}

/// Cleaning a citation a second time changes nothing, unless the cleaned
/// text itself begins with "Search in" or "Add to": joining the kept lines
/// can form such a beginning from two lines, and a second pass drops it
/// as a noise line.
#[verifier::rlimit(60)]
pub proof fn law_clean_citation_idempotent(raw: Seq<char>)
    requires
        !has_prefix(spec_clean_citation(raw), "Search in"@),
        !has_prefix(spec_clean_citation(raw), "Add to"@),
    ensures
        spec_clean_citation(spec_clean_citation(raw)) == spec_clean_citation(raw),
{
    let c = spec_clean_citation(raw);
    if c.len() == 0 {
        lemma_clean_citation_empty();
        assert(c =~= Seq::<char>::empty());
    } else {
        lemma_clean_citation_shape(raw);
        lemma_clean_citation_no_marker(raw);
        lemma_trim_shape(join(kept_citation_lines(lines(raw)), " "@));
        lemma_clean_citation_of_line(c);
    }
}

/// The empty text cleans to the empty text.
proof fn lemma_clean_citation_empty()
    ensures
        spec_clean_citation(Seq::<char>::empty()) == Seq::<char>::empty(),
{
    let e = Seq::<char>::empty();
    lemma_lines_single(e);
    assert(kept_citation_lines(lines(e)) =~= Seq::<Seq<char>>::empty());
    assert(join(Seq::<Seq<char>>::empty(), " "@) == e);
    assert(trim_start(e) == e);
    assert(trim_end(e) == e);
}

/// The texts of the items whose `flag_key` is the boolean `flag_value`
/// (items without a string `"text"` are skipped).
pub open spec fn labelled_items(items: Seq<JsonValue>, flag_key: Seq<char>, flag_value: bool) -> Seq<
    Seq<char>,
>
    decreases items.len(),
{
    if items.len() == 0 {
        Seq::empty()
    } else {
        let prev = labelled_items(items.drop_last(), flag_key, flag_value);
        let it = items.last();
        let matches = match spec_get(it, flag_key) {
            Some(x) => spec_as_bool(x) == Some(flag_value),
            None => false,
        };
        if matches {
            match get_str(it, "text"@) {
                Some(t) => prev.push(t),
                None => prev,
            }
        } else {
            prev
        }
    }
}

/// The labelled items of the array under `array_key` (none if there is no
/// such array).
pub open spec fn spec_collect_labelled_items(
    data: JsonValue,
    array_key: Seq<char>,
    flag_key: Seq<char>,
    flag_value: bool,
) -> Seq<Seq<char>> {
    match get_array(data, array_key) {
        Some(a) => labelled_items(a, flag_key, flag_value),
        None => Seq::empty(),
    }
}

/// The views of borrowed strings.
pub open spec fn str_ref_views(v: Seq<&str>) -> Seq<Seq<char>> {
    v.map_values(|x: &str| x@)
}

/// Collect text items from an array, keeping those whose boolean field
/// `flag_key` equals `flag_value`.
pub fn collect_labelled_items<'a>(
    data: &'a JsonValue,
    array_key: &str,
    flag_key: &str,
    flag_value: bool,
) -> (r: Vec<&'a str>)
    ensures
        str_ref_views(r@) == spec_collect_labelled_items(*data, array_key@, flag_key@, flag_value),
{
    let mut r: Vec<&'a str> = Vec::new();
    let arr = match data.get(array_key) {
        Some(x) => match x.as_array() {
            Some(a) => a,
            None => {
                assert(str_ref_views(r@) =~= Seq::<Seq<char>>::empty());
                return r;
            },
        },
        None => {
            assert(str_ref_views(r@) =~= Seq::<Seq<char>>::empty());
            return r;
        },
    };
    let mut i: usize = 0;
    assert(arr@.take(0) =~= Seq::<JsonValue>::empty());
    assert(str_ref_views(r@) =~= Seq::<Seq<char>>::empty());
    while i < arr.len()
        invariant
            i <= arr@.len(),
            str_ref_views(r@) == labelled_items(arr@.take(i as int), flag_key@, flag_value),
        decreases arr.len() - i,
    {
        let item = &arr[i];
        assert(arr@.take(i as int + 1).drop_last() =~= arr@.take(i as int));
        assert(arr@.take(i as int + 1).last() == *item);
        let matches = match item.get(flag_key) {
            Some(f) => match f.as_bool() {
                Some(b) => b == flag_value,
                None => false,
            },
            None => false,
        };
        if matches {
            match item.get("text") {
                Some(t) => match t.as_str() {
                    Some(s) => {
                        let ghost before = str_ref_views(r@);
                        r.push(s);
                        assert(str_ref_views(r@) =~= before.push(s@));
                    },
                    None => {},
                },
                None => {},
            }
        }
        i = i + 1;
    }
    assert(arr@.take(arr@.len() as int) =~= arr@);
    r
}


// ---------------------------------------------------------------------------
// Search results
// ---------------------------------------------------------------------------

/// The line block for article `i` of a search result: a numbered bold line
/// with the PMID and title, the authors, and the journal and (truncated to
/// 280 characters) snippet when present, then a blank line.
pub open spec fn search_entry(i: int, a: JsonValue) -> Seq<char> {
    entry_head(i, a) + entry_journal(a) + entry_summary(a) + "\n"@
}

/// The numbered title line and the authors line of a search entry.
pub open spec fn entry_head(i: int, a: JsonValue) -> Seq<char> {
    let pmid = spec_str_or(a, "pmid"@, "?"@);
    let title = spec_str_or(a, "title"@, "Untitled"@);
    let authors = spec_str_or(a, "authors"@, ""@);
    entry_title(i, pmid, title) + "   Authors: "@ + authors + "\n"@
}

/// `{i}. **[{pmid}] {title}**` and a line break.
pub open spec fn entry_title(i: int, pmid: Seq<char>, title: Seq<char>) -> Seq<char> {
    decimal(i as nat) + ". **["@ + pmid + "] "@ + title + "**\n"@
}

/// The journal line of a search entry, when it names a journal.
pub open spec fn entry_journal(a: JsonValue) -> Seq<char> {
    let journal = spec_str_or(a, "journalCitation"@, ""@);
    if journal.len() > 0 {
        "   Journal: "@ + journal + "\n"@
    } else {
        Seq::empty()
    }
}

/// The summary line of a search entry (snippet truncated to 280 characters),
/// when it has a snippet.
pub open spec fn entry_summary(a: JsonValue) -> Seq<char> {
    let snippet = spec_str_or(a, "snippet"@, ""@);
    if snippet.len() > 0 {
        "   Summary: "@ + spec_truncate(snippet, 280) + "\n"@
    } else {
        Seq::empty()
    }
}

/// The total number of results reported (0 when absent).
pub open spec fn search_total(data: JsonValue) -> u64 {
    match spec_get(data, "totalResults"@) {
        Some(x) => match spec_as_u64(x) {
            Some(n) => n,
            None => 0,
        },
        None => 0,
    }
}

/// The article profiles of a search result (none when absent).
pub open spec fn search_profiles(data: JsonValue) -> Seq<JsonValue> {
    match get_array(data, "articleProfiles"@) {
        Some(a) => a,
        None => Seq::empty(),
    }
}

/// A search response as Markdown: a "no results" line when there are no
/// article profiles, otherwise the result count and one entry per article.
pub open spec fn spec_format_search(data: JsonValue) -> Seq<char> {
    let total = search_total(data);
    let profiles = search_profiles(data);
    if profiles.len() == 0 {
        "No results found. (total indexed: "@ + decimal(total as nat) + ")"@
    } else {
        "Found **"@ + decimal(total as nat) + "** results\n\n"@ + concat(
            Seq::new(profiles.len(), |i: int| search_entry(i, profiles[i])),
        )
    }
}

/// A page of search results begins by reporting the response's
/// `totalResults` (0 when it is absent or not a non-negative integer),
/// whatever the number of profiles on the page.
pub proof fn law_search_reports_total(data: JsonValue, profiles: Seq<JsonValue>)
    requires
        get_array(data, "articleProfiles"@) == Some(profiles),
        profiles.len() > 0,
    ensures
        forall|n: u64|
            spec_get(data, "totalResults"@) == Some(JsonValue::Number(JsonNumber::PosInt(n)))
                ==> #[trigger] has_prefix(
                spec_format_search(data),
                "Found **"@ + decimal(n as nat) + "** results\n\n"@,
            ),
        spec_get(data, "totalResults"@) is None ==> has_prefix(
            spec_format_search(data),
            "Found **"@ + decimal(0) + "** results\n\n"@,
        ),
{
    let head = "Found **"@ + decimal(search_total(data) as nat) + "** results\n\n"@;
    let out = spec_format_search(data);
    assert(out.take(head.len() as int) =~= head);
}

/// A response without article profiles is one line reporting the
/// `totalResults` it indexes (0 when absent or not a non-negative integer).
pub proof fn law_search_without_profiles(data: JsonValue)
    requires
        get_array(data, "articleProfiles"@) is None || get_array(data, "articleProfiles"@)
            == Some(Seq::<JsonValue>::empty()),
    ensures
        forall|n: u64|
            spec_get(data, "totalResults"@) == Some(JsonValue::Number(JsonNumber::PosInt(n)))
                ==> spec_format_search(data) == "No results found. (total indexed: "@
                + #[trigger] decimal(n as nat) + ")"@,
        spec_get(data, "totalResults"@) is None ==> spec_format_search(data)
            == "No results found. (total indexed: "@ + decimal(0) + ")"@,
{
}

/// Whether `s` is empty.
fn str_is_empty(s: &str) -> (b: bool)
    ensures
        b == (s@.len() == 0),
{
    s.unicode_len() == 0
}

/// Appends the entry for article `i` to `out`.
fn push_search_entry(out: &mut String, i: usize, article: &JsonValue)
    ensures
        final(out)@ == old(out)@ + search_entry(i as int, *article),
{
    let pmid = str_or(article, "pmid", "?");
    let title = str_or(article, "title", "Untitled");
    let authors = str_or(article, "authors", "");
    let journal = str_or(article, "journalCitation", "");
    let snippet = str_or(article, "snippet", "");
    let ghost o = out@;
    let mut head = String::new();
    push_decimal(&mut head, i as u64);
    push_str(&mut head, ". **[");
    push_str(&mut head, pmid);
    push_str(&mut head, "] ");
    push_str(&mut head, title);
    push_str(&mut head, "**\n");
    assert(head@ =~= entry_title(i as int, pmid@, title@));
    push_str(&mut head, "   Authors: ");
    push_str(&mut head, authors);
    push_str(&mut head, "\n");
    assert(head@ == entry_head(i as int, *article));
    let mut journal_line = String::new();
    if !str_is_empty(journal) {
        push_str(&mut journal_line, "   Journal: ");
        push_str(&mut journal_line, journal);
        push_str(&mut journal_line, "\n");
    }
    assert(journal_line@ =~= entry_journal(*article));
    let mut summary = String::new();
    if !str_is_empty(snippet) {
        let t = truncate(snippet, 280);
        push_str(&mut summary, "   Summary: ");
        push_str(&mut summary, t.as_str());
        push_str(&mut summary, "\n");
    }
    assert(summary@ =~= entry_summary(*article));
    push_str(out, head.as_str());
    push_str(out, journal_line.as_str());
    push_str(out, summary.as_str());
    push_str(out, "\n");
    assert(out@ =~= o + search_entry(i as int, *article));
}

/// Format a search response into compact Markdown.
///
/// Expected `data` shape: `{ "totalResults", "totalPages", "articleProfiles":
/// [{ "pmid", "title", "authors", "journalCitation", "snippet", ... }] }`.
pub fn format_search(data: &JsonValue) -> (r: String)
    ensures
        r@ == spec_format_search(*data),
{
    let total: u64 = match data.get("totalResults") {
        Some(x) => match x.as_u64() {
            Some(n) => n,
            None => 0,
        },
        None => 0,
    };
    let empty: Vec<JsonValue> = Vec::new();
    let profiles: &Vec<JsonValue> = match data.get("articleProfiles") {
        Some(x) => match x.as_array() {
            Some(a) => a,
            None => &empty,
        },
        None => &empty,
    };
    assert(profiles@ == search_profiles(*data));
    if profiles.len() == 0 {
        let mut out = string_from("No results found. (total indexed: ");
        push_decimal(&mut out, total);
        push_str(&mut out, ")");
        return out;
    }
    let mut out = string_from("Found **");
    push_decimal(&mut out, total);
    push_str(&mut out, "** results\n\n");
    let ghost head = out@;
    let ghost entries = Seq::new(profiles@.len(), |i: int| search_entry(i, profiles@[i]));
    let mut i: usize = 0;
    assert(out@ =~= head + concat(entries.take(0)));
    while i < profiles.len()
        invariant
            i <= profiles@.len(),
            entries == Seq::new(profiles@.len(), |k: int| search_entry(k, profiles@[k])),
            out@ == head + concat(entries.take(i as int)),
        decreases profiles.len() - i,
    {
        push_search_entry(&mut out, i, &profiles[i]);
        assert(entries.take(i as int + 1).drop_last() =~= entries.take(i as int));
        i = i + 1;
    }
    assert(entries.take(profiles@.len() as int) =~= entries);
    out
}


// ---------------------------------------------------------------------------
// Article detail
// ---------------------------------------------------------------------------

/// The title heading and the identification line (PMID, and DOI when present).
pub open spec fn detail_header(data: JsonValue) -> Seq<char> {
    let title = spec_str_or(data, "title"@, "Untitled"@);
    let pmid = spec_str_or(data, "pmid"@, "?"@);
    let doi = spec_str_or(data, "doi"@, ""@);
    "## "@ + title + "\n\n"@ + "**PMID:** "@ + pmid + (if doi.len() > 0 {
        "  |  **DOI:** "@ + doi
    } else {
        Seq::empty()
    }) + "\n"@
}

/// The volume, and the issue in parentheses, of a journal, when present.
pub open spec fn journal_parts(vol: Seq<char>, iss: Seq<char>) -> Seq<Seq<char>> {
    (if vol.len() > 0 {
        seq![vol]
    } else {
        Seq::empty()
    }) + (if iss.len() > 0 {
        seq!["("@ + iss + ")"@]
    } else {
        Seq::empty()
    })
}

/// The journal line for a `journalInfo` object: its title, then the volume
/// and issue after a comma; nothing when it has no title.
pub open spec fn journal_line(ji: JsonValue) -> Seq<char> {
    let jname = spec_str_or(ji, "title"@, ""@);
    let parts = journal_parts(spec_str_or(ji, "volume"@, ""@), spec_str_or(ji, "issue"@, ""@));
    if jname.len() > 0 {
        "**Journal:** "@ + jname + (if parts.len() > 0 {
            ", "@ + join(parts, " "@)
        } else {
            Seq::empty()
        }) + "\n"@
    } else {
        Seq::empty()
    }
}

/// The journal line, when there is journal information, then a blank line.
pub open spec fn detail_journal(data: JsonValue) -> Seq<char> {
    (match spec_get(data, "journalInfo"@) {
        Some(ji) => journal_line(ji),
        None => Seq::empty(),
    }) + "\n"@
}

/// The string `name` of each item that has one.
pub open spec fn named_items(items: Seq<JsonValue>, key: Seq<char>) -> Seq<Seq<char>>
    decreases items.len(),
{
    if items.len() == 0 {
        Seq::empty()
    } else {
        let prev = named_items(items.drop_last(), key);
        match get_str(items.last(), key) {
            Some(n) => prev.push(n),
            None => prev,
        }
    }
}

/// A labelled line listing `items` separated by commas, then a blank line;
/// nothing when there are no items.
pub open spec fn listed(label: Seq<char>, items: Seq<Seq<char>>) -> Seq<char> {
    if items.len() > 0 {
        label + join(items, ", "@) + "\n\n"@
    } else {
        Seq::empty()
    }
}

/// The authors' names, when the article lists any.
pub open spec fn detail_authors(data: JsonValue) -> Seq<char> {
    match get_array(data, "authors"@) {
        Some(a) => listed("**Authors:** "@, named_items(a, "name"@)),
        None => Seq::empty(),
    }
}

/// The string items that are clean publication types.
pub open spec fn clean_types(items: Seq<JsonValue>) -> Seq<Seq<char>>
    decreases items.len(),
{
    if items.len() == 0 {
        Seq::empty()
    } else {
        let prev = clean_types(items.drop_last());
        match spec_as_str(items.last()) {
            Some(t) => if spec_is_clean_pub_type(t) {
                prev.push(t)
            } else {
                prev
            },
            None => prev,
        }
    }
}

/// The clean publication types, when there are any.
pub open spec fn detail_pub_types(data: JsonValue) -> Seq<char> {
    match get_array(data, "publicationTypes"@) {
        Some(a) => listed("**Publication Types:** "@, clean_types(a)),
        None => Seq::empty(),
    }
}

/// The abstract, trimmed, under its heading, when there is one.
pub open spec fn detail_abstract(data: JsonValue) -> Seq<char> {
    let ab = spec_str_or(data, "abstract"@, ""@);
    if ab.len() > 0 {
        "### Abstract\n\n"@ + trim(ab) + "\n\n"@
    } else {
        Seq::empty()
    }
}

/// The non-MeSH keywords, when there are any.
pub open spec fn detail_keywords(data: JsonValue) -> Seq<char> {
    listed(
        "**Keywords:** "@,
        spec_collect_labelled_items(data, "keywords"@, "isMeSH"@, false),
    )
}

/// The MeSH terms as a bulleted list, when there are any.
pub open spec fn detail_mesh(data: JsonValue) -> Seq<char> {
    let mesh = spec_collect_labelled_items(data, "meshTerms"@, "isMeSH"@, true);
    if mesh.len() > 0 {
        "**MeSH Terms:**\n"@ + concat(Seq::new(mesh.len(), |i: int| "- "@ + mesh[i] + "\n"@))
            + "\n"@
    } else {
        Seq::empty()
    }
}

/// The cleaned citation of each reference that has one.
pub open spec fn citations(items: Seq<JsonValue>) -> Seq<Seq<char>>
    decreases items.len(),
{
    if items.len() == 0 {
        Seq::empty()
    } else {
        let prev = citations(items.drop_last());
        match get_str(items.last(), "citation"@) {
            Some(c) => prev.push(spec_clean_citation(c)),
            None => prev,
        }
    }
}

/// `s` without repeats: each text kept at its first occurrence.
pub open spec fn dedup(s: Seq<Seq<char>>) -> Seq<Seq<char>>
    decreases s.len(),
{
    if s.len() == 0 {
        Seq::empty()
    } else {
        let prev = dedup(s.drop_last());
        if prev.contains(s.last()) {
            prev
        } else {
            prev.push(s.last())
        }
    }
}

/// The first `n` of `s` (all of them when there are fewer).
pub open spec fn first_n(s: Seq<Seq<char>>, n: int) -> Seq<Seq<char>> {
    if s.len() <= n {
        s
    } else {
        s.take(n)
    }
}

/// The references a detail lists: distinct cleaned citations, at most 20.
pub open spec fn detail_ref_list(items: Seq<JsonValue>) -> Seq<Seq<char>> {
    first_n(dedup(citations(items)), 20)
}

/// `dedup` keeps no text twice, and keeps every text it was given.
proof fn lemma_dedup(s: Seq<Seq<char>>)
    ensures
        dedup(s).no_duplicates(),
        forall|t: Seq<char>| s.contains(t) <==> dedup(s).contains(t),
    decreases s.len(),
{
    if s.len() > 0 {
        let prev = dedup(s.drop_last());
        lemma_dedup(s.drop_last());
        assert forall|t: Seq<char>| s.contains(t) <==> dedup(s).contains(t) by {
            if s.contains(t) {
                let i = choose|i: int| 0 <= i < s.len() && s[i] == t;
                if i < s.len() - 1 {
                    assert(s.drop_last()[i] == t);
                    assert(s.drop_last().contains(t));
                    assert(prev.contains(t));
                    if !prev.contains(s.last()) {
                        let j = choose|j: int| 0 <= j < prev.len() && prev[j] == t;
                        assert(prev.push(s.last())[j] == t);
                    }
                } else if !prev.contains(s.last()) {
                    assert(prev.push(s.last())[prev.len() as int] == t);
                }
            }
            if dedup(s).contains(t) {
                let j = choose|j: int| 0 <= j < dedup(s).len() && dedup(s)[j] == t;
                if j < prev.len() {
                    assert(prev[j] == t);
                    assert(prev.contains(t));
                    assert(s.drop_last().contains(t));
                    let i = choose|i: int| 0 <= i < s.drop_last().len() && s.drop_last()[i] == t;
                    assert(s[i] == t);
                } else {
                    assert(s[s.len() - 1] == t);
                }
            }
        }
    }
}

/// The references a detail lists are distinct, and there are at most 20 of
/// them; every listed reference is one of the cleaned citations.
pub proof fn law_reference_list_distinct_and_capped(items: Seq<JsonValue>)
    ensures
        detail_ref_list(items).no_duplicates(),
        detail_ref_list(items).len() <= 20,
        forall|t: Seq<char>| detail_ref_list(items).contains(t) ==> citations(items).contains(t),
{
    let d = dedup(citations(items));
    lemma_dedup(citations(items));
    if d.len() > 20 {
        let f = d.take(20);
        assert forall|i: int, j: int| 0 <= i < f.len() && 0 <= j < f.len() && i != j implies f[i]
            != f[j] by {
            assert(f[i] == d[i] && f[j] == d[j]);
        }
        assert forall|t: Seq<char>| f.contains(t) implies citations(items).contains(t) by {
            let i = choose|i: int| 0 <= i < f.len() && f[i] == t;
            assert(d[i] == t);
            assert(d.contains(t));
        }
    }
}

/// The references as a numbered list (from 1), when there are any.
pub open spec fn detail_refs(data: JsonValue) -> Seq<char> {
    match get_array(data, "references"@) {
        Some(a) => {
            let refs = detail_ref_list(a);
            if refs.len() > 0 {
                "### References\n\n"@ + concat(
                    Seq::new(refs.len(), |i: int| decimal((i + 1) as nat) + ". "@ + refs[i] + "\n"@),
                ) + "\n"@
            } else {
                Seq::empty()
            }
        },
        None => Seq::empty(),
    }
}

/// Markdown links for the full-text sources that have a name and a real URL
/// (neither empty nor `#`).
pub open spec fn fulltext_links(items: Seq<JsonValue>) -> Seq<Seq<char>>
    decreases items.len(),
{
    if items.len() == 0 {
        Seq::empty()
    } else {
        let prev = fulltext_links(items.drop_last());
        let it = items.last();
        match (get_str(it, "url"@), get_str(it, "name"@)) {
            (Some(u), Some(n)) => if u == "#"@ || u.len() == 0 {
                prev
            } else {
                prev.push("- ["@ + n + "]("@ + u + ")"@)
            },
            _ => prev,
        }
    }
}

/// The full-text links, one per line, when there are any.
pub open spec fn detail_fulltext(data: JsonValue) -> Seq<char> {
    match get_array(data, "fullTextSources"@) {
        Some(a) => {
            let links = fulltext_links(a);
            if links.len() > 0 {
                "**Full Text:**\n"@ + join(links, "\n"@) + "\n\n"@
            } else {
                Seq::empty()
            }
        },
        None => Seq::empty(),
    }
}

/// The conflict-of-interest statement (truncated to 300 characters), unless it is
/// absent, empty or "None declared.".
pub open spec fn detail_coi(data: JsonValue) -> Seq<char> {
    let coi = spec_str_or(data, "conflictOfInterestStatement"@, ""@);
    if coi.len() > 0 && coi != "None declared."@ {
        "**Conflict of Interest:** "@ + spec_truncate(coi, 300) + "\n"@
    } else {
        Seq::empty()
    }
}

/// An article detail as structured Markdown: the sections in order, with
/// trailing whitespace removed.
pub open spec fn spec_format_detail(data: JsonValue) -> Seq<char> {
    trim_end(
        detail_header(data) + detail_journal(data) + detail_authors(data) + detail_pub_types(data)
            + detail_abstract(data) + detail_keywords(data) + detail_mesh(data) + detail_refs(data)
            + detail_fulltext(data) + detail_coi(data),
    )
}

/// `trim_end` of `a + b` keeps all of `a` when `b` holds a non-whitespace
/// character.
proof fn lemma_trim_end_keeps_front(a: Seq<char>, b: Seq<char>)
    requires
        trim_end(b).len() > 0,
    ensures
        trim_end(a + b) == a + trim_end(b),
    decreases b.len(),
{
    if b.len() == 0 {
    } else if is_ws(b.last()) {
        assert((a + b).drop_last() =~= a + b.drop_last());
        lemma_trim_end_keeps_front(a, b.drop_last());
    } else {
        assert((a + b).last() == b.last());
    }
}

/// A conflict-of-interest statement other than "None declared." ends the
/// article detail: the detail ends with "**Conflict of Interest:** " and the
/// statement truncated to 300 characters (its trailing whitespace trimmed
/// with the rest of the text). An empty or "None declared." statement, or
/// none, adds nothing after the full-text section.
pub proof fn law_detail_conflict_of_interest(data: JsonValue, statement: Seq<char>)
    ensures
        spec_get(data, "conflictOfInterestStatement"@).is_some() && spec_as_str(
            spec_get(data, "conflictOfInterestStatement"@).unwrap(),
        ) == Some(statement) && statement != "None declared."@ && trim_end(
            spec_truncate(statement, 300),
        ).len() > 0 ==> has_suffix(
            spec_format_detail(data),
            "**Conflict of Interest:** "@ + trim_end(spec_truncate(statement, 300)),
        ),
        (spec_str_or(data, "conflictOfInterestStatement"@, ""@).len() == 0 || spec_str_or(
            data,
            "conflictOfInterestStatement"@,
            ""@,
        ) == "None declared."@) ==> spec_format_detail(data) == trim_end(
            detail_header(data) + detail_journal(data) + detail_authors(data) + detail_pub_types(
                data,
            ) + detail_abstract(data) + detail_keywords(data) + detail_mesh(data) + detail_refs(
                data,
            ) + detail_fulltext(data),
        ),
{
    let front = detail_header(data) + detail_journal(data) + detail_authors(data)
        + detail_pub_types(data) + detail_abstract(data) + detail_keywords(data) + detail_mesh(
        data,
    ) + detail_refs(data) + detail_fulltext(data);
    let coi = spec_str_or(data, "conflictOfInterestStatement"@, ""@);
    if coi.len() == 0 || coi == "None declared."@ {
        assert(front + detail_coi(data) =~= front);
    }
    if spec_get(data, "conflictOfInterestStatement"@).is_some() && spec_as_str(
        spec_get(data, "conflictOfInterestStatement"@).unwrap(),
    ) == Some(statement) && statement != "None declared."@ && trim_end(
        spec_truncate(statement, 300),
    ).len() > 0 {
        let t = spec_truncate(statement, 300);
        let marker = "**Conflict of Interest:** "@;
        assert(coi == statement);
        assert(statement.len() > 0) by {
            if statement.len() == 0 {
                assert(t =~= statement);
            }
        }
        assert(detail_coi(data) == marker + t + "\n"@);
        reveal_strlit("\n");
        assert((t + "\n"@).drop_last() =~= t);
        assert(trim_end(t + "\n"@) == trim_end(t));
        lemma_trim_end_keeps_front(marker, t + "\n"@);
        assert(marker + (t + "\n"@) =~= marker + t + "\n"@);
        lemma_trim_end_keeps_front(front, marker + t + "\n"@);
        assert(front + (marker + t + "\n"@) =~= front + detail_coi(data));
        let out = front + marker + trim_end(t);
        assert(front + (marker + trim_end(t)) =~= out);
        assert(out.skip(out.len() - (marker + trim_end(t)).len()) =~= marker + trim_end(t));
    }
}

/// Whether the texts `a` and `b` are equal.
fn str_eq(a: &str, b: &str) -> (r: bool)
    ensures
        r == (a@ == b@),
{
    let av = chars_of(a);
    let bv = chars_of(b);
    chars_eq(av.as_slice(), bv.as_slice())
}

/// The header section.
fn header_section(data: &JsonValue) -> (r: String)
    ensures
        r@ == detail_header(*data),
{
    let title = str_or(data, "title", "Untitled");
    let pmid = str_or(data, "pmid", "?");
    let doi = str_or(data, "doi", "");
    let mut out = string_from("## ");
    push_str(&mut out, title);
    push_str(&mut out, "\n\n");
    push_str(&mut out, "**PMID:** ");
    push_str(&mut out, pmid);
    let ghost mid = out@;
    let mut d = String::new();
    if !str_is_empty(doi) {
        push_str(&mut d, "  |  **DOI:** ");
        push_str(&mut d, doi);
    }
    push_str(&mut out, d.as_str());
    push_str(&mut out, "\n");
    assert(out@ =~= detail_header(*data));
    out
}

/// The journal section.
fn journal_section(data: &JsonValue) -> (r: String)
    ensures
        r@ == detail_journal(*data),
{
    let mut out = String::new();
    match data.get("journalInfo") {
        Some(ji) => {
            let jname = str_or(ji, "title", "");
            let vol = str_or(ji, "volume", "");
            let iss = str_or(ji, "issue", "");
            if !str_is_empty(jname) {
                let mut parts: Vec<String> = Vec::new();
                if !str_is_empty(vol) {
                    parts.push(string_from(vol));
                }
                if !str_is_empty(iss) {
                    let mut p = string_from("(");
                    push_str(&mut p, iss);
                    push_str(&mut p, ")");
                    parts.push(p);
                }
                assert(str_seq_views(parts@) =~= journal_parts(vol@, iss@));
                push_str(&mut out, "**Journal:** ");
                push_str(&mut out, jname);
                let mut tail = String::new();
                if parts.len() > 0 {
                    push_str(&mut tail, ", ");
                    push_joined(&mut tail, &parts, " ");
                }
                push_str(&mut out, tail.as_str());
                push_str(&mut out, "\n");
                assert(out@ =~= journal_line(*ji));
            } else {
                assert(out@ =~= journal_line(*ji));
            }
        },
        None => {},
    }
    let ghost mid = out@;
    push_str(&mut out, "\n");
    out
}

/// Appends the labelled list of `items` (see `listed`) to a new string.
fn listed_section(label: &str, items: &Vec<String>) -> (r: String)
    ensures
        r@ == listed(label@, str_seq_views(items@)),
{
    let mut out = String::new();
    if items.len() > 0 {
        push_str(&mut out, label);
        push_joined(&mut out, items, ", ");
        push_str(&mut out, "\n\n");
    }
    out
}

/// The `key` strings of the items that have one.
fn named(items: &Vec<JsonValue>, key: &str) -> (r: Vec<String>)
    ensures
        str_seq_views(r@) == named_items(items@, key@),
{
    let mut r: Vec<String> = Vec::new();
    let mut i: usize = 0;
    assert(items@.take(0) =~= Seq::<JsonValue>::empty());
    assert(str_seq_views(r@) =~= Seq::<Seq<char>>::empty());
    while i < items.len()
        invariant
            i <= items@.len(),
            str_seq_views(r@) == named_items(items@.take(i as int), key@),
        decreases items.len() - i,
    {
        assert(items@.take(i as int + 1).drop_last() =~= items@.take(i as int));
        assert(items@.take(i as int + 1).last() == items@[i as int]);
        match items[i].get(key) {
            Some(x) => match x.as_str() {
                Some(n) => {
                    let ghost before = str_seq_views(r@);
                    r.push(string_from(n));
                    assert(str_seq_views(r@) =~= before.push(n@));
                },
                None => {},
            },
            None => {},
        }
        i = i + 1;
    }
    assert(items@.take(items@.len() as int) =~= items@);
    r
}

/// The authors section.
fn authors_section(data: &JsonValue) -> (r: String)
    ensures
        r@ == detail_authors(*data),
{
    match data.get("authors") {
        Some(x) => match x.as_array() {
            Some(a) => {
                let names = named(a, "name");
                listed_section("**Authors:** ", &names)
            },
            None => String::new(),
        },
        None => String::new(),
    }
}

/// The publication types section.
fn pub_types_section(data: &JsonValue) -> (r: String)
    ensures
        r@ == detail_pub_types(*data),
{
    match data.get("publicationTypes") {
        Some(x) => match x.as_array() {
            Some(a) => {
                let mut cleaned: Vec<String> = Vec::new();
                let mut i: usize = 0;
                assert(a@.take(0) =~= Seq::<JsonValue>::empty());
                assert(str_seq_views(cleaned@) =~= Seq::<Seq<char>>::empty());
                while i < a.len()
                    invariant
                        i <= a@.len(),
                        str_seq_views(cleaned@) == clean_types(a@.take(i as int)),
                    decreases a.len() - i,
                {
                    assert(a@.take(i as int + 1).drop_last() =~= a@.take(i as int));
                    assert(a@.take(i as int + 1).last() == a@[i as int]);
                    match a[i].as_str() {
                        Some(t) => {
                            if is_clean_pub_type(t) {
                                let ghost before = str_seq_views(cleaned@);
                                cleaned.push(string_from(t));
                                assert(str_seq_views(cleaned@) =~= before.push(t@));
                            }
                        },
                        None => {},
                    }
                    i = i + 1;
                }
                assert(a@.take(a@.len() as int) =~= a@);
                listed_section("**Publication Types:** ", &cleaned)
            },
            None => String::new(),
        },
        None => String::new(),
    }
}

/// The abstract section.
fn abstract_section(data: &JsonValue) -> (r: String)
    ensures
        r@ == detail_abstract(*data),
{
    let ab = str_or(data, "abstract", "");
    let mut out = String::new();
    if !str_is_empty(ab) {
        push_str(&mut out, "### Abstract\n\n");
        push_str(&mut out, crate::text::trim_str(ab));
        push_str(&mut out, "\n\n");
    }
    out
}

/// Owned copies of borrowed strings.
fn owned(v: &Vec<&str>) -> (r: Vec<String>)
    ensures
        str_seq_views(r@) == str_ref_views(v@),
{
    let mut r: Vec<String> = Vec::new();
    let mut i: usize = 0;
    while i < v.len()
        invariant
            i <= v@.len(),
            str_seq_views(r@) == str_ref_views(v@).take(i as int),
        decreases v.len() - i,
    {
        let ghost before = str_seq_views(r@);
        r.push(string_from(v[i]));
        assert(str_seq_views(r@) =~= before.push(v@[i as int]@));
        i = i + 1;
        assert(str_ref_views(v@).take(i as int) =~= str_ref_views(v@).take(i as int - 1).push(
            v@[i - 1]@,
        ));
    }
    assert(str_ref_views(v@).take(v@.len() as int) =~= str_ref_views(v@));
    r
}

/// The keywords section.
fn keywords_section(data: &JsonValue) -> (r: String)
    ensures
        r@ == detail_keywords(*data),
{
    let kw = collect_labelled_items(data, "keywords", "isMeSH", false);
    listed_section("**Keywords:** ", &owned(&kw))
}

/// The MeSH terms section.
fn mesh_section(data: &JsonValue) -> (r: String)
    ensures
        r@ == detail_mesh(*data),
{
    let mesh = collect_labelled_items(data, "meshTerms", "isMeSH", true);
    let mut out = String::new();
    if mesh.len() > 0 {
        let ghost mv = str_ref_views(mesh@);
        let ghost items = Seq::new(mv.len(), |i: int| "- "@ + mv[i] + "\n"@);
        push_str(&mut out, "**MeSH Terms:**\n");
        let ghost head = out@;
        let mut i: usize = 0;
        assert(out@ =~= head + concat(items.take(0)));
        while i < mesh.len()
            invariant
                i <= mesh@.len(),
                mv == str_ref_views(mesh@),
                items == Seq::new(mv.len(), |k: int| "- "@ + mv[k] + "\n"@),
                out@ == head + concat(items.take(i as int)),
            decreases mesh.len() - i,
        {
            let ghost before = out@;
            push_str(&mut out, "- ");
            push_str(&mut out, mesh[i]);
            push_str(&mut out, "\n");
            assert(mv[i as int] == mesh@[i as int]@);
            assert(items.take(i as int + 1).drop_last() =~= items.take(i as int));
            assert(out@ =~= before + items[i as int]);
            i = i + 1;
        }
        assert(items.take(mesh@.len() as int) =~= items);
        push_str(&mut out, "\n");
    }
    out
}

/// Whether `items` holds the text `t`.
fn holds_text(items: &Vec<String>, t: &String) -> (b: bool)
    ensures
        b == str_seq_views(items@).contains(t@),
{
    let tv = chars_of(t.as_str());
    let mut i: usize = 0;
    while i < items.len()
        invariant
            i <= items@.len(),
            tv@ == t@,
            forall|k: int| 0 <= k < i ==> str_seq_views(items@)[k] != t@,
        decreases items.len() - i,
    {
        let iv = chars_of(items[i].as_str());
        if chars_eq(iv.as_slice(), tv.as_slice()) {
            assert(str_seq_views(items@)[i as int] == t@);
            return true;
        }
        i = i + 1;
    }
    false
}

/// The references section.
fn refs_section(data: &JsonValue) -> (r: String)
    ensures
        r@ == detail_refs(*data),
{
    match data.get("references") {
        Some(x) => match x.as_array() {
            Some(a) => {
                // Distinct cleaned citations, in order. The texts seen so far
                // are the list itself: vstd models no hashing of strings, so a
                // `HashSet` of them would prove nothing.
                let mut refs: Vec<String> = Vec::new();
                let mut i: usize = 0;
                assert(a@.take(0) =~= Seq::<JsonValue>::empty());
                assert(str_seq_views(refs@) =~= Seq::<Seq<char>>::empty());
                while i < a.len()
                    invariant
                        i <= a@.len(),
                        str_seq_views(refs@) == dedup(citations(a@.take(i as int))),
                    decreases a.len() - i,
                {
                    let ghost prev = citations(a@.take(i as int));
                    assert(a@.take(i as int + 1).drop_last() =~= a@.take(i as int));
                    assert(a@.take(i as int + 1).last() == a@[i as int]);
                    match a[i].get("citation") {
                        Some(c) => match c.as_str() {
                            Some(cs) => {
                                let citation = clean_citation(cs);
                                assert(get_str(a@[i as int], "citation"@) == Some(cs@));
                                assert(citations(a@.take(i as int + 1)) == prev.push(
                                    citation@,
                                ));
                                assert(prev.push(citation@).drop_last() =~= prev);
                                if !holds_text(&refs, &citation) {
                                    let ghost before = str_seq_views(refs@);
                                    refs.push(citation);
                                    assert(str_seq_views(refs@) =~= before.push(citation@));
                                }
                            },
                            None => {
                                assert(get_str(a@[i as int], "citation"@) is None);
                                assert(citations(a@.take(i as int + 1)) == prev);
                            },
                        },
                        None => {
                            assert(get_str(a@[i as int], "citation"@) is None);
                            assert(citations(a@.take(i as int + 1)) == prev);
                        },
                    }
                    i = i + 1;
                }
                assert(a@.take(a@.len() as int) =~= a@);
                // At most 20 of them.
                let mut listed: Vec<String> = Vec::new();
                let mut k: usize = 0;
                while k < refs.len() && k < 20
                    invariant
                        k <= refs@.len(),
                        k <= 20,
                        str_seq_views(listed@) == str_seq_views(refs@).take(k as int),
                    decreases refs.len() - k,
                {
                    let ghost before = str_seq_views(listed@);
                    listed.push(refs[k].clone());
                    assert(str_seq_views(listed@) =~= before.push(refs@[k as int]@));
                    k = k + 1;
                    assert(str_seq_views(refs@).take(k as int) =~= str_seq_views(refs@).take(
                        k as int - 1,
                    ).push(refs@[k - 1]@));
                }
                let ghost lv = str_seq_views(listed@);
                assert(lv =~= detail_ref_list(a@));
                let mut out = String::new();
                if listed.len() > 0 {
                    let ghost items = Seq::new(
                        lv.len(),
                        |i: int| decimal((i + 1) as nat) + ". "@ + lv[i] + "\n"@,
                    );
                    push_str(&mut out, "### References\n\n");
                    let ghost head = out@;
                    let mut j: usize = 0;
                    assert(out@ =~= head + concat(items.take(0)));
                    while j < listed.len()
                        invariant
                            j <= listed@.len() <= 20,
                            lv == str_seq_views(listed@),
                            items == Seq::new(
                                lv.len(),
                                |i: int| decimal((i + 1) as nat) + ". "@ + lv[i] + "\n"@,
                            ),
                            out@ == head + concat(items.take(j as int)),
                        decreases listed.len() - j,
                    {
                        let ghost before = out@;
                        push_decimal(&mut out, (j + 1) as u64);
                        push_str(&mut out, ". ");
                        push_str(&mut out, listed[j].as_str());
                        push_str(&mut out, "\n");
                        assert(lv[j as int] == listed@[j as int]@);
                        assert(items.take(j as int + 1).drop_last() =~= items.take(j as int));
                        assert(out@ =~= before + items[j as int]);
                        j = j + 1;
                    }
                    assert(items.take(listed@.len() as int) =~= items);
                    push_str(&mut out, "\n");
                }
                out
            },
            None => String::new(),
        },
        None => String::new(),
    }
}

/// The full-text section.
fn fulltext_section(data: &JsonValue) -> (r: String)
    ensures
        r@ == detail_fulltext(*data),
{
    match data.get("fullTextSources") {
        Some(x) => match x.as_array() {
            Some(a) => {
                let mut links: Vec<String> = Vec::new();
                let mut i: usize = 0;
                assert(a@.take(0) =~= Seq::<JsonValue>::empty());
                assert(str_seq_views(links@) =~= Seq::<Seq<char>>::empty());
                while i < a.len()
                    invariant
                        i <= a@.len(),
                        str_seq_views(links@) == fulltext_links(a@.take(i as int)),
                    decreases a.len() - i,
                {
                    assert(a@.take(i as int + 1).drop_last() =~= a@.take(i as int));
                    assert(a@.take(i as int + 1).last() == a@[i as int]);
                    let url = match a[i].get("url") {
                        Some(u) => u.as_str(),
                        None => None,
                    };
                    let name = match a[i].get("name") {
                        Some(n) => n.as_str(),
                        None => None,
                    };
                    match (url, name) {
                        (Some(u), Some(n)) => {
                            if !(str_eq(u, "#") || str_is_empty(u)) {
                                let mut l = string_from("- [");
                                push_str(&mut l, n);
                                push_str(&mut l, "](");
                                push_str(&mut l, u);
                                push_str(&mut l, ")");
                                let ghost before = str_seq_views(links@);
                                links.push(l);
                                assert(str_seq_views(links@) =~= before.push(l@));
                            }
                        },
                        _ => {},
                    }
                    i = i + 1;
                }
                assert(a@.take(a@.len() as int) =~= a@);
                let mut out = String::new();
                if links.len() > 0 {
                    push_str(&mut out, "**Full Text:**\n");
                    push_joined(&mut out, &links, "\n");
                    push_str(&mut out, "\n\n");
                }
                out
            },
            None => String::new(),
        },
        None => String::new(),
    }
}

/// The conflict-of-interest section.
fn coi_section(data: &JsonValue) -> (r: String)
    ensures
        r@ == detail_coi(*data),
{
    let coi = str_or(data, "conflictOfInterestStatement", "");
    let mut out = String::new();
    if !str_is_empty(coi) && !str_eq(coi, "None declared.") {
        push_str(&mut out, "**Conflict of Interest:** ");
        push_str(&mut out, truncate(coi, 300).as_str());
        push_str(&mut out, "\n");
    }
    out
}

/// Format an article detail response into structured Markdown.
///
/// Expected `data` shape: `{ "pmid", "doi", "title", "authors": [{ "name", ...
/// }], "abstract", "keywords": [{ "text", "isMeSH" }], "meshTerms": [...],
/// "publicationTypes": [string], "references": [{ "citation", ... }],
/// "fullTextSources": [{ "name", "url", ... }], "journalInfo": { "title",
/// "volume", "issue" }, "conflictOfInterestStatement" }`.
pub fn format_detail(data: &JsonValue) -> (r: String)
    ensures
        r@ == spec_format_detail(*data),
{
    let mut out = header_section(data);
    push_str(&mut out, journal_section(data).as_str());
    push_str(&mut out, authors_section(data).as_str());
    push_str(&mut out, pub_types_section(data).as_str());
    push_str(&mut out, abstract_section(data).as_str());
    push_str(&mut out, keywords_section(data).as_str());
    push_str(&mut out, mesh_section(data).as_str());
    push_str(&mut out, refs_section(data).as_str());
    push_str(&mut out, fulltext_section(data).as_str());
    push_str(&mut out, coi_section(data).as_str());
    let v = chars_of(out.as_str());
    let t = trim_end_vec(v.as_slice());
    string_from_chars(t.as_slice())
}

} // verus!
