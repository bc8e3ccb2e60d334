//! The line matcher: splitting a text into lines and selecting the lines
//! that contain a query, case-sensitively or case-insensitively.

use vstd::prelude::*;
use vstd::string::StrSliceExecFns;
use vstd::utf8::is_ascii_chars;

verus! {

// ---------------------------------------------------------------------------
// Substring containment
// ---------------------------------------------------------------------------

/// The needle occurs in the haystack starting at position `i`.
pub open spec fn is_match_at(hay: Seq<char>, needle: Seq<char>, i: int) -> bool {
    &&& 0 <= i
    &&& i + needle.len() <= hay.len()
    &&& hay.subrange(i, i + needle.len() as int) == needle
}

/// The needle occurs somewhere in the haystack as a contiguous substring.
/// An empty needle occurs in every haystack, at position 0.
pub open spec fn contains_seq(hay: Seq<char>, needle: Seq<char>) -> bool {
    exists|i: int| is_match_at(hay, needle, i)
}

/// Whether the needle occurs in the haystack starting at position `i`.
pub(crate) fn match_at(hay: &str, needle: &str, i: usize) -> (b: bool)
    requires
        i + needle@.len() <= hay@.len(),
    ensures
        b == is_match_at(hay@, needle@, i as int),
{
    let h = hay.unicode_len();
    let n = needle.unicode_len();
    let mut k: usize = 0;
    while k < n
        invariant
            0 <= k <= n,
            h == hay@.len(),
            n == needle@.len(),
            i + n <= h,
            forall|j: int| 0 <= j < k ==> hay@[i + j] == needle@[j],
        decreases n - k,
    {
        if hay.get_char(i + k) != needle.get_char(k) {
            proof {
                assert(hay@.subrange(i as int, i + n) != needle@) by {
                    assert(hay@.subrange(i as int, i + n)[k as int] != needle@[k as int]);
                }
            }
            return false;
        }
        k += 1;
    }
    proof {
        assert(hay@.subrange(i as int, i + n) =~= needle@);
    }
    true
}

/// Whether `needle` occurs anywhere in `hay` as a contiguous substring.
/// An empty needle is found in every haystack.
pub fn contains_substring(hay: &str, needle: &str) -> (b: bool)
    ensures
        b == contains_seq(hay@, needle@),
{
    let h = hay.unicode_len();
    let n = needle.unicode_len();
    if n > h {
        proof {
            assert(forall|i: int| !is_match_at(hay@, needle@, i));
        }
        return false;
    }
    if n == 0 {
        proof {
            assert(hay@.subrange(0, 0) =~= needle@);
            assert(is_match_at(hay@, needle@, 0));
        }
        return true;
    }
    let mut i: usize = 0;
    loop
        invariant
            0 <= i <= h - n + 1,
            1 <= n,
            h == hay@.len(),
            n == needle@.len(),
            n <= h,
            forall|j: int| 0 <= j < i ==> !is_match_at(hay@, needle@, j),
        decreases h - n - i + 1,
    {
        if i > h - n {
            proof {
                assert(forall|j: int| i <= j ==> !is_match_at(hay@, needle@, j));
            }
            return false;
        }
        if match_at(hay, needle, i) {
            return true;
        }
        i += 1;
    }
}

// ---------------------------------------------------------------------------
// Splitting a text into lines
// ---------------------------------------------------------------------------

/// A line with a trailing carriage return removed, so that texts with
/// CRLF line endings yield the same lines as texts with LF endings.
pub open spec fn strip_cr(l: Seq<char>) -> Seq<char> {
    if l.len() > 0 && l.last() == '\r' {
        l.drop_last()
    } else {
        l
    }
}

/// The index of the first newline character of `t`, or `t.len()` when
/// `t` holds none.
pub open spec fn first_nl(t: Seq<char>) -> int
    decreases t.len(),
{
    if t.len() == 0 {
        0
    } else if t[0] == '\n' {
        0
    } else {
        1 + first_nl(t.drop_first())
    }
}

/// The first newline of a text lies between position 0 and its length.
pub proof fn lemma_first_nl_bounds(t: Seq<char>)
    ensures
        0 <= first_nl(t) <= t.len(),
    decreases t.len(),
{
    if t.len() == 0 {
    } else if t[0] == '\n' {
    } else {
        lemma_first_nl_bounds(t.drop_first());
    }
}

/// The lines of a text: the segments between newline characters, each with
/// a carriage return that stood before the newline removed.  A final
/// segment without a newline keeps a trailing carriage return.  A trailing
/// newline does not open a final empty line, and the empty text has no
/// lines.
pub open spec fn lines_of(t: Seq<char>) -> Seq<Seq<char>>
    decreases t.len(),
{
    if t.len() == 0 {
        Seq::empty()
    } else {
        let j = first_nl(t);
        if j == t.len() {
            seq![t]
        } else {
            proof {
                lemma_first_nl_bounds(t);
            }
            seq![strip_cr(t.take(j))] + lines_of(t.skip(j + 1))
        }
    }
}

/// `first_nl(t)` is the unique position `j` with no newline before it that
/// is either a newline or the end of the text.
proof fn lemma_first_nl_is(t: Seq<char>, j: int)
    requires
        0 <= j <= t.len(),
        forall|k: int| 0 <= k < j ==> t[k] != '\n',
        j == t.len() || t[j] == '\n',
    ensures
        first_nl(t) == j,
    decreases t.len(),
{
    if t.len() == 0 {
    } else if t[0] == '\n' {
    } else {
        let d = t.drop_first();
        assert(forall|k: int| 0 <= k < j - 1 ==> d[k] != '\n');
        lemma_first_nl_is(d, j - 1);
    }
}

/// The lines of a text, in top-to-bottom order.
pub fn split_lines(contents: &str) -> (r: Vec<String>)
    ensures
        r.deep_view() == lines_of(contents@),
{
    let len = contents.unicode_len();
    let mut r: Vec<String> = Vec::new();
    let mut pos: usize = 0;
    proof {
        assert(contents@.skip(0) =~= contents@);
        assert(r.deep_view() + lines_of(contents@) =~= lines_of(contents@));
    }
    while pos < len
        invariant
            0 <= pos <= len,
            len == contents@.len(),
            lines_of(contents@) == r.deep_view() + lines_of(contents@.skip(pos as int)),
        decreases len - pos,
    {
        let ghost rest = contents@.skip(pos as int);
        // Find the next newline at or after `pos`.
        let mut j: usize = pos;
        while j < len && contents.get_char(j) != '\n'
            invariant
                pos <= j <= len,
                len == contents@.len(),
                forall|k: int| pos <= k < j ==> contents@[k] != '\n',
            decreases len - j,
        {
            j += 1;
        }
        proof {
            assert(forall|k: int| 0 <= k < j - pos ==> rest[k] != '\n');
            lemma_first_nl_is(rest, j - pos);
        }
        // Strip one carriage return standing right before the newline.
        let mut line_end = j;
        if j < len && line_end > pos && contents.get_char(line_end - 1) == '\r' {
            line_end -= 1;
        }
        let line = contents.substring_char(pos, line_end);
        proof {
            assert(rest.take(j - pos) =~= contents@.subrange(pos as int, j as int));
            if j == len {
                assert(rest.take(j - pos) =~= rest);
                assert(line@ =~= rest);
                assert(lines_of(rest) == seq![rest]);
            } else {
                assert(line@ =~= strip_cr(rest.take(j - pos)));
                assert(rest.skip(j - pos + 1) =~= contents@.skip(j + 1));
            }
        }
        let ghost prev = r.deep_view();
        r.push(line.to_owned());
        if j < len {
            pos = j + 1;
        } else {
            pos = len;
        }
        proof {
            assert(r.deep_view() =~= prev.push(line@));
            if pos == len {
                assert(contents@.skip(len as int) =~= Seq::<char>::empty());
            }
            assert(prev + lines_of(rest) =~= prev.push(line@) + lines_of(
                contents@.skip(pos as int),
            ));
        }
    }
    proof {
        assert(contents@.skip(len as int) =~= Seq::<char>::empty());
        assert(r.deep_view() + lines_of(contents@.skip(len as int)) =~= r.deep_view());
    }
    r
}

// ---------------------------------------------------------------------------
// Case-sensitive search
// ---------------------------------------------------------------------------

/// The subsequence of `lines` whose members contain `q`, in order,
/// duplicates preserved.
pub open spec fn matching_lines(q: Seq<char>, lines: Seq<Seq<char>>) -> Seq<Seq<char>>
    decreases lines.len(),
{
    if lines.len() == 0 {
        Seq::empty()
    } else {
        matching_lines(q, lines.drop_last()) + if contains_seq(lines.last(), q) {
            seq![lines.last()]
        } else {
            Seq::empty()
        }
    }
}

/// What `search` returns: the lines of `t` that contain `q`.
pub open spec fn search_spec(q: Seq<char>, t: Seq<char>) -> Seq<Seq<char>> {
    matching_lines(q, lines_of(t))
}

/// Appending one line to a line sequence extends its matching lines by that
/// line when it contains the query, and leaves them unchanged otherwise.
proof fn lemma_matching_lines_step(q: Seq<char>, lines: Seq<Seq<char>>, i: int)
    requires
        0 <= i < lines.len(),
    ensures
        matching_lines(q, lines.take(i + 1)) == matching_lines(q, lines.take(i))
            + if contains_seq(lines[i], q) {
            seq![lines[i]]
        } else {
            Seq::<Seq<char>>::empty()
        },
{
    let taken = lines.take(i + 1);
    assert(taken.drop_last() =~= lines.take(i));
    assert(taken.last() == lines[i]);
}

/// The lines of `contents` that contain `query` as a contiguous substring,
/// in top-to-bottom order, duplicates preserved.  An empty query matches
/// every line.
pub fn search(query: &str, contents: &str) -> (r: Vec<String>)
    ensures
        r.deep_view() == search_spec(query@, contents@),
{
    let lines = split_lines(contents);
    let mut r: Vec<String> = Vec::new();
    let ghost all = lines.deep_view();
    let n = lines.len();
    let mut i: usize = 0;
    proof {
        assert(all.take(0) =~= Seq::<Seq<char>>::empty());
    }
    while i < n
        invariant
            0 <= i <= n,
            n == lines@.len(),
            all == lines.deep_view(),
            all == lines_of(contents@),
            r.deep_view() == matching_lines(query@, all.take(i as int)),
        decreases n - i,
    {
        let ghost prev = r.deep_view();
        if contains_substring(lines[i].as_str(), query) {
            r.push(lines[i].clone());
            proof {
                assert(r.deep_view() =~= prev.push(all[i as int]));
                assert(prev.push(all[i as int]) =~= prev + seq![all[i as int]]);
            }
        }
        proof {
            lemma_matching_lines_step(query@, all, i as int);
            assert(prev + Seq::<Seq<char>>::empty() =~= prev);
        }
        i += 1;
    }
    proof {
        assert(all.take(n as int) =~= all);
    }
    r
}

/// `matching_lines` is the filter of the line sequence by substring
/// containment.
proof fn lemma_matching_lines_is_filter(q: Seq<char>, lines: Seq<Seq<char>>)
    ensures
        matching_lines(q, lines) == lines.filter(|l: Seq<char>| contains_seq(l, q)),
    decreases lines.len(),
{
    reveal(Seq::filter);
    if lines.len() == 0 {
        assert(matching_lines(q, lines) =~= lines.filter(|l: Seq<char>| contains_seq(l, q)));
    } else {
        lemma_matching_lines_is_filter(q, lines.drop_last());
        assert(matching_lines(q, lines) =~= lines.filter(|l: Seq<char>| contains_seq(l, q)));
    }
}

/// `search` selects exactly the lines of the text that contain the query:
/// its result is the lines filtered by substring containment, so it holds
/// only matching lines, in original order, and every matching line.
pub proof fn lemma_search_exact(q: Seq<char>, t: Seq<char>)
    ensures
        search_spec(q, t) == lines_of(t).filter(|l: Seq<char>| contains_seq(l, q)),
        forall|i: int|
            0 <= i < search_spec(q, t).len() ==> contains_seq(#[trigger] search_spec(q, t)[i], q),
        forall|i: int|
            0 <= i < lines_of(t).len() && contains_seq(#[trigger] lines_of(t)[i], q)
                ==> search_spec(q, t).contains(lines_of(t)[i]),
{
    lemma_matching_lines_is_filter(q, lines_of(t));
    let pred = |l: Seq<char>| contains_seq(l, q);
    let lines = lines_of(t);
    let f = lines.filter(pred);
    assert forall|i: int| 0 <= i < f.len() implies contains_seq(#[trigger] f[i], q) by {
        lines.lemma_filter_pred(pred, i);
    }
    assert forall|i: int|
        0 <= i < lines.len() && contains_seq(#[trigger] lines[i], q) implies f.contains(
        lines[i],
    ) by {
        lines.lemma_filter_contains(pred, i);
    }
}

// ---------------------------------------------------------------------------
// Case-insensitive search
// ---------------------------------------------------------------------------

/// What `str::to_lowercase` returns for a given character sequence.
pub uninterp spec fn lower_of(s: Seq<char>) -> Seq<char>;

/// An ASCII uppercase letter mapped to its lowercase counterpart; any other
/// character unchanged.
pub open spec fn to_lower_char(c: char) -> char {
    if 'A' <= c && c <= 'Z' {
        ((c as u8) + 32) as char
    } else {
        c
    }
}

/// A character sequence lowercased characterwise by `to_lower_char`.
pub open spec fn ascii_lower_of(s: Seq<char>) -> Seq<char> {
    s.map_values(|c: char| to_lower_char(c))
}

/// Relies on `str::to_lowercase`: the result is a function of the characters
/// alone; the empty string stays empty; and ASCII input is lowercased
/// characterwise, `'A'..='Z'` mapping to `'a'..='z'`, all else unchanged.
#[verifier::external_body]
fn lowercase(s: &str) -> (r: String)
    ensures
        r@ == lower_of(s@),
        s@.len() == 0 ==> r@.len() == 0,
        is_ascii_chars(s@) ==> r@ == ascii_lower_of(s@),
{
    s.to_lowercase()
}

/// The subsequence of `lines` whose members contain `q` once both sides are
/// lowercased, in order, duplicates preserved.
pub open spec fn ci_matching_lines(q: Seq<char>, lines: Seq<Seq<char>>) -> Seq<Seq<char>>
    decreases lines.len(),
{
    if lines.len() == 0 {
        Seq::empty()
    } else {
        ci_matching_lines(q, lines.drop_last()) + if contains_seq(
            lower_of(lines.last()),
            lower_of(q),
        ) {
            seq![lines.last()]
        } else {
            Seq::empty()
        }
    }
}

/// What `search_case_insensitive` returns: the lines of `t` that contain `q`
/// up to lowercasing.
pub open spec fn search_ci_spec(q: Seq<char>, t: Seq<char>) -> Seq<Seq<char>> {
    ci_matching_lines(q, lines_of(t))
}

/// The step lemma for `ci_matching_lines`, mirroring
/// `lemma_matching_lines_step`.
proof fn lemma_ci_matching_lines_step(q: Seq<char>, lines: Seq<Seq<char>>, i: int)
    requires
        0 <= i < lines.len(),
    ensures
        ci_matching_lines(q, lines.take(i + 1)) == ci_matching_lines(q, lines.take(i))
            + if contains_seq(lower_of(lines[i]), lower_of(q)) {
            seq![lines[i]]
        } else {
            Seq::<Seq<char>>::empty()
        },
{
    let taken = lines.take(i + 1);
    assert(taken.drop_last() =~= lines.take(i));
    assert(taken.last() == lines[i]);
}

/// Every line of an ASCII text is itself ASCII.
pub proof fn lemma_lines_of_ascii(t: Seq<char>)
    requires
        is_ascii_chars(t),
    ensures
        forall|i: int|
            0 <= i < lines_of(t).len() ==> is_ascii_chars(#[trigger] lines_of(t)[i]),
    decreases t.len(),
{
    if t.len() == 0 {
    } else {
        let j = first_nl(t);
        lemma_first_nl_bounds(t);
        if j == t.len() {
            assert(lines_of(t) == seq![t]);
        } else {
            let head = strip_cr(t.take(j));
            let rest = t.skip(j + 1);
            assert forall|k: int| 0 <= k < head.len() implies '\0' <= #[trigger] head[k]
                <= '\u{7f}' by {
                assert(head[k] == t[k]);
            }
            assert forall|k: int| 0 <= k < rest.len() implies '\0' <= #[trigger] rest[k]
                <= '\u{7f}' by {
                assert(rest[k] == t[k + j + 1]);
            }
            lemma_lines_of_ascii(rest);
            assert forall|i: int| 0 <= i < lines_of(t).len() implies is_ascii_chars(
                #[trigger] lines_of(t)[i],
            ) by {
                if i == 0 {
                    assert(lines_of(t)[0] == head);
                } else {
                    assert(lines_of(t)[i] == lines_of(rest)[i - 1]);
                }
            }
        }
    }
}

/// Characterwise lowercasing preserves substring containment: where the
/// query occurs in a line, its lowercase form occurs in the lowercase line
/// at the same position.
pub proof fn lemma_ascii_lower_preserves_match(l: Seq<char>, q: Seq<char>)
    requires
        contains_seq(l, q),
    ensures
        contains_seq(ascii_lower_of(l), ascii_lower_of(q)),
{
    let i = choose|i: int| is_match_at(l, q, i);
    assert forall|k: int| 0 <= k < q.len() implies ascii_lower_of(l)[i + k] == ascii_lower_of(
        q,
    )[k] by {
        assert(l.subrange(i, i + q.len() as int)[k] == q[k]);
        assert(l[i + k] == q[k]);
    }
    assert(ascii_lower_of(l).subrange(i, i + q.len() as int) =~= ascii_lower_of(q));
    assert(is_match_at(ascii_lower_of(l), ascii_lower_of(q), i));
}

/// Where, line by line, an exact match implies a lowercased match, the
/// case-insensitive selection holds at least as many lines as the exact one.
pub proof fn lemma_ci_selects_at_least(q: Seq<char>, lines: Seq<Seq<char>>)
    requires
        forall|i: int|
            0 <= i < lines.len() && contains_seq(#[trigger] lines[i], q) ==> contains_seq(
                lower_of(lines[i]),
                lower_of(q),
            ),
    ensures
        matching_lines(q, lines).len() <= ci_matching_lines(q, lines).len(),
    decreases lines.len(),
{
    if lines.len() == 0 {
    } else {
        let front = lines.drop_last();
        assert(forall|i: int| 0 <= i < front.len() ==> front[i] == lines[i]);
        lemma_ci_selects_at_least(q, front);
        assert(lines.last() == lines[lines.len() - 1]);
    }
}

/// The lines of `contents` that contain `query` once both the line and the
/// query are lowercased, in top-to-bottom order, duplicates preserved.  On
/// ASCII input the result holds at least as many lines as `search` returns.
pub fn search_case_insensitive(query: &str, contents: &str) -> (r: Vec<String>)
    ensures
        r.deep_view() == search_ci_spec(query@, contents@),
        is_ascii_chars(query@) && is_ascii_chars(contents@) ==> search_spec(
            query@,
            contents@,
        ).len() <= r.deep_view().len(),
{
    let lq = lowercase(query);
    let lines = split_lines(contents);
    let mut r: Vec<String> = Vec::new();
    let ghost all = lines.deep_view();
    let n = lines.len();
    let mut i: usize = 0;
    proof {
        assert(all.take(0) =~= Seq::<Seq<char>>::empty());
    }
    while i < n
        invariant
            0 <= i <= n,
            n == lines@.len(),
            all == lines.deep_view(),
            all == lines_of(contents@),
            lq@ == lower_of(query@),
            is_ascii_chars(query@) ==> lq@ == ascii_lower_of(query@),
            r.deep_view() == ci_matching_lines(query@, all.take(i as int)),
            forall|j: int|
                0 <= j < i && is_ascii_chars(#[trigger] all[j]) ==> lower_of(all[j])
                    == ascii_lower_of(all[j]),
        decreases n - i,
    {
        let ghost prev = r.deep_view();
        let ll = lowercase(lines[i].as_str());
        if contains_substring(ll.as_str(), lq.as_str()) {
            r.push(lines[i].clone());
            proof {
                assert(r.deep_view() =~= prev.push(all[i as int]));
                assert(prev.push(all[i as int]) =~= prev + seq![all[i as int]]);
            }
        }
        proof {
            lemma_ci_matching_lines_step(query@, all, i as int);
            assert(prev + Seq::<Seq<char>>::empty() =~= prev);
        }
        i += 1;
    }
    proof {
        assert(all.take(n as int) =~= all);
        if is_ascii_chars(query@) && is_ascii_chars(contents@) {
            lemma_lines_of_ascii(contents@);
            assert forall|j: int|
                0 <= j < all.len() && contains_seq(#[trigger] all[j], query@) implies contains_seq(
                lower_of(all[j]),
                lower_of(query@),
            ) by {
                lemma_ascii_lower_preserves_match(all[j], query@);
            }
            lemma_ci_selects_at_least(query@, all);
        }
    }
    r
}

} // verus!
