//! The file scanner's computing core: running the line matcher over the
//! contents of one or several text sources and concatenating the results.
//!
//! Reading paths, directories and file bytes is the surrounding program's
//! business; it hands each source's full contents here as a string.

use crate::matcher::search;
use crate::matcher::search_case_insensitive;
use crate::matcher::search_ci_spec;
use crate::matcher::search_spec;
use vstd::prelude::*;

verus! {

/// What one text source contributes: the matched lines of `t` under the
/// selected case policy.
pub open spec fn file_results(q: Seq<char>, t: Seq<char>, ignore_case: bool) -> Seq<Seq<char>> {
    if ignore_case {
        search_ci_spec(q, t)
    } else {
        search_spec(q, t)
    }
}

/// The matched lines of several text sources, concatenated in source order.
pub open spec fn scan_results(
    q: Seq<char>,
    texts: Seq<Seq<char>>,
    ignore_case: bool,
) -> Seq<Seq<char>>
    decreases texts.len(),
{
    if texts.len() == 0 {
        Seq::empty()
    } else {
        scan_results(q, texts.drop_last(), ignore_case) + file_results(
            q,
            texts.last(),
            ignore_case,
        )
    }
}

/// The matcher is deterministic: any two results that meet the matcher's
/// contract on identical inputs are identical, so running the matcher twice
/// on the same query, text and case policy yields identical output
/// sequences.
pub proof fn lemma_matcher_deterministic(
    q: Seq<char>,
    t: Seq<char>,
    ignore_case: bool,
    r1: Seq<Seq<char>>,
    r2: Seq<Seq<char>>,
)
    requires
        r1 == file_results(q, t, ignore_case),
        r2 == file_results(q, t, ignore_case),
    ensures
        r1 == r2,
{
}

/// A scan distributes over concatenation of the text list: scanning the
/// sources of two lists in order yields the results of the first list
/// followed by the results of the second.
pub proof fn lemma_scan_is_concat(
    q: Seq<char>,
    ts1: Seq<Seq<char>>,
    ts2: Seq<Seq<char>>,
    ignore_case: bool,
)
    ensures
        scan_results(q, ts1 + ts2, ignore_case) == scan_results(q, ts1, ignore_case)
            + scan_results(q, ts2, ignore_case),
    decreases ts2.len(),
{
    if ts2.len() == 0 {
        assert(ts1 + ts2 =~= ts1);
        assert(scan_results(q, ts1, ignore_case) + scan_results(q, ts2, ignore_case)
            =~= scan_results(q, ts1, ignore_case));
    } else {
        let front = ts2.drop_last();
        assert((ts1 + ts2).drop_last() =~= ts1 + front);
        assert((ts1 + ts2).last() == ts2.last());
        lemma_scan_is_concat(q, ts1, front, ignore_case);
        assert(scan_results(q, ts1, ignore_case) + scan_results(q, front, ignore_case)
            + file_results(q, ts2.last(), ignore_case) =~= scan_results(q, ts1, ignore_case) + (
        scan_results(q, front, ignore_case) + file_results(q, ts2.last(), ignore_case)));
    }
}

/// The matched lines of one text source under the selected case policy;
/// the computing part of scanning a single file.
pub fn search_in_text(query: &str, contents: &str, ignore_case: bool) -> (r: Vec<String>)
    ensures
        r.deep_view() == file_results(query@, contents@, ignore_case),
{
    if ignore_case {
        search_case_insensitive(query, contents)
    } else {
        search(query, contents)
    }
}

/// Appending one text to a text list extends the scan's results by that
/// text's matched lines.
proof fn lemma_scan_results_step(q: Seq<char>, texts: Seq<Seq<char>>, ignore_case: bool, i: int)
    requires
        0 <= i < texts.len(),
    ensures
        scan_results(q, texts.take(i + 1), ignore_case) == scan_results(
            q,
            texts.take(i),
            ignore_case,
        ) + file_results(q, texts[i], ignore_case),
{
    let taken = texts.take(i + 1);
    assert(taken.drop_last() =~= texts.take(i));
    assert(taken.last() == texts[i]);
}

/// The matched lines of every text source, in per-source, then per-line,
/// order: the concatenation of each source's single-source results.
pub fn scan_texts(query: &str, texts: &Vec<String>, ignore_case: bool) -> (r: Vec<String>)
    ensures
        r.deep_view() == scan_results(query@, texts.deep_view(), ignore_case),
{
    let mut r: Vec<String> = Vec::new();
    let ghost all = texts.deep_view();
    let n = texts.len();
    let mut i: usize = 0;
    proof {
        assert(all.take(0) =~= Seq::<Seq<char>>::empty());
    }
    while i < n
        invariant
            0 <= i <= n,
            n == texts@.len(),
            all == texts.deep_view(),
            r.deep_view() == scan_results(query@, all.take(i as int), ignore_case),
        decreases n - i,
    {
        let ghost prev = r.deep_view();
        let mut part = search_in_text(query, texts[i].as_str(), ignore_case);
        let ghost part_view = part.deep_view();
        r.append(&mut part);
        proof {
            assert(r.deep_view() =~= prev + part_view);
            lemma_scan_results_step(query@, all, ignore_case, i as int);
        }
        i += 1;
    }
    proof {
        assert(all.take(n as int) =~= all);
    }
    r
}

} // verus!
