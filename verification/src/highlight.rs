//! The result presenter's computing core: rendering a matched line with
//! every literal occurrence of the query wrapped in highlight markers.
//!
//! Occurrences are found left to right, non-overlapping, by exact substring
//! match; all other text is kept verbatim.  Writing the rendered lines to
//! standard output is the surrounding program's business.

use crate::matcher::is_match_at;
use crate::matcher::match_at;
use vstd::prelude::*;
use vstd::string::StrSliceExecFns;
use vstd::string::StringExecFns;

verus! {

/// The ANSI escape that switches the terminal foreground to 256-color red.
pub open spec fn ansi_highlight_start() -> Seq<char> {
    "\u{1b}[38;5;196m"@
}

/// The ANSI escape that resets terminal attributes.
pub open spec fn ansi_highlight_end() -> Seq<char> {
    "\u{1b}[0m"@
}

/// A line with every leftmost, non-overlapping occurrence of `q` wrapped
/// between `pre` and `post`, scanning left to right; all other text is kept
/// verbatim.  An empty query leaves the line unchanged.
pub open spec fn highlight_marked(
    l: Seq<char>,
    q: Seq<char>,
    pre: Seq<char>,
    post: Seq<char>,
) -> Seq<char>
    decreases l.len(),
{
    if q.len() == 0 || l.len() == 0 {
        l
    } else if is_match_at(l, q, 0) {
        pre + q + post + highlight_marked(l.skip(q.len() as int), q, pre, post)
    } else {
        seq![l[0]] + highlight_marked(l.skip(1), q, pre, post)
    }
}

/// The line with every occurrence of the query wrapped between the given
/// markers; the rendering strategy is the caller's choice.
pub fn highlight_line_with(line: &str, query: &str, pre: &str, post: &str) -> (r: String)
    ensures
        r@ == highlight_marked(line@, query@, pre@, post@),
{
    let n = line.unicode_len();
    let m = query.unicode_len();
    if m == 0 {
        return line.to_owned();
    }
    let mut r = String::new();
    let mut pos: usize = 0;
    proof {
        assert(line@.skip(0) =~= line@);
        assert(r@ + highlight_marked(line@, query@, pre@, post@) =~= highlight_marked(
            line@,
            query@,
            pre@,
            post@,
        ));
    }
    while pos < n
        invariant
            0 <= pos <= n,
            n == line@.len(),
            m == query@.len(),
            1 <= m,
            highlight_marked(line@, query@, pre@, post@) == r@ + highlight_marked(
                line@.skip(pos as int),
                query@,
                pre@,
                post@,
            ),
        decreases n - pos,
    {
        let ghost rest = line@.skip(pos as int);
        let ghost prev = r@;
        if m <= n - pos && match_at(line, query, pos) {
            proof {
                assert(rest.subrange(0, m as int) =~= line@.subrange(pos as int, pos + m));
                assert(is_match_at(rest, query@, 0));
                assert(rest.skip(m as int) =~= line@.skip(pos + m));
            }
            r.append(pre);
            r.append(query);
            r.append(post);
            proof {
                assert(prev + (pre@ + query@ + post@ + highlight_marked(
                    line@.skip(pos + m),
                    query@,
                    pre@,
                    post@,
                )) =~= r@ + highlight_marked(line@.skip(pos + m), query@, pre@, post@));
            }
            pos += m;
        } else {
            proof {
                if m <= n - pos {
                    assert(rest.subrange(0, m as int) =~= line@.subrange(pos as int, pos + m));
                }
                assert(!is_match_at(rest, query@, 0));
                assert(rest.skip(1) =~= line@.skip(pos + 1));
            }
            let c = line.substring_char(pos, pos + 1);
            r.append(c);
            proof {
                assert(c@ =~= seq![rest[0]]);
                assert(prev + (seq![rest[0]] + highlight_marked(
                    line@.skip(pos + 1),
                    query@,
                    pre@,
                    post@,
                )) =~= r@ + highlight_marked(line@.skip(pos + 1), query@, pre@, post@));
            }
            pos += 1;
        }
    }
    proof {
        assert(line@.skip(n as int) =~= Seq::<char>::empty());
        assert(r@ + highlight_marked(line@.skip(n as int), query@, pre@, post@) =~= r@);
    }
    r
}

/// A matched line rendered for a terminal: every literal occurrence of the
/// query wrapped in an ANSI 256-color red foreground escape and a reset.
pub fn highlight_line(line: &str, query: &str) -> (r: String)
    ensures
        r@ == highlight_marked(line@, query@, ansi_highlight_start(), ansi_highlight_end()),
{
    highlight_line_with(line, query, "\u{1b}[38;5;196m", "\u{1b}[0m")
}

} // verus!
