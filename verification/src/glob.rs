//! Case-insensitive wildcard matching: `*` stands for any run of
//! characters, every other character for itself.
//!
//! The matcher is the classic iterative one: walk the text, match
//! characters one for one, remember the last `*` seen, and on a
//! mismatch let that star swallow one more character and retry. A star
//! in the pattern is always taken as a wildcard, even facing a `*` in the
//! text. [`glob_run`] states the walk, and [`lemma_glob_run_is_wildcard`]
//! shows it is exactly wildcard matching ([`wildcard`]).
use vstd::prelude::*;

use crate::text::{chars_of, lowercase, spec_lowercase};

verus! {

/// True when `p[i..]` consists of stars only.
pub open spec fn all_stars(p: Seq<char>, i: int) -> bool {
    forall|k: int| i <= k < p.len() ==> p[k] == '*'
}

/// The state machine the matcher walks: `pi` and `ti` are the positions
/// in pattern and text, `star` the last star met (if any) and `mark` the
/// text position that star has swallowed up to.
pub open spec fn glob_run(
    p: Seq<char>,
    t: Seq<char>,
    pi: int,
    ti: int,
    star: Option<int>,
    mark: int,
) -> bool
    decreases t.len() - mark, t.len() - ti, p.len() - pi,
    when 0 <= mark <= ti <= t.len() && 0 <= pi <= p.len() && (star matches Some(s) ==> 0 <= s
        < pi)
{
    if ti < t.len() {
        if pi < p.len() && p[pi] == '*' {
            glob_run(p, t, pi + 1, ti, Some(pi), ti)
        } else if pi < p.len() && p[pi] == t[ti] {
            glob_run(p, t, pi + 1, ti + 1, star, mark)
        } else {
            match star {
                Some(s) => glob_run(p, t, s + 1, mark + 1, star, mark + 1),
                None => false,
            }
        }
    } else {
        all_stars(p, pi)
    }
}

/// Wildcard matching of `p[i..]` against `t[j..]`: `*` matches any run
/// of characters, every other character itself.
pub open spec fn wildcard(p: Seq<char>, t: Seq<char>, i: int, j: int) -> bool
    decreases p.len() - i, t.len() - j,
    when 0 <= i <= p.len() && 0 <= j <= t.len()
{
    if i >= p.len() {
        j >= t.len()
    } else if p[i] == '*' {
        wildcard(p, t, i + 1, j) || (j < t.len() && wildcard(p, t, i, j + 1))
    } else {
        j < t.len() && p[i] == t[j] && wildcard(p, t, i + 1, j + 1)
    }
}

/// What [`glob_match`] answers: wildcard matching of the lowercased
/// pattern against the whole lowercased text.
pub open spec fn spec_glob_match(pat: Seq<char>, text: Seq<char>) -> bool {
    wildcard(spec_lowercase(pat), spec_lowercase(text), 0, 0)
}

/// Case-insensitive wildcard match of `pat` against the whole of `text`.
pub fn glob_match(pat: &str, text: &str) -> (r: bool)
    ensures
        r == spec_glob_match(pat@, text@),
{
    let lp = lowercase(pat);
    let lt = lowercase(text);
    let p = chars_of(lp.as_str());
    let t = chars_of(lt.as_str());
    glob_chars(&p, &t)
}

/// The matcher's walk over two character sequences.
pub fn glob_chars(p: &Vec<char>, t: &Vec<char>) -> (r: bool)
    ensures
        r == wildcard(p@, t@, 0, 0),
{
    proof {
        lemma_glob_run_is_wildcard(p@, t@);
    }
    let mut pi: usize = 0;
    let mut ti: usize = 0;
    let mut star: Option<usize> = None;
    let mut mark: usize = 0;
    while ti < t.len()
        invariant
            mark <= ti <= t.len(),
            pi <= p.len(),
            star matches Some(s) ==> s < pi,
            glob_run(p@, t@, 0, 0, None, 0) == wildcard(p@, t@, 0, 0),
            glob_run(p@, t@, pi as int, ti as int, spec_opt(star), mark as int) == glob_run(
                p@,
                t@,
                0,
                0,
                None,
                0,
            ),
        decreases t.len() - mark, t.len() - ti, p.len() - pi,
    {
        if pi < p.len() && p[pi] == '*' {
            star = Some(pi);
            mark = ti;
            pi = pi + 1;
        } else if pi < p.len() && p[pi] == t[ti] {
            pi = pi + 1;
            ti = ti + 1;
        } else {
            match star {
                Some(s) => {
                    pi = s + 1;
                    mark = mark + 1;
                    ti = mark;
                },
                None => {
                    return false;
                },
            }
        }
    }
    while pi < p.len() && p[pi] == '*'
        invariant
            pi <= p.len(),
            ti == t.len(),
            glob_run(p@, t@, 0, 0, None, 0) == wildcard(p@, t@, 0, 0),
            all_stars(p@, pi as int) == glob_run(p@, t@, 0, 0, None, 0),
        decreases p.len() - pi,
    {
        pi = pi + 1;
    }
    pi == p.len()
}

/// An optional position as a mathematical integer.
pub open spec fn spec_opt(o: Option<usize>) -> Option<int> {
    match o {
        Some(s) => Some(s as int),
        None => None,
    }
}

/// The number of non-star characters in `p[i..]`.
pub open spec fn count_plain(p: Seq<char>, i: int) -> nat
    decreases p.len() - i,
{
    if i >= p.len() || i < 0 {
        0
    } else if p[i] == '*' {
        count_plain(p, i + 1)
    } else {
        1 + count_plain(p, i + 1)
    }
}

/// `p[i..i+n]` equals `t[j..j+n]`, character by character.
pub open spec fn same_run(p: Seq<char>, t: Seq<char>, i: int, j: int, n: int) -> bool {
    &&& 0 <= i
    &&& 0 <= j
    &&& 0 <= n
    &&& i + n <= p.len()
    &&& j + n <= t.len()
    &&& forall|q: int| #![trigger p[q]] i <= q < i + n ==> p[q] == t[q - i + j] && p[q] != '*'
}

/// Matching to the end of the text leaves only stars.
proof fn lemma_wildcard_at_end(p: Seq<char>, t: Seq<char>, i: int)
    requires
        0 <= i <= p.len(),
    ensures
        wildcard(p, t, i, t.len() as int) == all_stars(p, i),
    decreases p.len() - i,
{
    if i < p.len() {
        lemma_wildcard_at_end(p, t, i + 1);
    }
}

/// A match needs at least as much text as the pattern has plain characters.
proof fn lemma_wildcard_needs_text(p: Seq<char>, t: Seq<char>, i: int, j: int)
    requires
        0 <= i <= p.len(),
        0 <= j <= t.len(),
        wildcard(p, t, i, j),
    ensures
        count_plain(p, i) <= t.len() - j,
    decreases p.len() - i, t.len() - j,
{
    if i < p.len() {
        if p[i] == '*' {
            if wildcard(p, t, i + 1, j) {
                lemma_wildcard_needs_text(p, t, i + 1, j);
            } else {
                lemma_wildcard_needs_text(p, t, i, j + 1);
            }
        } else {
            lemma_wildcard_needs_text(p, t, i + 1, j + 1);
        }
    }
}

/// A run of plain characters matched one for one can be skipped on
/// both sides.
proof fn lemma_same_run(p: Seq<char>, t: Seq<char>, i: int, j: int, n: int)
    requires
        same_run(p, t, i, j, n),
    ensures
        wildcard(p, t, i, j) == wildcard(p, t, i + n, j + n),
    decreases n,
{
    if n > 0 {
        assert(p[i] == t[j]);
        assert(p[i] != '*');
        assert(p[i] == t[j]);
        lemma_same_run(p, t, i + 1, j + 1, n - 1);
    }
}

/// Plain characters of the pattern consume text one for one.
proof fn lemma_plain_forward(p: Seq<char>, t: Seq<char>, i: int, j: int, n: int)
    requires
        0 <= i,
        0 <= n,
        i + n <= p.len(),
        0 <= j <= t.len(),
        forall|k: int| i <= k < i + n ==> p[k] != '*',
        wildcard(p, t, i, j),
    ensures
        j + n <= t.len(),
        wildcard(p, t, i + n, j + n),
    decreases n,
{
    if n > 0 {
        lemma_plain_forward(p, t, i + 1, j + 1, n - 1);
    }
}

/// A star that matches from `j` can be taken to match from any earlier
/// position too (it swallows the difference).
proof fn lemma_star_reaches_back(p: Seq<char>, t: Seq<char>, i: int, j1: int, j2: int)
    requires
        0 <= i < p.len(),
        p[i] == '*',
        0 <= j1 <= j2 <= t.len(),
        wildcard(p, t, i, j2),
    ensures
        wildcard(p, t, i, j1),
    decreases j2 - j1,
{
    if j1 < j2 {
        lemma_star_reaches_back(p, t, i, j1 + 1, j2);
    }
}

/// A star that matches from `j` lets the rest of the pattern match from
/// some position at or after `j`.
proof fn lemma_star_splits(p: Seq<char>, t: Seq<char>, i: int, j: int) -> (k: int)
    requires
        0 <= i < p.len(),
        p[i] == '*',
        0 <= j <= t.len(),
        wildcard(p, t, i, j),
    ensures
        j <= k <= t.len(),
        wildcard(p, t, i + 1, k),
    decreases t.len() - j,
{
    if wildcard(p, t, i + 1, j) {
        j
    } else {
        lemma_star_splits(p, t, i, j + 1)
    }
}

/// The state invariant of the walk: the characters since the last star
/// (or since the start) were matched one for one.
pub open spec fn run_inv(p: Seq<char>, t: Seq<char>, pi: int, ti: int, star: Option<int>, mark: int) -> bool {
    &&& 0 <= mark <= ti <= t.len()
    &&& 0 <= pi <= p.len()
    &&& match star {
        Some(s) => {
            &&& 0 <= s < pi
            &&& p[s] == '*'
            &&& same_run(p, t, s + 1, mark, pi - s - 1)
            &&& ti - mark == pi - s - 1
        },
        None => same_run(p, t, 0, 0, pi) && pi == ti,
    }
}

/// What the walk from a state decides: the wildcard match from the
/// current position, or from the last star.
pub open spec fn run_target(p: Seq<char>, t: Seq<char>, pi: int, ti: int, star: Option<int>, mark: int) -> bool {
    match star {
        Some(s) => wildcard(p, t, s, mark),
        None => wildcard(p, t, pi, ti),
    }
}

/// Each step of the walk keeps its answer equal to the wildcard match.
proof fn lemma_run_correct(p: Seq<char>, t: Seq<char>, pi: int, ti: int, star: Option<int>, mark: int)
    requires
        run_inv(p, t, pi, ti, star, mark),
    ensures
        glob_run(p, t, pi, ti, star, mark) == run_target(p, t, pi, ti, star, mark),
    decreases t.len() - mark, t.len() - ti, p.len() - pi,
{
    if ti < t.len() {
        if pi < p.len() && p[pi] == '*' {
            // A new star: the walk restarts from it.
            assert(run_inv(p, t, pi + 1, ti, Some(pi), ti));
            lemma_run_correct(p, t, pi + 1, ti, Some(pi), ti);
            match star {
                Some(s) => {
                    let n = pi - s - 1;
                    lemma_same_run(p, t, s + 1, mark, n);
                    if wildcard(p, t, s, mark) {
                        let k = lemma_star_splits(p, t, s, mark);
                        assert forall|q: int| s + 1 <= q < s + 1 + n implies p[q] != '*' by {
                            assert(p[q] == t[q - (s + 1) + mark]);
                        }
                        lemma_plain_forward(p, t, s + 1, k, n);
                        lemma_star_reaches_back(p, t, pi, ti, k + n);
                    }
                },
                None => {},
            }
        } else if pi < p.len() && p[pi] == t[ti] {
            // One plain character matched.
            assert(run_inv(p, t, pi + 1, ti + 1, star, mark)) by {
                match star {
                    Some(s) => {
                        assert(p[pi] == t[ti]);
                    },
                    None => {
                        assert(p[pi] == t[ti]);
                    },
                }
            }
            lemma_run_correct(p, t, pi + 1, ti + 1, star, mark);
        } else {
            // A mismatch: the plain run since the last star cannot match here.
            assert(!wildcard(p, t, pi, ti));
            match star {
                Some(s) => {
                    let n = pi - s - 1;
                    lemma_same_run(p, t, s + 1, mark, n);
                    assert(!wildcard(p, t, s + 1, mark));
                    assert(run_inv(p, t, s + 1, mark + 1, star, mark + 1));
                    lemma_run_correct(p, t, s + 1, mark + 1, star, mark + 1);
                },
                None => {},
            }
        }
    } else {
        lemma_wildcard_at_end(p, t, pi);
        match star {
            Some(s) => {
                let n = pi - s - 1;
                lemma_same_run(p, t, s + 1, mark, n);
                if wildcard(p, t, s, mark) {
                    assert forall|q: int| s + 1 <= q < s + 1 + n implies p[q] != '*' by {
                        assert(p[q] == t[q - (s + 1) + mark]);
                    }
                    lemma_wildcard_needs_text(p, t, s, mark);
                    lemma_count_plain_run(p, s, n);
                    lemma_count_plain_zero(p, pi);
                } else {
                    assert(!wildcard(p, t, s + 1, mark));
                }
            },
            None => {
                assert(same_run(p, t, 0, 0, pi));
            },
        }
    }
}

/// After a star and a run of `n` plain characters, the count of plain
/// characters is `n` more than what follows the run.
proof fn lemma_count_plain_run(p: Seq<char>, s: int, n: int)
    requires
        0 <= s,
        0 <= n,
        s + 1 + n <= p.len(),
        p[s] == '*',
        forall|k: int| s + 1 <= k < s + 1 + n ==> p[k] != '*',
    ensures
        count_plain(p, s) == n + count_plain(p, s + 1 + n),
    decreases n,
{
    lemma_count_plain_skip(p, s + 1, n);
}

/// A run of `n` plain characters adds `n` to the count.
proof fn lemma_count_plain_skip(p: Seq<char>, i: int, n: int)
    requires
        0 <= i,
        0 <= n,
        i + n <= p.len(),
        forall|k: int| i <= k < i + n ==> p[k] != '*',
    ensures
        count_plain(p, i) == n + count_plain(p, i + n),
    decreases n,
{
    if n > 0 {
        lemma_count_plain_skip(p, i + 1, n - 1);
    }
}

/// No plain characters left means only stars are left.
proof fn lemma_count_plain_zero(p: Seq<char>, i: int)
    requires
        0 <= i <= p.len(),
        count_plain(p, i) == 0,
    ensures
        all_stars(p, i),
    decreases p.len() - i,
{
    if i < p.len() {
        lemma_count_plain_zero(p, i + 1);
    }
}

/// The matcher's walk is exactly wildcard matching of the whole pattern
/// against the whole text.
pub proof fn lemma_glob_run_is_wildcard(p: Seq<char>, t: Seq<char>)
    ensures
        glob_run(p, t, 0, 0, None, 0) == wildcard(p, t, 0, 0),
{
    lemma_run_correct(p, t, 0, 0, None, 0);
}

/// A pattern position holding a star matches from any text position.
proof fn lemma_star_from(p: Seq<char>, t: Seq<char>, i: int, j: int)
    requires
        0 <= i < p.len(),
        all_stars(p, i),
        0 <= j <= t.len(),
    ensures
        wildcard(p, t, i, j),
    decreases p.len() - i, t.len() - j,
{
    assert(p[i] == '*');
    if i + 1 < p.len() {
        lemma_star_from(p, t, i + 1, j);
        assert(wildcard(p, t, i + 1, j));
    } else if j < t.len() {
        lemma_star_from(p, t, i, j + 1);
        assert(wildcard(p, t, i, j + 1));
    } else {
        assert(wildcard(p, t, i + 1, j));
    }
}

/// A lone star matches every text.
pub proof fn law_star_matches_everything(t: Seq<char>)
    ensures
        wildcard(seq!['*'], t, 0, 0),
{
    lemma_star_from(seq!['*'], t, 0, 0);
}

/// Plain characters up to `e` match one for one, then stars to the end
/// match whatever is left.
proof fn lemma_plain_then_stars(p: Seq<char>, t: Seq<char>, e: int, i: int, j: int)
    requires
        0 <= i <= e <= p.len(),
        0 <= j <= t.len(),
        forall|k: int| i <= k < e ==> p[k] != '*',
        all_stars(p, e),
    ensures
        wildcard(p, t, i, j) <==> if e < p.len() {
            j + (e - i) <= t.len() && p.subrange(i, e) == t.subrange(j, j + (e - i))
        } else {
            j + (e - i) == t.len() && p.subrange(i, e) == t.subrange(j, t.len() as int)
        },
    decreases e - i,
{
    if i == e {
        if e < p.len() {
            lemma_star_from(p, t, e, j);
        }
        assert(p.subrange(i, e) =~= t.subrange(j, j));
    } else {
        if j < t.len() {
            lemma_plain_then_stars(p, t, e, i + 1, j + 1);
        }
        let n = e - i;
        if j + n <= t.len() {
            if p.subrange(i, e) == t.subrange(j, j + n) {
                assert(p[i] == p.subrange(i, e)[0]);
                assert forall|k: int| 0 <= k < n - 1 implies #[trigger] p.subrange(i + 1, e)[k] == t.subrange(
                    j + 1,
                    j + n,
                )[k] by {
                    assert(p.subrange(i, e)[k + 1] == t.subrange(j, j + n)[k + 1]);
                }
                assert(p.subrange(i + 1, e) =~= t.subrange(j + 1, j + n));
            }
            if j < t.len() && p[i] == t[j] && p.subrange(i + 1, e) == t.subrange(j + 1, j + n) {
                assert(p.subrange(i, e) =~= t.subrange(j, j + n)) by {
                    assert forall|k: int| 0 <= k < n implies p.subrange(i, e)[k] == t.subrange(j, j + n)[k] by {
                        if k > 0 {
                            assert(p.subrange(i + 1, e)[k - 1] == t.subrange(j + 1, j + n)[k - 1]);
                        }
                    }
                }
            }
        }
    }
}

/// A pattern without stars matches exactly the text equal to it.
pub proof fn law_plain_pattern_is_equality(p: Seq<char>, t: Seq<char>)
    requires
        forall|k: int| 0 <= k < p.len() ==> p[k] != '*',
    ensures
        wildcard(p, t, 0, 0) <==> p == t,
{
    lemma_plain_then_stars(p, t, p.len() as int, 0, 0);
    assert(p.subrange(0, p.len() as int) =~= p);
    assert(t.subrange(0, t.len() as int) =~= t);
}

/// A leading star lets the rest of the pattern start anywhere at or
/// after `j`.
proof fn lemma_leading_star(p: Seq<char>, t: Seq<char>, j: int)
    requires
        p.len() > 0,
        p[0] == '*',
        0 <= j <= t.len(),
    ensures
        wildcard(p, t, 0, j) <==> exists|k: int| j <= k <= t.len() && #[trigger] wildcard(p, t, 1, k),
    decreases t.len() - j,
{
    if j < t.len() {
        lemma_leading_star(p, t, j + 1);
    }
    if wildcard(p, t, 0, j) {
        if wildcard(p, t, 1, j) {
            assert(j <= j <= t.len() && wildcard(p, t, 1, j));
        } else {
            assert(j < t.len() && wildcard(p, t, 0, j + 1));
            let k = choose|k: int| j + 1 <= k <= t.len() && #[trigger] wildcard(p, t, 1, k);
            assert(j <= k <= t.len() && wildcard(p, t, 1, k));
        }
    }
    if exists|k: int| j <= k <= t.len() && #[trigger] wildcard(p, t, 1, k) {
        let k = choose|k: int| j <= k <= t.len() && #[trigger] wildcard(p, t, 1, k);
        if k > j {
            assert(j + 1 <= k <= t.len() && wildcard(p, t, 1, k));
            assert(wildcard(p, t, 0, j + 1));
        }
    }
}

/// `s` occurs in `t` at position `k`.
pub open spec fn occurs_at(s: Seq<char>, t: Seq<char>, k: int) -> bool {
    0 <= k && k + s.len() <= t.len() && t.subrange(k, k + s.len()) == s
}

/// A star-free `s` between two stars matches exactly the texts that
/// contain `s`: a substring search.
pub proof fn law_starred_is_substring(s: Seq<char>, t: Seq<char>)
    requires
        forall|k: int| 0 <= k < s.len() ==> s[k] != '*',
    ensures
        wildcard(seq!['*'] + s + seq!['*'], t, 0, 0) <==> exists|k: int| #[trigger] occurs_at(s, t, k),
{
    let p = seq!['*'] + s + seq!['*'];
    let e: int = s.len() + 1int;
    assert(p.subrange(1, e) =~= s);
    assert forall|m: int| 1 <= m < e implies p[m] != '*' by {
        assert(p[m] == s[m - 1]);
    }
    assert(all_stars(p, e)) by {
        assert(p[e] == '*');
    }
    lemma_leading_star(p, t, 0);
    assert forall|k: int| 0 <= k <= t.len() implies (wildcard(p, t, 1, k) <==> #[trigger] occurs_at(s, t, k)) by {
        lemma_plain_then_stars(p, t, e, 1, k);
    }
    if exists|k: int| #[trigger] occurs_at(s, t, k) {
        let k = choose|k: int| #[trigger] occurs_at(s, t, k);
        assert(0 <= k <= t.len() && wildcard(p, t, 1, k));
    }
    if wildcard(p, t, 0, 0) {
        let k = choose|k: int| 0 <= k <= t.len() && #[trigger] wildcard(p, t, 1, k);
        assert(occurs_at(s, t, k));
    }
}

} // verus!
