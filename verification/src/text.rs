//! Character-level helpers shared by the matcher and the config parser.
//!
//! The library works on `Vec<char>` internally, so that every string
//! operation it performs has a contract over `Seq<char>`. The few std
//! functions whose behaviour depends on large Unicode tables (case
//! mapping, debug escapes) are called through small functions whose
//! contracts name their results.
use vstd::prelude::*;

verus! {

broadcast use vstd::string::group_string_axioms;

/// The characters of `s`, in order.
pub fn chars_of(s: &str) -> (v: Vec<char>)
    ensures
        v@ == s@,
{
    let mut v: Vec<char> = Vec::new();
    for c in it: s.chars()
        invariant
            it.seq() == s@,
            v@.len() == it.index(),
            v@ == s@.take(it.index() as int),
    {
        v.push(c);
        proof {
            assert(s@.take(it.index() + 1) =~= s@.take(it.index() as int).push(c));
        }
    }
    v
}

/// True when the two character sequences are equal.
pub fn seq_eq(a: &Vec<char>, b: &Vec<char>) -> (r: bool)
    ensures
        r == (a@ == b@),
{
    if a.len() != b.len() {
        return false;
    }
    let mut i: usize = 0;
    while i < a.len()
        invariant
            a.len() == b.len(),
            i <= a.len(),
            forall|j: int| 0 <= j < i ==> a@[j] == b@[j],
        decreases a.len() - i,
    {
        if a[i] != b[i] {
            return false;
        }
        i = i + 1;
    }
    assert(a@ =~= b@);
    true
}

/// What `str::to_lowercase` makes of a string: the lowercase mapping of
/// the Unicode Derived Core Property `Lowercase`, applied to the whole
/// string (it is context-sensitive for a final sigma, so it is named
/// for whole strings, not per character).
pub uninterp spec fn spec_lowercase(s: Seq<char>) -> Seq<char>;

/// `str::to_lowercase`: the contract claims only that the result is a
/// function of the input's characters alone, named [`spec_lowercase`].
#[verifier::external_body]
pub(crate) fn lowercase(s: &str) -> (r: String)
    ensures
        r@ == spec_lowercase(s@),
{
    s.to_lowercase()
}

/// The Unicode White_Space property, which is what `char::is_whitespace`
/// answers: tab through carriage return, space, next line, no-break
/// space, ogham space mark, the en quad through hair space, line and
/// paragraph separator, narrow no-break space, medium mathematical space
/// and ideographic space.
pub open spec fn spec_is_whitespace(c: char) -> bool {
    let u = c as u32;
    ||| 0x9 <= u <= 0xD
    ||| u == 0x20
    ||| u == 0x85
    ||| u == 0xA0
    ||| u == 0x1680
    ||| 0x2000 <= u <= 0x200A
    ||| u == 0x2028
    ||| u == 0x2029
    ||| u == 0x202F
    ||| u == 0x205F
    ||| u == 0x3000
}

/// True for a character with the White_Space property.
pub fn is_whitespace(c: char) -> (b: bool)
    ensures
        b == spec_is_whitespace(c),
{
    let u = c as u32;
    (0x9 <= u && u <= 0xD) || u == 0x20 || u == 0x85 || u == 0xA0 || u == 0x1680 || (0x2000 <= u && u
        <= 0x200A) || u == 0x2028 || u == 0x2029 || u == 0x202F || u == 0x205F || u == 0x3000
}

/// The string made of these characters (`FromIterator<char>` for
/// `String`): the contract claims that it holds exactly them, in order.
#[verifier::external_body]
pub(crate) fn string_of(v: &Vec<char>) -> (s: String)
    ensures
        s@ == v@,
{
    v.iter().collect()
}

/// How `{:?}` writes a string: quoted, with escapes; named, since the
/// escape rules follow Unicode tables.
pub uninterp spec fn spec_debug_text(s: Seq<char>) -> Seq<char>;

/// `<str as Debug>::fmt`, through `format!("{:?}")`: the contract claims
/// only that the result is a function of the string, named
/// [`spec_debug_text`].
#[verifier::external_body]
pub(crate) fn debug_text(s: &str) -> (r: String)
    ensures
        r@ == spec_debug_text(s@),
{
    format!("{:?}", s)
}

/// The quoted, escaped form of a character sequence, as characters.
pub fn quoted(v: &Vec<char>) -> (r: Vec<char>)
    ensures
        r@ == spec_debug_text(v@),
{
    let s = string_of(v);
    let q = debug_text(s.as_str());
    chars_of(q.as_str())
}

/// The lowercase form of a character sequence, as characters.
pub fn lowercase_chars(v: &Vec<char>) -> (r: Vec<char>)
    ensures
        r@ == spec_lowercase(v@),
{
    let s = string_of(v);
    let l = lowercase(s.as_str());
    chars_of(l.as_str())
}

/// The first position at or after `i` that holds no whitespace.
pub open spec fn skip_ws(s: Seq<char>, i: int) -> int
    decreases s.len() - i,
{
    if 0 <= i < s.len() && spec_is_whitespace(s[i]) {
        skip_ws(s, i + 1)
    } else {
        i
    }
}

/// The end of `s[lo..j]` once trailing whitespace is dropped.
pub open spec fn back_ws(s: Seq<char>, lo: int, j: int) -> int
    decreases j - lo,
{
    if lo < j && j <= s.len() && spec_is_whitespace(s[j - 1]) {
        back_ws(s, lo, j - 1)
    } else {
        j
    }
}

/// `str::trim`: the string without leading and trailing whitespace.
pub open spec fn spec_trim(s: Seq<char>) -> Seq<char> {
    let lo = skip_ws(s, 0);
    s.subrange(lo, back_ws(s, lo, s.len() as int))
}

/// Where the first of `i..` stops being whitespace lies between `i` and the end.
pub proof fn lemma_skip_ws_bounds(s: Seq<char>, i: int)
    requires
        0 <= i <= s.len(),
    ensures
        i <= skip_ws(s, i) <= s.len(),
    decreases s.len() - i,
{
    if i < s.len() && spec_is_whitespace(s[i]) {
        lemma_skip_ws_bounds(s, i + 1);
    }
}

/// The trimmed end lies between the start and `j`.
pub proof fn lemma_back_ws_bounds(s: Seq<char>, lo: int, j: int)
    requires
        0 <= lo <= j <= s.len(),
    ensures
        lo <= back_ws(s, lo, j) <= j,
    decreases j - lo,
{
    if lo < j && spec_is_whitespace(s[j - 1]) {
        lemma_back_ws_bounds(s, lo, j - 1);
    }
}

/// `str::trim` on characters.
pub fn trim(v: &Vec<char>) -> (r: Vec<char>)
    ensures
        r@ == spec_trim(v@),
{
    let mut lo: usize = 0;
    while lo < v.len() && is_whitespace(v[lo])
        invariant
            lo <= v.len(),
            skip_ws(v@, lo as int) == skip_ws(v@, 0),
        decreases v.len() - lo,
    {
        lo = lo + 1;
    }
    let mut hi: usize = v.len();
    while hi > lo && is_whitespace(v[hi - 1])
        invariant
            lo <= hi <= v.len(),
            skip_ws(v@, 0) == lo,
            back_ws(v@, lo as int, hi as int) == back_ws(v@, lo as int, v@.len() as int),
        decreases hi - lo,
    {
        hi = hi - 1;
    }
    slice(v, lo, hi)
}

/// `v[lo..hi]` as a new vector.
pub fn slice(v: &Vec<char>, lo: usize, hi: usize) -> (r: Vec<char>)
    requires
        lo <= hi <= v.len(),
    ensures
        r@ == v@.subrange(lo as int, hi as int),
{
    let mut r: Vec<char> = Vec::new();
    let mut i: usize = lo;
    while i < hi
        invariant
            lo <= i <= hi <= v.len(),
            r@ == v@.subrange(lo as int, i as int),
        decreases hi - i,
    {
        r.push(v[i]);
        proof {
            assert(v@.subrange(lo as int, i + 1) =~= v@.subrange(lo as int, i as int).push(v@[i as int]));
        }
        i = i + 1;
    }
    r
}

/// The first position at or after `i` that holds `c`, or the length.
pub open spec fn find(s: Seq<char>, c: char, i: int) -> int
    decreases s.len() - i,
{
    if i < 0 || i >= s.len() {
        s.len() as int
    } else if s[i] == c {
        i
    } else {
        find(s, c, i + 1)
    }
}

/// Where `find` lands, and what lies before it.
pub proof fn lemma_find(s: Seq<char>, c: char, i: int)
    requires
        0 <= i <= s.len(),
    ensures
        i <= find(s, c, i) <= s.len(),
        find(s, c, i) < s.len() ==> s[find(s, c, i)] == c,
        forall|k: int| i <= k < find(s, c, i) ==> s[k] != c,
    decreases s.len() - i,
{
    if i < s.len() && s[i] != c {
        lemma_find(s, c, i + 1);
    }
}

/// The first position at or after `i` that holds `c`, or the length.
pub fn find_char(v: &Vec<char>, c: char, i: usize) -> (k: usize)
    requires
        i <= v.len(),
    ensures
        k == find(v@, c, i as int),
{
    let mut k: usize = i;
    while k < v.len() && v[k] != c
        invariant
            i <= k <= v.len(),
            find(v@, c, k as int) == find(v@, c, i as int),
        decreases v.len() - k,
    {
        k = k + 1;
    }
    k
}

/// `str::split_once`: the parts before and after the first `c`.
pub open spec fn spec_split_once(s: Seq<char>, c: char) -> Option<(Seq<char>, Seq<char>)> {
    let k = find(s, c, 0);
    if k < s.len() {
        Some((s.subrange(0, k), s.subrange(k + 1, s.len() as int)))
    } else {
        None
    }
}

/// The parts of `v` before and after the first `c`, if it holds one.
pub fn split_once(v: &Vec<char>, c: char) -> (r: Option<(Vec<char>, Vec<char>)>)
    ensures
        match r {
            Some((a, b)) => spec_split_once(v@, c) == Some((a@, b@)),
            None => spec_split_once(v@, c) is None,
        },
{
    let k = find_char(v, c, 0);
    proof {
        lemma_find(v@, c, 0);
    }
    if k < v.len() {
        Some((slice(v, 0, k), slice(v, k + 1, v.len())))
    } else {
        None
    }
}

/// The pieces `str::split` cuts `s[i..]` into at each `c`.
pub open spec fn split_from(s: Seq<char>, c: char, i: int) -> Seq<Seq<char>>
    decreases s.len() - i,
{
    if i < 0 || i > s.len() {
        Seq::empty()
    } else {
        let k = find(s, c, i);
        if k < s.len() {
            proof {
                lemma_find(s, c, i);
            }
            seq![s.subrange(i, k)] + split_from(s, c, k + 1)
        } else {
            seq![s.subrange(i, s.len() as int)]
        }
    }
}

/// `find` in `a + b` from inside `b` is `find` in `b`, shifted.
proof fn lemma_find_shift(a: Seq<char>, b: Seq<char>, c: char, j: int)
    requires
        0 <= j <= b.len(),
    ensures
        find(a + b, c, a.len() + j) == a.len() + find(b, c, j),
    decreases b.len() - j,
{
    if j < b.len() {
        assert((a + b)[a.len() + j] == b[j]);
        lemma_find_shift(a, b, c, j + 1);
    }
}

/// `find` in `a + b` from inside `a`: found in `a`, or else in `b`.
pub proof fn lemma_find_concat(a: Seq<char>, b: Seq<char>, c: char, i: int)
    requires
        0 <= i <= a.len(),
    ensures
        find(a + b, c, i) == if find(a, c, i) < a.len() {
            find(a, c, i)
        } else {
            a.len() + find(b, c, 0) as int
        },
    decreases a.len() - i,
{
    if i == a.len() {
        lemma_find_shift(a, b, c, 0);
    } else {
        assert((a + b)[i] == a[i]);
        lemma_find_concat(a, b, c, i + 1);
    }
}

/// Where `c` does not occur, `find` runs to the end.
pub proof fn lemma_find_none(s: Seq<char>, c: char, i: int)
    requires
        0 <= i <= s.len(),
        forall|k: int| i <= k < s.len() ==> s[k] != c,
    ensures
        find(s, c, i) == s.len(),
    decreases s.len() - i,
{
    if i < s.len() {
        lemma_find_none(s, c, i + 1);
    }
}

/// `split_from` in `a + b` from inside `b` is `split_from` in `b`.
pub proof fn lemma_split_shift(a: Seq<char>, b: Seq<char>, c: char, j: int)
    requires
        0 <= j <= b.len(),
    ensures
        split_from(a + b, c, a.len() + j) == split_from(b, c, j),
    decreases b.len() - j,
{
    lemma_find_shift(a, b, c, j);
    lemma_find(b, c, j);
    let k = find(b, c, j);
    assert((a + b).subrange(a.len() + j, a.len() + k) =~= b.subrange(j, k));
    if k < b.len() {
        lemma_split_shift(a, b, c, k + 1);
    }
}

/// Text that goes on after a `c` is split as the pieces before it and
/// then the pieces after that `c`.
pub proof fn lemma_split_append(a: Seq<char>, b: Seq<char>, c: char, i: int)
    requires
        0 <= i <= a.len(),
        b.len() > 0,
        b[0] == c,
    ensures
        split_from(a + b, c, i) == split_from(a, c, i) + split_from(b, c, 1),
    decreases a.len() - i,
{
    lemma_find_concat(a, b, c, i);
    lemma_find(a, c, i);
    let k = find(a, c, i);
    assert(find(b, c, 0) == 0);
    assert((a + b).subrange(i, k) =~= a.subrange(i, k));
    if k < a.len() {
        lemma_split_append(a, b, c, k + 1);
        assert(split_from(a + b, c, i) =~= seq![a.subrange(i, k)] + (split_from(a, c, k + 1) + split_from(b, c, 1)));
        assert(split_from(a, c, i) + split_from(b, c, 1) =~= seq![a.subrange(i, k)] + (split_from(a, c, k + 1)
            + split_from(b, c, 1)));
    } else {
        lemma_split_shift(a, b, c, 1);
    }
}

/// Replacing one whole piece `m1` of a text (it runs from the start or a
/// cut to the end or a cut, and holds no `c`) by `m2`, which holds no `c`
/// either, changes that piece and no other.
pub proof fn lemma_split_replace(
    x: Seq<char>,
    m1: Seq<char>,
    m2: Seq<char>,
    y: Seq<char>,
    c: char,
    i: int,
)
    requires
        0 <= i <= x.len(),
        x.len() == 0 || x.last() == c,
        forall|k: int| 0 <= k < m1.len() ==> m1[k] != c,
        forall|k: int| 0 <= k < m2.len() ==> m2[k] != c,
        y.len() == 0 || y[0] == c,
    ensures
        split_from(x + m1 + y, c, i).len() == split_from(x + m2 + y, c, i).len(),
        forall|j: int|
            0 <= j < split_from(x + m1 + y, c, i).len() ==> #[trigger] split_from(x + m1 + y, c, i)[j]
                == split_from(x + m2 + y, c, i)[j] || (split_from(x + m1 + y, c, i)[j] == m1 && split_from(
                x + m2 + y,
                c,
                i,
            )[j] == m2),
    decreases x.len() - i,
{
    let s1 = x + m1 + y;
    let s2 = x + m2 + y;
    lemma_find(x, c, i);
    lemma_find_concat(x, m1, c, i);
    lemma_find_concat(x, m2, c, i);
    lemma_find_concat(x + m1, y, c, i);
    lemma_find_concat(x + m2, y, c, i);
    lemma_find_none(m1, c, 0);
    lemma_find_none(m2, c, 0);
    let k = find(x, c, i);
    if k < x.len() {
        assert(s1.subrange(i, k) =~= x.subrange(i, k));
        assert(s2.subrange(i, k) =~= x.subrange(i, k));
        lemma_split_replace(x, m1, m2, y, c, k + 1);
        let r1 = split_from(s1, c, k + 1);
        let r2 = split_from(s2, c, k + 1);
        assert(split_from(s1, c, i) == seq![x.subrange(i, k)] + r1);
        assert(split_from(s2, c, i) == seq![x.subrange(i, k)] + r2);
        assert forall|j: int| 0 <= j < split_from(s1, c, i).len() implies #[trigger] split_from(s1, c, i)[j]
            == split_from(s2, c, i)[j] || (split_from(s1, c, i)[j] == m1 && split_from(s2, c, i)[j] == m2) by {
            if j > 0 {
                assert(split_from(s1, c, i)[j] == r1[j - 1]);
                assert(split_from(s2, c, i)[j] == r2[j - 1]);
            }
        }
    } else {
        if i < x.len() {
            assert(x[x.len() - 1] == c);
        }
        assert(i == x.len());
        if y.len() > 0 {
            assert(find(y, c, 0) == 0);
        }
        assert(s1.subrange(i, (x.len() + m1.len()) as int) =~= m1);
        assert(s2.subrange(i, (x.len() + m2.len()) as int) =~= m2);
        if y.len() > 0 {
            lemma_split_shift(x + m1, y, c, 1);
            lemma_split_shift(x + m2, y, c, 1);
            assert(split_from(s1, c, i) == seq![m1] + split_from(y, c, 1));
            assert(split_from(s2, c, i) == seq![m2] + split_from(y, c, 1));
            assert forall|j: int| 0 <= j < split_from(s1, c, i).len() implies #[trigger] split_from(s1, c, i)[j]
                == split_from(s2, c, i)[j] || (split_from(s1, c, i)[j] == m1 && split_from(s2, c, i)[j] == m2) by {
                if j > 0 {
                    assert(split_from(s1, c, i)[j] == split_from(y, c, 1)[j - 1]);
                    assert(split_from(s2, c, i)[j] == split_from(y, c, 1)[j - 1]);
                }
            }
        } else {
            assert(split_from(s1, c, i) == seq![m1]);
            assert(split_from(s2, c, i) == seq![m2]);
        }
    }
}

/// Where `skip_ws` stops, the character is no whitespace.
proof fn lemma_skip_ws_stops(s: Seq<char>, i: int)
    requires
        0 <= i <= s.len(),
    ensures
        skip_ws(s, i) < s.len() ==> !spec_is_whitespace(s[skip_ws(s, i)]),
    decreases s.len() - i,
{
    if i < s.len() && spec_is_whitespace(s[i]) {
        lemma_skip_ws_stops(s, i + 1);
    }
}

/// Where `back_ws` stops above `lo`, the character before is no whitespace.
proof fn lemma_back_ws_stops(s: Seq<char>, lo: int, j: int)
    requires
        0 <= lo <= j <= s.len(),
    ensures
        back_ws(s, lo, j) > lo ==> !spec_is_whitespace(s[back_ws(s, lo, j) - 1]),
    decreases j - lo,
{
    if lo < j && spec_is_whitespace(s[j - 1]) {
        lemma_back_ws_stops(s, lo, j - 1);
    }
}

/// Text that starts and ends with no whitespace trims to itself.
pub proof fn lemma_trim_bare(s: Seq<char>)
    requires
        s.len() > 0 ==> !spec_is_whitespace(s[0]) && !spec_is_whitespace(s.last()),
    ensures
        spec_trim(s) == s,
{
    if s.len() > 0 {
        assert(skip_ws(s, 0) == 0);
        assert(back_ws(s, 0, s.len() as int) == s.len());
    }
    assert(s.subrange(0, s.len() as int) =~= s);
}

/// Trimming twice is trimming once.
pub proof fn lemma_trim_twice(s: Seq<char>)
    ensures
        spec_trim(spec_trim(s)) == spec_trim(s),
{
    let lo = skip_ws(s, 0);
    lemma_skip_ws_bounds(s, 0);
    lemma_back_ws_bounds(s, lo, s.len() as int);
    lemma_skip_ws_stops(s, 0);
    lemma_back_ws_stops(s, lo, s.len() as int);
    let hi = back_ws(s, lo, s.len() as int);
    let t = spec_trim(s);
    if t.len() > 0 {
        assert(t[0] == s[lo]);
        assert(t.last() == s[hi - 1]);
    }
    lemma_trim_bare(t);
}

/// `str::trim` drops trailing whitespace: `s` followed by whitespace
/// trims to what `s` trims to.
pub proof fn lemma_trim_padded(s: Seq<char>, pad: Seq<char>)
    requires
        forall|k: int| 0 <= k < pad.len() ==> spec_is_whitespace(#[trigger] pad[k]),
    ensures
        spec_trim(s + pad) == spec_trim(s),
    decreases pad.len(),
{
    if pad.len() > 0 {
        let t = s + pad.drop_last();
        lemma_trim_padded(s, pad.drop_last());
        assert(s + pad =~= t.push(pad.last()));
        lemma_trim_push(t, pad.last());
    }
}

/// One whitespace character more at the end changes no trim.
proof fn lemma_trim_push(s: Seq<char>, w: char)
    requires
        spec_is_whitespace(w),
    ensures
        spec_trim(s.push(w)) == spec_trim(s),
{
    let t = s.push(w);
    lemma_skip_push(s, w, 0);
    lemma_skip_ws_bounds(s, 0);
    let lo = skip_ws(s, 0);
    if lo < s.len() {
        lemma_back_push(s, w, lo);
        lemma_back_ws_bounds(s, lo, s.len() as int);
        assert(t.subrange(lo, back_ws(s, lo, s.len() as int)) =~= s.subrange(lo, back_ws(s, lo, s.len() as int)));
    } else {
        assert(spec_trim(t) =~= Seq::<char>::empty());
        assert(spec_trim(s) =~= Seq::<char>::empty());
    }
}

/// Skipping leading whitespace with one whitespace character more at
/// the end.
proof fn lemma_skip_push(s: Seq<char>, w: char, i: int)
    requires
        spec_is_whitespace(w),
        0 <= i <= s.len(),
    ensures
        skip_ws(s.push(w), i) == if skip_ws(s, i) < s.len() {
            skip_ws(s, i)
        } else {
            s.len() + 1int
        },
    decreases s.len() - i,
{
    lemma_skip_ws_bounds(s, i);
    if i < s.len() {
        assert(s.push(w)[i] == s[i]);
        lemma_skip_push(s, w, i + 1);
    } else {
        assert(s.push(w)[i] == w);
        assert(skip_ws(s.push(w), i + 1) == i + 1);
    }
}

/// Trimming the end of `s` with a whitespace character more at the end.
proof fn lemma_back_push(s: Seq<char>, w: char, lo: int)
    requires
        spec_is_whitespace(w),
        0 <= lo < s.len(),
    ensures
        back_ws(s.push(w), lo, s.len() + 1int) == back_ws(s, lo, s.len() as int),
{
    assert(s.push(w)[s.len() as int] == w);
    lemma_back_prefix(s, w, lo, s.len() as int);
}

/// `back_ws` up to `j` in `s` and in `s` with one more character agree.
proof fn lemma_back_prefix(s: Seq<char>, w: char, lo: int, j: int)
    requires
        0 <= lo <= j <= s.len(),
    ensures
        back_ws(s.push(w), lo, j) == back_ws(s, lo, j),
    decreases j - lo,
{
    if lo < j {
        assert(s.push(w)[j - 1] == s[j - 1]);
        lemma_back_prefix(s, w, lo, j - 1);
    }
}

/// The characters each vector holds.
pub open spec fn views(v: Seq<Vec<char>>) -> Seq<Seq<char>> {
    v.map_values(|x: Vec<char>| x@)
}

/// `str::split` on one character: every piece between occurrences of `c`.
pub fn split_all(v: &Vec<char>, c: char) -> (r: Vec<Vec<char>>)
    ensures
        views(r@) == split_from(v@, c, 0),
{
    let mut r: Vec<Vec<char>> = Vec::new();
    let mut i: usize = 0;
    loop
        invariant
            i <= v.len(),
            views(r@) + split_from(v@, c, i as int) == split_from(v@, c, 0),
        decreases v.len() - i,
    {
        let k = find_char(v, c, i);
        proof {
            lemma_find(v@, c, i as int);
        }
        let piece = slice(v, i, k);
        let ghost before = r@;
        r.push(piece);
        proof {
            assert(views(r@) =~= views(before).push(piece@));
        }
        if k < v.len() {
            proof {
                assert(split_from(v@, c, i as int) =~= seq![piece@] + split_from(v@, c, k + 1));
                assert(views(r@) + split_from(v@, c, k + 1) =~= views(before) + split_from(v@, c, i as int));
            }
            i = k + 1;
        } else {
            proof {
                assert(split_from(v@, c, i as int) =~= seq![piece@]);
                assert(views(r@) =~= views(before) + split_from(v@, c, i as int));
            }
            return r;
        }
    }
}

/// The character for a decimal digit.
pub open spec fn spec_digit(d: int) -> char {
    if d == 0 {
        '0'
    } else if d == 1 {
        '1'
    } else if d == 2 {
        '2'
    } else if d == 3 {
        '3'
    } else if d == 4 {
        '4'
    } else if d == 5 {
        '5'
    } else if d == 6 {
        '6'
    } else if d == 7 {
        '7'
    } else if d == 8 {
        '8'
    } else {
        '9'
    }
}

/// The decimal digits of `n`, as `{}` writes an integer.
pub open spec fn spec_decimal(n: nat) -> Seq<char>
    decreases n,
{
    if n < 10 {
        seq![spec_digit(n as int)]
    } else {
        spec_decimal(n / 10).push(spec_digit((n % 10) as int))
    }
}

/// The character for a decimal digit.
fn digit(d: usize) -> (c: char)
    requires
        d < 10,
    ensures
        c == spec_digit(d as int),
{
    match d {
        0 => '0',
        1 => '1',
        2 => '2',
        3 => '3',
        4 => '4',
        5 => '5',
        6 => '6',
        7 => '7',
        8 => '8',
        _ => '9',
    }
}

/// The decimal digits of `n`.
pub fn decimal(n: usize) -> (r: Vec<char>)
    ensures
        r@ == spec_decimal(n as nat),
    decreases n,
{
    if n < 10 {
        let mut r = Vec::new();
        r.push(digit(n));
        proof {
            assert(r@ =~= seq![spec_digit(n as int)]);
        }
        r
    } else {
        let mut r = decimal(n / 10);
        r.push(digit(n % 10));
        r
    }
}

/// `a` followed by `b`, as a new vector.
pub fn concat(a: &Vec<char>, b: &Vec<char>) -> (r: Vec<char>)
    ensures
        r@ == a@ + b@,
{
    let mut r: Vec<char> = Vec::new();
    let mut i: usize = 0;
    while i < a.len()
        invariant
            i <= a.len(),
            r@ == a@.subrange(0, i as int),
        decreases a.len() - i,
    {
        r.push(a[i]);
        proof {
            assert(a@.subrange(0, i + 1) =~= a@.subrange(0, i as int).push(a@[i as int]));
        }
        i = i + 1;
    }
    let mut j: usize = 0;
    while j < b.len()
        invariant
            i == a.len(),
            j <= b.len(),
            r@ == a@ + b@.subrange(0, j as int),
        decreases b.len() - j,
    {
        r.push(b[j]);
        proof {
            assert(a@ + b@.subrange(0, j + 1) =~= (a@ + b@.subrange(0, j as int)).push(b@[j as int]));
        }
        j = j + 1;
    }
    proof {
        assert(b@.subrange(0, b@.len() as int) =~= b@);
    }
    r
}

/// The characters of a string literal followed by `b`.
pub fn lit_then(a: &str, b: &Vec<char>) -> (r: Vec<char>)
    ensures
        r@ == a@ + b@,
{
    concat(&chars_of(a), b)
}

} // verus!
