//! The numbers a config file may hold.
//!
//! Lengths and fractions are floating point in the host, which owns all
//! geometry; the library keeps them as the text that was written and
//! checks here that the text is a number in the grammar `f32`'s
//! `FromStr` documents, so that the host's conversion cannot fail.
//! Whole numbers (milliseconds) are read to a `u64` here.
use vstd::prelude::*;

verus! {

/// An ASCII decimal digit.
pub open spec fn is_digit(c: char) -> bool {
    '0' <= c && c <= '9'
}

/// The first position at or after `i` that is not a digit.
pub open spec fn digits_end(s: Seq<char>, i: int) -> int
    decreases s.len() - i,
{
    if 0 <= i < s.len() && is_digit(s[i]) {
        digits_end(s, i + 1)
    } else {
        i
    }
}

/// The upper-case form of the letters the grammar uses.
pub open spec fn upper(c: char) -> char {
    if c == 'i' {
        'I'
    } else if c == 'n' {
        'N'
    } else if c == 'f' {
        'F'
    } else if c == 't' {
        'T'
    } else if c == 'y' {
        'Y'
    } else if c == 'a' {
        'A'
    } else if c == 'e' {
        'E'
    } else {
        c
    }
}

/// `s` spells the lower-case word `w`, in either case.
pub open spec fn spells(s: Seq<char>, w: Seq<char>) -> bool {
    &&& s.len() == w.len()
    &&& forall|k: int| 0 <= k < s.len() ==> s[k] == w[k] || s[k] == upper(w[k])
}

/// An optional sign, then digits; returns where the digits begin.
pub open spec fn after_sign(s: Seq<char>, i: int) -> int {
    if 0 <= i < s.len() && (s[i] == '+' || s[i] == '-') {
        i + 1
    } else {
        i
    }
}

/// `Number ::= ( Digit+ | Digit+ '.' Digit* | Digit* '.' Digit+ ) Exp?`
/// with `Exp ::= 'e' Sign? Digit+`, over the whole of `r`.
pub open spec fn is_decimal(r: Seq<char>) -> bool {
    let a = digits_end(r, 0);
    let dot = a < r.len() && r[a] == '.';
    let b = if dot {
        digits_end(r, a + 1)
    } else {
        a
    };
    let frac = if dot {
        b - (a + 1)
    } else {
        0
    };
    &&& (a > 0 || frac > 0)
    &&& (b == r.len() || ((r[b] == 'e' || r[b] == 'E') && {
        let c = after_sign(r, b + 1);
        let d = digits_end(r, c);
        d > c && d == r.len()
    }))
}

/// The text `f32::from_str` accepts: `Sign? ( 'inf' | 'infinity' | 'nan'
/// | Number )`, letters in either case.
pub open spec fn is_float_text(s: Seq<char>) -> bool {
    let r = s.subrange(after_sign(s, 0), s.len() as int);
    spells(r, "inf"@) || spells(r, "infinity"@) || spells(r, "nan"@) || is_decimal(r)
}

/// Where `digits_end` lands.
pub proof fn lemma_digits_end(s: Seq<char>, i: int)
    requires
        0 <= i <= s.len(),
    ensures
        i <= digits_end(s, i) <= s.len(),
        forall|k: int| i <= k < digits_end(s, i) ==> is_digit(s[k]),
        digits_end(s, i) < s.len() ==> !is_digit(s[digits_end(s, i)]),
    decreases s.len() - i,
{
    if i < s.len() && is_digit(s[i]) {
        lemma_digits_end(s, i + 1);
    }
}

/// The first position at or after `i` that is not a digit.
fn scan_digits(v: &Vec<char>, i: usize) -> (k: usize)
    requires
        i <= v.len(),
    ensures
        k == digits_end(v@, i as int),
{
    let mut k = i;
    while k < v.len() && '0' <= v[k] && v[k] <= '9'
        invariant
            i <= k <= v.len(),
            digits_end(v@, k as int) == digits_end(v@, i as int),
        decreases v.len() - k,
    {
        k = k + 1;
    }
    k
}

/// True when `v[from..]` spells `word` in either case.
fn spells_from(v: &Vec<char>, from: usize, word: &str) -> (b: bool)
    requires
        from <= v.len(),
        word@ == "inf"@ || word@ == "infinity"@ || word@ == "nan"@,
    ensures
        b == spells(v@.subrange(from as int, v@.len() as int), word@),
{
    let w = crate::text::chars_of(word);
    if v.len() - from != w.len() {
        return false;
    }
    let mut k: usize = 0;
    while k < w.len()
        invariant
            from <= v.len(),
            v.len() - from == w.len(),
            w@ == word@,
            k <= w.len(),
            forall|j: int| 0 <= j < k ==> v@[from + j] == w@[j] || v@[from + j] == upper(w@[j]),
        decreases w.len() - k,
    {
        let c = v[from + k];
        let l = w[k];
        let u = if l == 'i' {
            'I'
        } else if l == 'n' {
            'N'
        } else if l == 'f' {
            'F'
        } else if l == 't' {
            'T'
        } else if l == 'y' {
            'Y'
        } else if l == 'a' {
            'A'
        } else if l == 'e' {
            'E'
        } else {
            l
        };
        if c != l && c != u {
            return false;
        }
        k = k + 1;
    }
    true
}

/// True when `v` is a number `f32::from_str` accepts.
pub fn is_float(v: &Vec<char>) -> (b: bool)
    ensures
        b == is_float_text(v@),
{
    let s: usize = if v.len() > 0 && (v[0] == '+' || v[0] == '-') {
        1
    } else {
        0
    };
    let ghost r = v@.subrange(s as int, v@.len() as int);
    proof {
        reveal_strlit("inf");
        reveal_strlit("infinity");
        reveal_strlit("nan");
    }
    if spells_from(v, s, "inf") || spells_from(v, s, "infinity") || spells_from(v, s, "nan") {
        return true;
    }
    let rest = crate::text::slice(v, s, v.len());
    assert(rest@ == r);
    let a = scan_digits(&rest, 0);
    proof {
        lemma_digits_end(r, 0);
    }
    let dot = a < rest.len() && rest[a] == '.';
    let b = if dot {
        proof {
            lemma_digits_end(r, a + 1);
        }
        scan_digits(&rest, a + 1)
    } else {
        a
    };
    let frac: usize = if dot {
        b - (a + 1)
    } else {
        0
    };
    if a == 0 && frac == 0 {
        return false;
    }
    if b == rest.len() {
        return true;
    }
    if rest[b] != 'e' && rest[b] != 'E' {
        return false;
    }
    let c: usize = if b + 1 < rest.len() && (rest[b + 1] == '+' || rest[b + 1] == '-') {
        b + 2
    } else {
        b + 1
    };
    proof {
        lemma_digits_end(r, c as int);
    }
    let d = scan_digits(&rest, c);
    d > c && d == rest.len()
}

/// The value of the digits `s[i..j]`.
pub open spec fn digits_value(s: Seq<char>, i: int, j: int) -> nat
    decreases j - i,
{
    if j <= i {
        0
    } else {
        digits_value(s, i, j - 1) * 10 + ((s[j - 1] as int - '0' as int) as nat)
    }
}

/// What `u64::from_str` makes of `s`: an optional `+` and then one or
/// more digits, whose value must fit.
pub open spec fn spec_parse_u64(s: Seq<char>) -> Option<u64> {
    let i = if s.len() > 0 && s[0] == '+' {
        1int
    } else {
        0int
    };
    if s.len() > i && digits_end(s, i) == s.len() && digits_value(s, i, s.len() as int)
        <= u64::MAX {
        Some(digits_value(s, i, s.len() as int) as u64)
    } else {
        None
    }
}

/// A longer run of digits is worth at least as much.
proof fn lemma_digits_value_grows(s: Seq<char>, i: int, j: int, k: int)
    requires
        i <= j <= k <= s.len(),
        forall|q: int| i <= q < k ==> is_digit(s[q]),
    ensures
        digits_value(s, i, j) <= digits_value(s, i, k),
    decreases k - j,
{
    if j < k {
        lemma_digits_value_grows(s, i, j, k - 1);
    }
}

/// `u64::from_str` on characters.
pub fn parse_u64(v: &Vec<char>) -> (r: Option<u64>)
    ensures
        r == spec_parse_u64(v@),
{
    let i: usize = if v.len() > 0 && v[0] == '+' {
        1
    } else {
        0
    };
    assert(i as int == (if v@.len() > 0 && v@[0] == '+' { 1int } else { 0int }));
    if v.len() <= i {
        return None;
    }
    let end = scan_digits(v, i);
    proof {
        lemma_digits_end(v@, i as int);
    }
    if end != v.len() {
        return None;
    }
    let mut acc: u128 = 0;
    let mut k: usize = i;
    while k < v.len()
        invariant
            i as int == (if v@.len() > 0 && v@[0] == '+' { 1int } else { 0int }),
            v@.len() > i,
            i <= k <= v.len(),
            digits_end(v@, i as int) == v@.len(),
            forall|q: int| i <= q < v@.len() ==> is_digit(v@[q]),
            acc == digits_value(v@, i as int, k as int),
            acc <= u64::MAX,
        decreases v.len() - k,
    {
        let d: u128 = (v[k] as u32 - '0' as u32) as u128;
        let next = acc * 10 + d;
        assert(next == digits_value(v@, i as int, k + 1));
        if next > u64::MAX as u128 {
            proof {
                lemma_digits_value_grows(v@, i as int, k + 1, v@.len() as int);
            }
            return None;
        }
        acc = next;
        k = k + 1;
    }
    Some(acc as u64)
}

} // verus!
