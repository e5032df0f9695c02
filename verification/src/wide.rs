//! UTF-16 text, as the Win32 API hands it over and takes it back: fixed
//! buffers of `u16` with a length or a terminating zero.
use vstd::prelude::*;

verus! {

/// A high (leading) surrogate.
pub open spec fn is_high(u: u16) -> bool {
    0xD800 <= u <= 0xDBFF
}

/// A low (trailing) surrogate.
pub open spec fn is_low(u: u16) -> bool {
    0xDC00 <= u <= 0xDFFF
}

/// The character a surrogate pair stands for.
pub open spec fn pair_char(hi: u16, lo: u16) -> char {
    (0x10000 + (hi - 0xD800) * 0x400 + (lo - 0xDC00)) as char
}

/// UTF-16 decoded with every unpaired surrogate replaced by U+FFFD.
pub open spec fn lossy(units: Seq<u16>) -> Seq<char>
    decreases units.len(),
{
    if units.len() == 0 {
        Seq::empty()
    } else if !is_high(units[0]) && !is_low(units[0]) {
        seq![units[0] as char] + lossy(units.drop_first())
    } else if is_high(units[0]) && units.len() >= 2 && is_low(units[1]) {
        seq![pair_char(units[0], units[1])] + lossy(units.subrange(2, units.len() as int))
    } else {
        seq!['\u{FFFD}'] + lossy(units.drop_first())
    }
}

/// The UTF-16 code units of one character.
pub open spec fn units_of(c: char) -> Seq<u16> {
    if (c as int) < 0x10000 {
        seq![c as u16]
    } else {
        let v = c as int - 0x10000;
        seq![(0xD800 + v / 0x400) as u16, (0xDC00 + v % 0x400) as u16]
    }
}

/// The UTF-16 code units of a string.
pub open spec fn utf16(s: Seq<char>) -> Seq<u16>
    decreases s.len(),
{
    if s.len() == 0 {
        Seq::empty()
    } else {
        utf16(s.drop_last()) + units_of(s.last())
    }
}

/// `String::from_utf16_lossy`: the units decoded, each unpaired surrogate
/// replaced by U+FFFD, as its documentation says.
#[verifier::external_body]
fn from_utf16_lossy(units: &[u16]) -> (s: String)
    ensures
        s@ == lossy(units@),
{
    String::from_utf16_lossy(units)
}

/// `str::encode_utf16`, collected: the string's UTF-16 code units in
/// order, each character as one unit or a surrogate pair.
#[verifier::external_body]
fn encode_utf16(text: &str) -> (v: Vec<u16>)
    ensures
        v@ == utf16(text@),
{
    text.encode_utf16().collect()
}

/// The text of a wide buffer the OS filled with `len` units (clamped to
/// the buffer), unpaired surrogates replaced.
pub fn wide_to_string(buf: &[u16], len: usize) -> (s: String)
    ensures
        s@ == lossy(buf@.subrange(0, if len < buf@.len() { len as int } else { buf@.len() as int })),
{
    let n = if len < buf.len() {
        len
    } else {
        buf.len()
    };
    from_utf16_lossy(vstd::slice::slice_subrange(buf, 0, n))
}

/// Copy `text` into a fixed wide buffer as a zero-terminated string,
/// truncated to fit; the rest of the buffer is left as it was.
pub fn fill(dst: &mut Vec<u16>, text: &str)
    requires
        old(dst)@.len() >= 1,
    ensures
        ({
            let n = if utf16(text@).len() < old(dst)@.len() - 1 {
                utf16(text@).len() as int
            } else {
                old(dst)@.len() - 1
            };
            final(dst)@ == utf16(text@).subrange(0, n) + seq![0u16] + old(dst)@.subrange(
                n + 1,
                old(dst)@.len() as int,
            )
        }),
{
    let units = encode_utf16(text);
    let room = dst.len() - 1;
    let n = if units.len() < room {
        units.len()
    } else {
        room
    };
    let ghost d0 = dst@;
    let mut i: usize = 0;
    while i < n
        invariant
            n <= units@.len(),
            n < d0.len(),
            dst@.len() == d0.len(),
            i <= n,
            forall|k: int| 0 <= k < i ==> dst@[k] == units@[k],
            forall|k: int| i <= k < d0.len() ==> dst@[k] == d0[k],
        decreases n - i,
    {
        dst.set(i, units[i]);
        i = i + 1;
    }
    dst.set(n, 0);
    proof {
        let want = units@.subrange(0, n as int) + seq![0u16] + d0.subrange(n + 1, d0.len() as int);
        assert(dst@ =~= want);
    }
}

} // verus!
