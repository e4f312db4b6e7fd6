//! UTF-16 ("wide") views of a path, as the Windows API sees it.
use vstd::prelude::*;

verus! {

/// Number of UTF-16 code units that encode `c`.
pub open spec fn char_wide_len(c: char) -> nat {
    if (c as u32) < 0x10000 {
        1
    } else {
        2
    }
}

/// Number of UTF-16 code units that encode the whole of `s`.
pub open spec fn wide_len(s: Seq<char>) -> nat
    decreases s.len(),
{
    if s.len() == 0 {
        0
    } else {
        wide_len(s.drop_last()) + char_wide_len(s.last())
    }
}

/// The UTF-16 encoding of one character (a surrogate pair above the BMP).
pub open spec fn encode_utf16_char(c: char) -> Seq<u16> {
    let v = c as u32;
    if v < 0x10000 {
        seq![v as u16]
    } else {
        let u = (v - 0x10000) as int;
        seq![(0xD800 + u / 0x400) as u16, (0xDC00 + u % 0x400) as u16]
    }
}

/// The UTF-16 encoding of `s`.
pub open spec fn encode_utf16(s: Seq<char>) -> Seq<u16>
    decreases s.len(),
{
    if s.len() == 0 {
        seq![]
    } else {
        encode_utf16(s.drop_last()) + encode_utf16_char(s.last())
    }
}

/// The encoding has exactly as many units as `wide_len` counts.
pub proof fn lemma_encode_utf16_len(s: Seq<char>)
    ensures
        encode_utf16(s).len() == wide_len(s),
    decreases s.len(),
{
    if s.len() > 0 {
        lemma_encode_utf16_len(s.drop_last());
    }
}

/// `wide_len` adds up over concatenation.
pub proof fn lemma_wide_len_concat(a: Seq<char>, b: Seq<char>)
    ensures
        wide_len(a + b) == wide_len(a) + wide_len(b),
    decreases b.len(),
{
    if b.len() > 0 {
        assert((a + b).drop_last() =~= a + b.drop_last());
        lemma_wide_len_concat(a, b.drop_last());
    } else {
        assert(a + b =~= a);
    }
}

/// A text of ASCII-range characters takes one unit per character.
pub proof fn lemma_wide_len_small(s: Seq<char>)
    requires
        forall|i: int| 0 <= i < s.len() ==> (s[i] as u32) < 0x10000,
    ensures
        wide_len(s) == s.len(),
    decreases s.len(),
{
    if s.len() > 0 {
        lemma_wide_len_small(s.drop_last());
    }
}

/// Number of UTF-16 units of one character.
fn char_units(c: char) -> (r: u64)
    ensures
        r == char_wide_len(c),
{
    if (c as u32) < 0x10000 {
        1
    } else {
        2
    }
}

/// Whether the UTF-16 form of `path` has more than `max` code units.
pub fn is_wide_longer_than(path: &str, max: u32) -> (r: bool)
    ensures
        r == (wide_len(path@) > max),
{
    let mut count: u64 = 0;
    for c in it: path.chars()
        invariant
            it.seq() == path@,
            count == wide_len(it.seq().take(it.index() as int)),
            count <= max,
    {
        let ghost k = it.index() as int;
        assert(it.seq().take(k + 1).drop_last() =~= it.seq().take(k));
        count = count + char_units(c);
        if count > max as u64 {
            proof {
                lemma_wide_len_concat(path@.take(k + 1), path@.skip(k + 1));
                assert(path@.take(k + 1) + path@.skip(k + 1) =~= path@);
            }
            return true;
        }
    }
    proof {
        assert(path@.take(path@.len() as int) =~= path@);
    }
    false
}

/// The UTF-16 units of one character, appended to `out`.
fn push_char_units(out: &mut Vec<u16>, c: char)
    ensures
        final(out)@ == old(out)@ + encode_utf16_char(c),
{
    let v = c as u32;
    if v < 0x10000 {
        out.push(v as u16);
    } else {
        let u = v - 0x10000;
        proof {
            vstd::utf8::char_is_scalar(c);
        }
        assert(u <= 0x10FFFF - 0x10000);
        out.push((0xD800 + u / 0x400) as u16);
        out.push((0xDC00 + u % 0x400) as u16);
    }
    assert(final(out)@ =~= old(out)@ + encode_utf16_char(c));
}

/// The UTF-16 form of `path`, followed by a terminating zero unit.
pub fn to_wide_vec_with_nul(path: &str) -> (r: Vec<u16>)
    ensures
        r@ == encode_utf16(path@).push(0u16),
{
    let mut out: Vec<u16> = Vec::new();
    for c in it: path.chars()
        invariant
            it.seq() == path@,
            out@ == encode_utf16(it.seq().take(it.index() as int)),
    {
        let ghost k = it.index() as int;
        assert(it.seq().take(k + 1).drop_last() =~= it.seq().take(k));
        push_char_units(&mut out, c);
    }
    proof {
        assert(path@.take(path@.len() as int) =~= path@);
    }
    out.push(0u16);
    out
}

/// The wide length test and the wide encoding agree: `path` is longer than `max`
/// units exactly when its terminated encoding holds more than `max + 1` units.
pub proof fn law_wide_length_matches_encoding(path: Seq<char>, max: u32)
    ensures
        (wide_len(path) > max) == (encode_utf16(path).push(0u16).len() > max + 1),
{
    lemma_encode_utf16_len(path);
}

} // verus!
