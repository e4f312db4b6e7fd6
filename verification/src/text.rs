//! Character-level helpers shared by the path modules.
use vstd::prelude::*;

verus! {

/// The code of `c` with ASCII lower-case letters mapped to upper case.
pub open spec fn ascii_upper(c: char) -> u32 {
    if 'a' <= c && c <= 'z' {
        (c as u32 - 32) as u32
    } else {
        c as u32
    }
}

/// Whether `c` is an ASCII letter.
pub open spec fn is_ascii_letter(c: char) -> bool {
    ('a' <= c && c <= 'z') || ('A' <= c && c <= 'Z')
}

pub fn ascii_upper_of(c: char) -> (r: u32)
    ensures
        r == ascii_upper(c),
{
    if c >= 'a' && c <= 'z' {
        (c as u32) - 32
    } else {
        c as u32
    }
}

pub fn is_ascii_letter_exec(c: char) -> (r: bool)
    ensures
        r == is_ascii_letter(c),
{
    (c >= 'a' && c <= 'z') || (c >= 'A' && c <= 'Z')
}

/// Collects the characters of `s` in order.
pub fn chars_of(s: &str) -> (v: Vec<char>)
    ensures
        v@ == s@,
{
    let mut v: Vec<char> = Vec::new();
    for c in it: s.chars()
        invariant
            v@ == it.seq().take(it.index() as int),
            it.seq() == s@,
    {
        v.push(c);
    }
    proof {
        assert(s@.take(s@.len() as int) =~= s@);
    }
    v
}

/// Whether two ranges of characters hold the same text.
pub fn range_eq(a: &Vec<char>, a0: usize, a1: usize, b: &Vec<char>, b0: usize, b1: usize) -> (r:
    bool)
    requires
        a0 <= a1 <= a@.len(),
        b0 <= b1 <= b@.len(),
    ensures
        r == (a@.subrange(a0 as int, a1 as int) == b@.subrange(b0 as int, b1 as int)),
{
    if a1 - a0 != b1 - b0 {
        assert(a@.subrange(a0 as int, a1 as int).len() != b@.subrange(b0 as int, b1 as int).len());
        return false;
    }
    let len = a1 - a0;
    let ghost sa = a@.subrange(a0 as int, a1 as int);
    let ghost sb = b@.subrange(b0 as int, b1 as int);
    let mut i: usize = 0;
    while i < len
        invariant
            len == a1 - a0,
            len == b1 - b0,
            a0 <= a1 <= a@.len(),
            b0 <= b1 <= b@.len(),
            i <= len,
            sa == a@.subrange(a0 as int, a1 as int),
            sb == b@.subrange(b0 as int, b1 as int),
            forall|k: int| 0 <= k < i ==> #[trigger] sa[k] == sb[k],
        decreases len - i,
    {
        if a[a0 + i] != b[b0 + i] {
            assert(sa[i as int] != sb[i as int]);
            return false;
        }
        i = i + 1;
    }
    assert(a@.subrange(a0 as int, a1 as int) =~= b@.subrange(b0 as int, b1 as int));
    true
}

/// Appends `c` to `s` (`String::push`).
#[verifier::external_body]
pub(crate) fn string_push(s: &mut String, c: char)
    ensures
        final(s)@ == old(s)@.push(c),
{
    s.push(c);
}

} // verus!
