//! When a `\\?\C:\...` path can lose its `\\?\` namespace prefix.
//!
//! The plain form is only equivalent when every component is a name that the
//! legacy Win32 rules accept unchanged: no reserved DOS device names, no
//! forbidden characters, no trailing dots or spaces, no `.` or `..`, and the
//! whole path within `MAX_PATH`.
use vstd::prelude::*;
use crate::components::{components, parse_components, Component, ComponentKind, PrefixKind};
use crate::text::{ascii_upper, ascii_upper_of, chars_of};
use crate::wide::{char_wide_len, is_wide_longer_than, wide_len};
use crate::MAX_PATH;

verus! {

/// The longest file name, in UTF-16 units.
pub const MAX_FILE_NAME: u64 = 255;

/// A character that a file name may not hold.
pub open spec fn is_forbidden_char(c: char) -> bool {
    (c as u32) <= 31 || c == '<' || c == '>' || c == ':' || c == '"' || c == '/' || c == '\\' || c
        == '|' || c == '?' || c == '*'
}

/// A file name that the legacy rules accept unchanged.
pub open spec fn is_valid_filename(name: Seq<char>) -> bool {
    &&& wide_len(name) <= MAX_FILE_NAME
    &&& name.len() > 0
    &&& forall|i: int| 0 <= i < name.len() ==> !is_forbidden_char(#[trigger] name[i])
    &&& name.last() != ' ' && name.last() != '.'
}

/// Index of the last `.` in `s`, or -1.
pub open spec fn last_dot(s: Seq<char>) -> int
    decreases s.len(),
{
    if s.len() == 0 {
        -1
    } else if s.last() == '.' {
        s.len() - 1
    } else {
        last_dot(s.drop_last())
    }
}

/// The file name without its extension (a leading dot does not start one).
pub open spec fn file_stem(s: Seq<char>) -> Seq<char> {
    let d = last_dot(s);
    if d > 0 {
        s.subrange(0, d)
    } else {
        s
    }
}

/// `s` without trailing dots and spaces.
pub open spec fn right_trim(s: Seq<char>) -> Seq<char>
    decreases s.len(),
{
    if s.len() > 0 && (s.last() == ' ' || s.last() == '.') {
        right_trim(s.drop_last())
    } else {
        s
    }
}

pub open spec fn word3(t: Seq<char>, a: char, b: char, c: char) -> bool {
    ascii_upper(t[0]) == a as u32 && ascii_upper(t[1]) == b as u32 && ascii_upper(t[2]) == c as u32
}

/// One of the reserved DOS device names `AUX`, `NUL`, `PRN`, `CON`,
/// `COM1`..`COM9`, `LPT1`..`LPT9`, in any case.
pub open spec fn is_reserved_word(t: Seq<char>) -> bool {
    ||| t.len() == 3 && (word3(t, 'A', 'U', 'X') || word3(t, 'N', 'U', 'L') || word3(
        t,
        'P',
        'R',
        'N',
    ) || word3(t, 'C', 'O', 'N'))
    ||| t.len() == 4 && (word3(t, 'C', 'O', 'M') || word3(t, 'L', 'P', 'T')) && '1' <= t[3]
        && t[3] <= '9'
}

/// A file name that DOS reads as a device (`con.txt` and `con .` too).
pub open spec fn is_reserved(name: Seq<char>) -> bool {
    is_reserved_word(right_trim(file_stem(name)))
}

/// The component at `k` of `s` may stand after a plain drive prefix.
pub open spec fn plain_component_ok(s: Seq<char>, c: Component) -> bool {
    c.kind == ComponentKind::RootDir || (c.kind == ComponentKind::Normal && is_valid_filename(
        s.subrange(c.start as int, c.end as int),
    ) && !is_reserved(s.subrange(c.start as int, c.end as int)))
}

/// `s` is a `\\?\C:\...` path that means the same without `\\?\`.
pub open spec fn is_safe_to_strip_unc(s: Seq<char>) -> bool {
    let cs = components(s);
    &&& cs.len() >= 1
    &&& match cs[0].kind {
        ComponentKind::Prefix(x) => x.kind == PrefixKind::VerbatimDisk,
        _ => false,
    }
    &&& forall|k: int| 1 <= k < cs.len() ==> plain_component_ok(s, #[trigger] cs[k])
    &&& wide_len(s) <= MAX_PATH
}

/// The plain form of `s` when it is safe to drop `\\?\`.
pub open spec fn verbatim_disk_simplified(s: Seq<char>) -> Option<Seq<char>> {
    if is_safe_to_strip_unc(s) {
        Some(s.subrange(4, s.len() as int))
    } else {
        None
    }
}

/// Only the short DOS device names are reserved: once the extension and
/// trailing dots and spaces are dropped, a reserved name has three or four
/// characters, its first three are ASCII letters, and a fourth is a digit
/// from 1 to 9. So `config`, `console` or `nullable` are ordinary names.
pub proof fn law_reserved_names_are_short(name: Seq<char>)
    ensures
        is_reserved(name) ==> {
            let t = right_trim(file_stem(name));
            &&& 3 <= t.len() <= 4
            &&& forall|i: int|
                0 <= i < 3 ==> 'A' as u32 <= #[trigger] ascii_upper(t[i]) <= 'Z' as u32
            &&& t.len() == 4 ==> '1' <= t[3] <= '9'
        },
{
}

/// An ASCII letter or digit.
pub open spec fn is_ascii_alnum(c: char) -> bool {
    ('a' <= c && c <= 'z') || ('A' <= c && c <= 'Z') || ('0' <= c && c <= '9')
}

proof fn lemma_no_dot(s: Seq<char>)
    requires
        forall|i: int| 0 <= i < s.len() ==> #[trigger] s[i] != '.',
    ensures
        last_dot(s) == -1,
    decreases s.len(),
{
    if s.len() > 0 {
        assert forall|i: int| 0 <= i < s.drop_last().len() implies #[trigger] s.drop_last()[i]
            != '.' by {
            assert(s.drop_last()[i] == s[i]);
        }
        lemma_no_dot(s.drop_last());
    }
}

/// A name of five to 255 ASCII letters and digits is a valid file name and
/// no DOS device name.
pub proof fn lemma_plain_name(name: Seq<char>)
    requires
        5 <= name.len() <= MAX_FILE_NAME,
        forall|i: int| 0 <= i < name.len() ==> is_ascii_alnum(#[trigger] name[i]),
    ensures
        is_valid_filename(name),
        !is_reserved(name),
{
    crate::wide::lemma_wide_len_small(name);
    lemma_no_dot(name);
    assert(is_ascii_alnum(name[name.len() - 1]));
    assert(file_stem(name) == name);
    assert(right_trim(name) == name);
}

/// A `\\?\C:\...` path whose names are plain (five to 255 ASCII letters and
/// digits) and that fits in `MAX_PATH` UTF-16 units loses its `\\?\`: the
/// result is the path from its fifth character on.
pub proof fn law_plain_disk_path_simplified(p: Seq<char>)
    requires
        p.len() <= usize::MAX,
        components(p).len() >= 1,
        match components(p)[0].kind {
            ComponentKind::Prefix(x) => x.kind == PrefixKind::VerbatimDisk,
            _ => false,
        },
        forall|k: int|
            1 <= k < components(p).len() ==> (#[trigger] components(p)[k]).kind
                == ComponentKind::RootDir || ({
                let c = components(p)[k];
                &&& c.kind == ComponentKind::Normal
                &&& 5 <= c.end - c.start <= MAX_FILE_NAME
                &&& forall|j: int| c.start <= j < c.end ==> is_ascii_alnum(#[trigger] p[j])
            }),
        wide_len(p) <= MAX_PATH,
    ensures
        verbatim_disk_simplified(p) == Some(p.subrange(4, p.len() as int)),
{
    let cs = components(p);
    crate::components::lemma_components_bounds(p);
    assert forall|k: int| 1 <= k < cs.len() implies plain_component_ok(p, #[trigger] cs[k]) by {
        let c = cs[k];
        if c.kind != ComponentKind::RootDir {
            let name = p.subrange(c.start as int, c.end as int);
            assert forall|i: int| 0 <= i < name.len() implies is_ascii_alnum(#[trigger] name[i]) by {
                assert(name[i] == p[c.start + i]);
            }
            lemma_plain_name(name);
        }
    }
}

// ---------------------------------------------------------------------------

proof fn lemma_subrange_drop_last(s: Seq<char>, a: int, j: int)
    requires
        0 <= a < j <= s.len(),
    ensures
        s.subrange(a, j).drop_last() == s.subrange(a, j - 1),
        s.subrange(a, j).last() == s[j - 1],
{
    assert(s.subrange(a, j).drop_last() =~= s.subrange(a, j - 1));
}

/// Whether `s[a..b]` takes more than `max` UTF-16 units.
fn range_wide_longer_than(s: &Vec<char>, a: usize, b: usize, max: u64) -> (r: bool)
    requires
        a <= b <= s@.len(),
        max < u64::MAX - 2,
    ensures
        r == (wide_len(s@.subrange(a as int, b as int)) > max),
{
    let mut i = a;
    let mut count: u64 = 0;
    while i < b
        invariant
            a <= i <= b <= s@.len(),
            max < u64::MAX - 2,
            count == wide_len(s@.subrange(a as int, i as int)),
            count <= max,
        decreases b - i,
    {
        proof {
            lemma_subrange_drop_last(s@, a as int, i + 1);
        }
        let units: u64 = if (s[i] as u32) < 0x10000 {
            1
        } else {
            2
        };
        assert(units == char_wide_len(s@[i as int]));
        count = count + units;
        i = i + 1;
        if count > max {
            proof {
                let t = s@.subrange(a as int, b as int);
                let h = s@.subrange(a as int, i as int);
                assert(t =~= h + s@.subrange(i as int, b as int));
                crate::wide::lemma_wide_len_concat(h, s@.subrange(i as int, b as int));
            }
            return true;
        }
    }
    false
}

fn is_forbidden_char_exec(c: char) -> (r: bool)
    ensures
        r == is_forbidden_char(c),
{
    (c as u32) <= 31 || c == '<' || c == '>' || c == ':' || c == '"' || c == '/' || c == '\\' || c
        == '|' || c == '?' || c == '*'
}

fn is_valid_filename_range(s: &Vec<char>, a: usize, b: usize) -> (r: bool)
    requires
        a <= b <= s@.len(),
    ensures
        r == is_valid_filename(s@.subrange(a as int, b as int)),
{
    let ghost t = s@.subrange(a as int, b as int);
    if range_wide_longer_than(s, a, b, MAX_FILE_NAME) {
        return false;
    }
    if a == b {
        return false;
    }
    let mut i = a;
    while i < b
        invariant
            a <= i <= b <= s@.len(),
            t == s@.subrange(a as int, b as int),
            forall|k: int| 0 <= k < i - a ==> !is_forbidden_char(#[trigger] t[k]),
        decreases b - i,
    {
        if is_forbidden_char_exec(s[i]) {
            assert(is_forbidden_char(t[i - a]));
            return false;
        }
        i = i + 1;
    }
    let last = s[b - 1];
    assert(t.last() == last);
    last != ' ' && last != '.'
}

/// Index just past the last `.` in `s[a..b]`, or `a` when there is none.
fn find_last_dot(s: &Vec<char>, a: usize, b: usize) -> (r: usize)
    requires
        a <= b <= s@.len(),
    ensures
        a <= r <= b,
        r == a ==> last_dot(s@.subrange(a as int, b as int)) == -1,
        r > a ==> last_dot(s@.subrange(a as int, b as int)) == r - 1 - a,
{
    let mut j = b;
    while j > a && s[j - 1] != '.'
        invariant
            a <= j <= b <= s@.len(),
            last_dot(s@.subrange(a as int, j as int)) == last_dot(s@.subrange(a as int, b as int)),
        decreases j,
    {
        proof {
            lemma_subrange_drop_last(s@, a as int, j as int);
        }
        j = j - 1;
    }
    if j > a {
        proof {
            lemma_subrange_drop_last(s@, a as int, j as int);
        }
    }
    j
}

/// End of `s[a..b]` once trailing dots and spaces are trimmed.
fn trim_end(s: &Vec<char>, a: usize, b: usize) -> (r: usize)
    requires
        a <= b <= s@.len(),
    ensures
        a <= r <= b,
        right_trim(s@.subrange(a as int, b as int)) == s@.subrange(a as int, r as int),
{
    let mut j = b;
    while j > a && (s[j - 1] == ' ' || s[j - 1] == '.')
        invariant
            a <= j <= b <= s@.len(),
            right_trim(s@.subrange(a as int, j as int)) == right_trim(
                s@.subrange(a as int, b as int),
            ),
        decreases j,
    {
        proof {
            lemma_subrange_drop_last(s@, a as int, j as int);
        }
        j = j - 1;
    }
    if j > a {
        proof {
            lemma_subrange_drop_last(s@, a as int, j as int);
        }
    }
    j
}

fn word3_at(s: &Vec<char>, a: usize, x: char, y: char, z: char) -> (r: bool)
    requires
        a + 3 <= s@.len(),
    ensures
        r == word3(s@.subrange(a as int, a + 3), x, y, z),
{
    let _n = s.len();
    ascii_upper_of(s[a]) == x as u32 && ascii_upper_of(s[a + 1]) == y as u32 && ascii_upper_of(
        s[a + 2],
    ) == z as u32
}

fn is_reserved_word_range(s: &Vec<char>, a: usize, b: usize) -> (r: bool)
    requires
        a <= b <= s@.len(),
    ensures
        r == is_reserved_word(s@.subrange(a as int, b as int)),
{
    let ghost t = s@.subrange(a as int, b as int);
    if b - a == 3 {
        assert(t =~= s@.subrange(a as int, a + 3));
        word3_at(s, a, 'A', 'U', 'X') || word3_at(s, a, 'N', 'U', 'L') || word3_at(
            s,
            a,
            'P',
            'R',
            'N',
        ) || word3_at(s, a, 'C', 'O', 'N')
    } else if b - a == 4 {
        assert(t.subrange(0, 3) =~= s@.subrange(a as int, a + 3));
        assert(t[3] == s@[a + 3]);
        (word3_at(s, a, 'C', 'O', 'M') || word3_at(s, a, 'L', 'P', 'T')) && '1' <= s[a + 3] && s[a
            + 3] <= '9'
    } else {
        false
    }
}

fn is_reserved_range(s: &Vec<char>, a: usize, b: usize) -> (r: bool)
    requires
        a <= b <= s@.len(),
    ensures
        r == is_reserved(s@.subrange(a as int, b as int)),
{
    let ghost t = s@.subrange(a as int, b as int);
    let d = find_last_dot(s, a, b);
    let stem_end = if d - a > 1 {
        d - 1
    } else {
        b
    };
    assert(file_stem(t) == s@.subrange(a as int, stem_end as int)) by {
        if d - a > 1 {
            assert(t.subrange(0, d - 1 - a) =~= s@.subrange(a as int, stem_end as int));
        }
    }
    let e = trim_end(s, a, stem_end);
    is_reserved_word_range(s, a, e)
}

/// Whether `path` is a `\\?\C:\...` path that means the same without the
/// `\\?\` namespace prefix.
pub fn is_safe_to_strip_unc_exec(path: &str) -> (r: bool)
    ensures
        r == is_safe_to_strip_unc(path@),
{
    let s = chars_of(path);
    let cs = parse_components(&s);
    let n = s.len();
    proof {
        crate::components::lemma_components_bounds(s@);
    }
    if cs.len() == 0 {
        return false;
    }
    match cs[0].kind {
        ComponentKind::Prefix(x) => {
            if !matches!(x.kind, PrefixKind::VerbatimDisk) {
                return false;
            }
        },
        _ => {
            return false;
        },
    }
    let mut k: usize = 1;
    while k < cs.len()
        invariant
            cs@ == components(s@),
            s@ == path@,
            n == s@.len(),
            1 <= k <= cs@.len(),
            forall|j: int| 0 <= j < cs@.len() ==> #[trigger] cs@[j].start <= cs@[j].end <= n,
            forall|j: int| 1 <= j < k ==> plain_component_ok(s@, #[trigger] cs@[j]),
        decreases cs@.len() - k,
    {
        let c = cs[k];
        let ok = match c.kind {
            ComponentKind::RootDir => true,
            ComponentKind::Normal => is_valid_filename_range(&s, c.start, c.end)
                && !is_reserved_range(&s, c.start, c.end),
            _ => false,
        };
        if !ok {
            assert(!plain_component_ok(s@, cs@[k as int]));
            return false;
        }
        k = k + 1;
    }
    !is_wide_longer_than(path, MAX_PATH)
}

/// `path` without its `\\?\` prefix, when that keeps its meaning (see
/// [`is_safe_to_strip_unc`]); `None` otherwise.
pub fn simplified(path: &str) -> (r: Option<&str>)
    ensures
        match r {
            Some(t) => verbatim_disk_simplified(path@) == Some(t@),
            None => verbatim_disk_simplified(path@) is None,
        },
{
    if is_safe_to_strip_unc_exec(path) {
        let n = path.unicode_len();
        proof {
            crate::components::lemma_components_kinds(path@);
            crate::components::lemma_prefix_bounds_any(path@);
        }
        Some(path.substring_char(4, n))
    } else {
        None
    }
}

} // verus!
