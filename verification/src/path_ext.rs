//! Conversions between the Win32 File Namespace form and plain UNC paths.
use vstd::prelude::*;
use crate::components::{strip_components, strip_prefix_text};
use crate::text::{chars_of, string_push};
use crate::wide::{is_wide_longer_than, lemma_wide_len_concat, lemma_wide_len_small, wide_len};
use crate::MAX_PATH;

verus! {

/// `s` starts with `\\?\UNC\`, the three letters in either case.
pub open spec fn is_namespace_unc(s: Seq<char>) -> bool {
    &&& s.len() >= 8
    &&& s[0] == '\\' && s[1] == '\\' && s[2] == '?' && s[3] == '\\'
    &&& (s[4] == 'u' || s[4] == 'U')
    &&& (s[5] == 'n' || s[5] == 'N')
    &&& (s[6] == 'c' || s[6] == 'C')
    &&& s[7] == '\\'
}

/// The plain UNC form of a `\\?\UNC\` path: `\\` followed by what came after
/// the eight-character namespace prefix.
pub open spec fn unc_text(s: Seq<char>) -> Seq<char> {
    seq!['\\', '\\'] + s.subrange(8, s.len() as int)
}

/// The number of UTF-16 units that the conversion takes off a path.
pub const LEN_SUB: u32 = 6;

/// What `unc_from_win32_file_namespace` returns.
pub open spec fn unc_from_namespace(s: Seq<char>, disallow_long: bool) -> Option<Seq<char>> {
    if !is_namespace_unc(s) {
        None
    } else if disallow_long && wide_len(s) > MAX_PATH + LEN_SUB {
        None
    } else {
        Some(unc_text(s))
    }
}

/// Whether `path` is in the Win32 File Namespace form of a UNC path
/// (`\\?\UNC\...`, the letters `UNC` in any case).
pub fn is_win32_file_namespace_unc(path: &str) -> (r: bool)
    ensures
        r == is_namespace_unc(path@),
{
    let s = chars_of(path);
    s.len() >= 8 && s[0] == '\\' && s[1] == '\\' && s[2] == '?' && s[3] == '\\' && (s[4] == 'u'
        || s[4] == 'U') && (s[5] == 'n' || s[5] == 'N') && (s[6] == 'c' || s[6] == 'C') && s[7]
        == '\\'
}

/// Converts `\\?\UNC\server\share\...` to `\\server\share\...`.
///
/// Returns `None` when `path` is not in that form, or when `disallow_long`
/// is set and the result would be longer than `MAX_PATH` UTF-16 units.
pub fn unc_from_win32_file_namespace(path: &str, disallow_long: bool) -> (r: Option<String>)
    ensures
        match r {
            Some(t) => unc_from_namespace(path@, disallow_long) == Some(t@),
            None => unc_from_namespace(path@, disallow_long) is None,
        },
{
    if !is_win32_file_namespace_unc(path) {
        return None;
    }
    if disallow_long && is_wide_longer_than(path, MAX_PATH + LEN_SUB) {
        return None;
    }
    let n = path.unicode_len();
    let mut result = String::new();
    string_push(&mut result, '\\');
    string_push(&mut result, '\\');
    result.append(path.substring_char(8, n));
    assert(result@ =~= unc_text(path@));
    Some(result)
}

/// The conversion takes exactly the six extra UTF-16 units of `\\?\UNC` off.
pub proof fn lemma_unc_text_wide_len(s: Seq<char>)
    requires
        is_namespace_unc(s),
    ensures
        wide_len(unc_text(s)) + LEN_SUB == wide_len(s),
{
    let head = s.subrange(0, 8);
    let tail = s.subrange(8, s.len() as int);
    assert(s =~= head + tail);
    lemma_wide_len_concat(head, tail);
    lemma_wide_len_concat(seq!['\\', '\\'], tail);
    lemma_wide_len_small(head);
    lemma_wide_len_small(seq!['\\', '\\']);
}

/// A path in the `\\?\UNC\` form always converts when long paths are
/// allowed, and a conversion made with `disallow_long` is never longer than
/// `MAX_PATH` UTF-16 units.
pub proof fn law_unc_conversion(s: Seq<char>, disallow_long: bool)
    ensures
        is_namespace_unc(s) <==> unc_from_namespace(s, false) is Some,
        unc_from_namespace(s, disallow_long) matches Some(t) ==> {
            &&& wide_len(t) + LEN_SUB == wide_len(s)
            &&& disallow_long ==> wide_len(t) <= MAX_PATH
        },
{
    if is_namespace_unc(s) {
        lemma_unc_text_wide_len(s);
    }
}

/// [`Path::strip_prefix`] with a fix for a leading `\` left for UNC paths:
/// the components of `base` are taken off the front of `path`, and a root
/// separator `\` left at the front of the rest is dropped.
///
/// [`Path::strip_prefix`]: https://doc.rust-lang.org/std/path/struct.Path.html#method.strip_prefix
pub fn strip_prefix_fix<'a>(path: &'a str, base: &str) -> (r: Option<&'a str>)
    ensures
        match r {
            Some(t) => strip_prefix_text(path@, base@) == Some(t@),
            None => strip_prefix_text(path@, base@) is None,
        },
{
    strip_components(path, base)
}

} // verus!
