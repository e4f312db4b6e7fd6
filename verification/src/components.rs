//! The component grammar of Windows paths.
//!
//! A path splits into an optional prefix (`\\?\UNC\server\share`, `\\?\C:`,
//! `\\?\name`, `\\.\device`, `\\server\share`, `C:`), an optional root
//! separator (`\` or `/`), and body components separated by `\` (also `/`,
//! except in the verbatim `\\?\` forms). Empty components are ignored; `.` is ignored
//! except in verbatim paths and at the very start of a path with
//! neither prefix nor root; `..`
//! is a parent-directory component.
use vstd::prelude::*;
use crate::text::{ascii_upper, ascii_upper_of, chars_of, is_ascii_letter, is_ascii_letter_exec, range_eq};

verus! {

#[derive(Clone, Copy, Debug, PartialEq, Eq)]
pub enum PrefixKind {
    /// `\\?\name`
    Verbatim,
    /// `\\?\UNC\server\share`
    VerbatimUNC,
    /// `\\?\C:`
    VerbatimDisk,
    /// `\\.\name`
    DeviceNS,
    /// `\\server\share`
    UNC,
    /// `C:`
    Disk,
}

/// A parsed path prefix: its kind, its length in characters, and the
/// character ranges of its parts (the name, server or drive letter in
/// `first`, the share in `second`).
#[derive(Clone, Copy, Debug, PartialEq, Eq)]
pub struct Prefix {
    pub kind: PrefixKind,
    pub len: usize,
    pub first: (usize, usize),
    pub second: (usize, usize),
}

#[derive(Clone, Copy, Debug, PartialEq, Eq)]
pub enum ComponentKind {
    Prefix(Prefix),
    RootDir,
    CurDir,
    ParentDir,
    Normal,
}

/// A component of a path and the character range it occupies.
#[derive(Clone, Copy, Debug, PartialEq, Eq)]
pub struct Component {
    pub kind: ComponentKind,
    pub start: usize,
    pub end: usize,
}

pub open spec fn is_sep(c: char, verbatim: bool) -> bool {
    c == '\\' || (!verbatim && c == '/')
}

/// End of the component that starts at `i`: the first separator at or after
/// `i`, or the end of `s`.
pub open spec fn comp_end(s: Seq<char>, i: int, verbatim: bool) -> int
    decreases s.len() - i,
{
    if i >= s.len() {
        s.len() as int
    } else if is_sep(s[i], verbatim) {
        i
    } else {
        comp_end(s, i + 1, verbatim)
    }
}

/// Where the text after the component ending at `e` starts.
pub open spec fn next_start(s: Seq<char>, e: int) -> int {
    if e < s.len() {
        e + 1
    } else {
        s.len() as int
    }
}

pub open spec fn starts_verbatim(s: Seq<char>) -> bool {
    s.len() >= 4 && s[0] == '\\' && s[1] == '\\' && s[2] == '?' && s[3] == '\\'
}

pub open spec fn starts_verbatim_unc(s: Seq<char>) -> bool {
    starts_verbatim(s) && s.len() >= 8 && s[4] == 'U' && s[5] == 'N' && s[6] == 'C' && s[7]
        == '\\'
}

pub open spec fn starts_verbatim_disk(s: Seq<char>) -> bool {
    starts_verbatim(s) && s.len() >= 6 && is_ascii_letter(s[4]) && s[5] == ':' && (s.len() == 6
        || is_sep(s[6], false))
}

pub open spec fn starts_double_sep(s: Seq<char>) -> bool {
    s.len() >= 2 && is_sep(s[0], false) && is_sep(s[1], false)
}

pub open spec fn starts_device(s: Seq<char>) -> bool {
    s.len() >= 4 && s[2] == '.' && is_sep(s[3], false)
}

pub open spec fn starts_disk(s: Seq<char>) -> bool {
    s.len() >= 2 && is_ascii_letter(s[0]) && s[1] == ':'
}

pub open spec fn mk_prefix(kind: PrefixKind, len: int, f0: int, f1: int, s0: int, s1: int) -> Prefix {
    Prefix {
        kind,
        len: len as usize,
        first: (f0 as usize, f1 as usize),
        second: (s0 as usize, s1 as usize),
    }
}

/// The prefix of `s`, if it has one.
pub open spec fn parse_prefix(s: Seq<char>) -> Option<Prefix> {
    if starts_verbatim(s) {
        if starts_verbatim_unc(s) {
            let e1 = comp_end(s, 8, true);
            let st2 = next_start(s, e1);
            let e2 = comp_end(s, st2, true);
            Some(
                mk_prefix(
                    PrefixKind::VerbatimUNC,
                    if e2 > st2 {
                        e2
                    } else {
                        e1
                    },
                    8,
                    e1,
                    st2,
                    e2,
                ),
            )
        } else if starts_verbatim_disk(s) {
            Some(mk_prefix(PrefixKind::VerbatimDisk, 6, 4, 5, 0, 0))
        } else {
            let e = comp_end(s, 4, true);
            Some(mk_prefix(PrefixKind::Verbatim, e, 4, e, 0, 0))
        }
    } else if starts_double_sep(s) {
        if starts_device(s) {
            let e = comp_end(s, 4, false);
            Some(mk_prefix(PrefixKind::DeviceNS, e, 4, e, 0, 0))
        } else {
            let e1 = comp_end(s, 2, false);
            let st2 = next_start(s, e1);
            let e2 = comp_end(s, st2, false);
            if e1 > 2 && e2 > st2 {
                Some(mk_prefix(PrefixKind::UNC, e2, 2, e1, st2, e2))
            } else {
                None
            }
        }
    } else if starts_disk(s) {
        Some(mk_prefix(PrefixKind::Disk, 2, 0, 1, 0, 0))
    } else {
        None
    }
}

pub open spec fn is_verbatim_kind(k: PrefixKind) -> bool {
    k == PrefixKind::Verbatim || k == PrefixKind::VerbatimUNC || k == PrefixKind::VerbatimDisk
}

pub open spec fn prefix_len(p: Option<Prefix>) -> int {
    match p {
        Some(x) => x.len as int,
        None => 0,
    }
}

pub open spec fn verbatim_of(p: Option<Prefix>) -> bool {
    match p {
        Some(x) => is_verbatim_kind(x.kind),
        None => false,
    }
}

/// A separator right after the prefix (`/` counts here, in verbatim paths
/// too).
pub open spec fn has_physical_root(s: Seq<char>) -> bool {
    let pre = parse_prefix(s);
    let p = prefix_len(pre);
    p < s.len() && is_sep(s[p], false)
}

/// The path has a root: a separator after the prefix, or a prefix that
/// implies one (`\\server\share`, `\\.\name`).
pub open spec fn has_root(s: Seq<char>) -> bool {
    has_physical_root(s) || match parse_prefix(s) {
        Some(x) => x.kind == PrefixKind::UNC || x.kind == PrefixKind::DeviceNS,
        None => false,
    }
}

/// The kind of the body component occupying `[i, j)`, or `None` when it is
/// ignored.
pub open spec fn classify(s: Seq<char>, i: int, j: int, verbatim: bool, first: bool) -> Option<
    ComponentKind,
> {
    if j == i {
        None
    } else if j == i + 1 && s[i] == '.' {
        if verbatim || first {
            Some(ComponentKind::CurDir)
        } else {
            None
        }
    } else if j == i + 2 && s[i] == '.' && s[i + 1] == '.' {
        Some(ComponentKind::ParentDir)
    } else {
        Some(ComponentKind::Normal)
    }
}

/// The body components from position `i` on.
pub open spec fn body_components(s: Seq<char>, i: int, verbatim: bool, first: bool) -> Seq<
    Component,
>
    decreases s.len() - i,
{
    if i >= s.len() {
        seq![]
    } else {
        let j = comp_end(s, i, verbatim);
        proof {
            lemma_comp_end(s, i, verbatim);
        }
        let rest = if j < s.len() {
            body_components(s, j + 1, verbatim, false)
        } else {
            seq![]
        };
        match classify(s, i, j, verbatim, first) {
            Some(k) => seq![Component { kind: k, start: i as usize, end: j as usize }] + rest,
            None => rest,
        }
    }
}

/// The prefix component, if any.
pub open spec fn prefix_part(s: Seq<char>) -> Seq<Component> {
    match parse_prefix(s) {
        Some(x) => seq![Component { kind: ComponentKind::Prefix(x), start: 0, end: x.len }],
        None => seq![],
    }
}

/// The root component, if any: the separator after the prefix, or an empty
/// range for a root that the prefix implies.
pub open spec fn root_part(s: Seq<char>) -> Seq<Component> {
    let p = prefix_len(parse_prefix(s));
    if has_root(s) {
        seq![
            Component {
                kind: ComponentKind::RootDir,
                start: p as usize,
                end: if has_physical_root(s) {
                    (p + 1) as usize
                } else {
                    p as usize
                },
            },
        ]
    } else {
        seq![]
    }
}

/// Where the body starts: after the prefix and its separator.
pub open spec fn body_start(s: Seq<char>) -> int {
    let p = prefix_len(parse_prefix(s));
    if has_physical_root(s) {
        p + 1
    } else {
        p
    }
}

/// A leading `.` counts only in a path with neither prefix nor root.
pub open spec fn cur_dir_allowed(s: Seq<char>) -> bool {
    parse_prefix(s) is None && !has_root(s)
}

/// The body components.
pub open spec fn body_part(s: Seq<char>) -> Seq<Component> {
    body_components(s, body_start(s), verbatim_of(parse_prefix(s)), cur_dir_allowed(s))
}

/// All components of the path `s`, in order.
pub open spec fn components(s: Seq<char>) -> Seq<Component> {
    prefix_part(s) + root_part(s) + body_part(s)
}

/// Two prefixes, each in its own path, are the same.
pub open spec fn prefix_eq(s1: Seq<char>, a: Prefix, s2: Seq<char>, b: Prefix) -> bool {
    a.kind == b.kind && if a.kind == PrefixKind::VerbatimDisk || a.kind == PrefixKind::Disk {
        ascii_upper(s1[a.first.0 as int]) == ascii_upper(s2[b.first.0 as int])
    } else if a.kind == PrefixKind::Verbatim || a.kind == PrefixKind::DeviceNS {
        s1.subrange(a.first.0 as int, a.first.1 as int) == s2.subrange(
            b.first.0 as int,
            b.first.1 as int,
        )
    } else {
        s1.subrange(a.first.0 as int, a.first.1 as int) == s2.subrange(
            b.first.0 as int,
            b.first.1 as int,
        ) && s1.subrange(a.second.0 as int, a.second.1 as int) == s2.subrange(
            b.second.0 as int,
            b.second.1 as int,
        )
    }
}

/// Two components, each in its own path, are the same.
pub open spec fn component_eq(s1: Seq<char>, a: Component, s2: Seq<char>, b: Component) -> bool {
    match (a.kind, b.kind) {
        (ComponentKind::Prefix(x), ComponentKind::Prefix(y)) => prefix_eq(s1, x, s2, y),
        (ComponentKind::RootDir, ComponentKind::RootDir) => true,
        (ComponentKind::CurDir, ComponentKind::CurDir) => true,
        (ComponentKind::ParentDir, ComponentKind::ParentDir) => true,
        (ComponentKind::Normal, ComponentKind::Normal) => s1.subrange(
            a.start as int,
            a.end as int,
        ) == s2.subrange(b.start as int, b.end as int),
        _ => false,
    }
}

/// The components of `base` are the first components of `path`.
pub open spec fn starts_with_components(path: Seq<char>, base: Seq<char>) -> bool {
    let cp = components(path);
    let cb = components(base);
    cb.len() <= cp.len() && forall|i: int|
        0 <= i < cb.len() ==> #[trigger] component_eq(base, cb[i], path, cp[i])
}

/// The text of `path` from its `k`-th component on, without a leading root
/// separator `\`: from the start of the first remaining component to the end
/// of the last one.
pub open spec fn rest_text(path: Seq<char>, k: int) -> Seq<char> {
    rest_text_in(path, components(path), k)
}

/// [`rest_text`] over the component list `cp` of `path`.
pub open spec fn rest_text_in(path: Seq<char>, cp: Seq<Component>, k: int) -> Seq<char> {
    let k2 = rest_index(path, cp, k);
    if k2 >= cp.len() {
        seq![]
    } else {
        path.subrange(cp[k2].start as int, cp.last().end as int)
    }
}

/// `path` with the components of `base` taken off its front, or `None` when
/// `base` is not made of the first components of `path`.
pub open spec fn strip_prefix_text(path: Seq<char>, base: Seq<char>) -> Option<Seq<char>> {
    if starts_with_components(path, base) {
        Some(rest_text(path, components(base).len() as int))
    } else {
        None
    }
}

// ---------------------------------------------------------------------------
// Properties of the grammar
// ---------------------------------------------------------------------------

pub proof fn lemma_comp_end(s: Seq<char>, i: int, verbatim: bool)
    requires
        i <= s.len(),
    ensures
        i <= comp_end(s, i, verbatim) <= s.len(),
        forall|k: int| i <= k < comp_end(s, i, verbatim) ==> !is_sep(#[trigger] s[k], verbatim),
        comp_end(s, i, verbatim) < s.len() ==> is_sep(s[comp_end(s, i, verbatim)], verbatim),
    decreases s.len() - i,
{
    if i < s.len() && !is_sep(s[i], verbatim) {
        lemma_comp_end(s, i + 1, verbatim);
    }
}

/// A prefix lies within its path.
pub proof fn lemma_prefix_bounds(s: Seq<char>)
    requires
        s.len() <= usize::MAX,
    ensures
        match parse_prefix(s) {
            Some(x) => {
                &&& 0 < x.len <= s.len()
                &&& x.first.0 <= x.first.1 <= s.len()
                &&& x.second.0 <= x.second.1 <= s.len()
                &&& (x.kind == PrefixKind::VerbatimDisk || x.kind == PrefixKind::Disk) ==> x.first.0
                    < s.len()
            },
            None => true,
        },
{
    if s.len() >= 2 {
        lemma_comp_end(s, 2, false);
    }
    if s.len() >= 4 {
        lemma_comp_end(s, 4, true);
        lemma_comp_end(s, 4, false);
    }
    if s.len() >= 8 {
        lemma_comp_end(s, 8, true);
        let e1 = comp_end(s, 8, true);
        lemma_comp_end(s, next_start(s, e1), true);
    }
    if starts_double_sep(s) && !starts_verbatim(s) {
        let e1 = comp_end(s, 2, false);
        lemma_comp_end(s, next_start(s, e1), false);
    }
}


/// A `\\?\C:` prefix needs at least six characters, the first four `\\?\`.
pub proof fn lemma_prefix_bounds_any(s: Seq<char>)
    ensures
        parse_prefix(s) matches Some(x) && x.kind == PrefixKind::VerbatimDisk ==> starts_verbatim(s)
            && s.len() >= 6,
{
}

/// Body components are never prefixes or roots.
pub proof fn lemma_body_kinds(s: Seq<char>, i: int, verbatim: bool, first: bool)
    ensures
        forall|k: int|
            0 <= k < body_components(s, i, verbatim, first).len() ==> is_body_kind(
                #[trigger] body_components(s, i, verbatim, first)[k].kind,
            ),
    decreases s.len() - i,
{
    if i < s.len() {
        let j = comp_end(s, i, verbatim);
        lemma_comp_end(s, i, verbatim);
        if j < s.len() {
            lemma_body_kinds(s, j + 1, verbatim, false);
        }
        let rest = if j < s.len() {
            body_components(s, j + 1, verbatim, false)
        } else {
            seq![]
        };
        let bc = body_components(s, i, verbatim, first);
        match classify(s, i, j, verbatim, first) {
            Some(k) => {
                assert forall|a: int| 0 < a < bc.len() implies bc[a] == rest[a - 1] by {}
            },
            None => {
                assert(bc == rest);
            },
        }
    }
}

/// Body components start after `i`, are non-empty, come in order with a
/// separator between each two, and do not start with a separator.
pub proof fn lemma_body_bounds(s: Seq<char>, i: int, verbatim: bool, first: bool)
    requires
        0 <= i,
        s.len() <= usize::MAX,
    ensures
        forall|k: int|
            0 <= k < body_components(s, i, verbatim, first).len() ==> i <= #[trigger] body_components(
                s,
                i,
                verbatim,
                first,
            )[k].start < body_components(s, i, verbatim, first)[k].end <= s.len(),
        forall|k: int, l: int|
            0 <= k < l < body_components(s, i, verbatim, first).len() ==> #[trigger] body_components(
                s,
                i,
                verbatim,
                first,
            )[k].end < #[trigger] body_components(s, i, verbatim, first)[l].start,
        forall|k: int|
            0 <= k < body_components(s, i, verbatim, first).len() ==> !is_sep(
                s[#[trigger] body_components(s, i, verbatim, first)[k].start as int],
                verbatim,
            ),
    decreases s.len() - i,
{
    if i < s.len() {
        let j = comp_end(s, i, verbatim);
        lemma_comp_end(s, i, verbatim);
        if j < s.len() {
            lemma_body_bounds(s, j + 1, verbatim, false);
        }
        let rest = if j < s.len() {
            body_components(s, j + 1, verbatim, false)
        } else {
            seq![]
        };
        let bc = body_components(s, i, verbatim, first);
        match classify(s, i, j, verbatim, first) {
            Some(k) => {
                let c = Component { kind: k, start: i as usize, end: j as usize };
                assert(bc == seq![c] + rest);
                assert(j > i);
                assert forall|a: int| 0 < a < bc.len() implies bc[a] == rest[a - 1] by {}
                assert forall|a: int, b: int|
                    0 <= a < b < bc.len() implies #[trigger] bc[a].end < #[trigger] bc[b].start by {
                    assert(bc[b] == rest[b - 1]);
                    if a > 0 {
                        assert(bc[a] == rest[a - 1]);
                    }
                }
            },
            None => {
                assert(bc == rest);
            },
        }
    }
}

/// A component kind found in the body.
pub open spec fn is_body_kind(k: ComponentKind) -> bool {
    k == ComponentKind::CurDir || k == ComponentKind::ParentDir || k == ComponentKind::Normal
}

/// How the component list is put together from its three parts.
pub proof fn lemma_components_parts(s: Seq<char>)
    ensures
        prefix_part(s).len() <= 1,
        root_part(s).len() <= 1,
        components(s).len() == prefix_part(s).len() + root_part(s).len() + body_part(s).len(),
        forall|k: int|
            0 <= k < components(s).len() ==> #[trigger] components(s)[k] == if k
                < prefix_part(s).len() {
                prefix_part(s)[k]
            } else if k < prefix_part(s).len() + root_part(s).len() {
                root_part(s)[k - prefix_part(s).len()]
            } else {
                body_part(s)[k - prefix_part(s).len() - root_part(s).len()]
            },
{
}

/// A prefix component is the parsed prefix and comes first; the one root
/// component comes right after it; every other component is a body
/// component.
pub proof fn lemma_components_kinds(s: Seq<char>)
    ensures
        forall|k: int|
            0 <= k < components(s).len() ==> match #[trigger] components(s)[k].kind {
                ComponentKind::Prefix(x) => k == 0 && parse_prefix(s) == Some(x),
                ComponentKind::RootDir => k == prefix_part(s).len(),
                _ => k >= prefix_part(s).len() + root_part(s).len(),
            },
{
    lemma_components_parts(s);
    lemma_body_kinds(
        s,
        body_start(s),
        verbatim_of(parse_prefix(s)),
        cur_dir_allowed(s),
    );
    let cs = components(s);
    let h = prefix_part(s).len() + root_part(s).len();
    assert forall|k: int| 0 <= k < cs.len() implies match #[trigger] cs[k].kind {
        ComponentKind::Prefix(x) => k == 0 && parse_prefix(s) == Some(x),
        ComponentKind::RootDir => k == prefix_part(s).len(),
        _ => k >= h,
    } by {
        if k >= h {
            assert(is_body_kind(body_part(s)[k - h].kind));
        }
    }
}

/// The components of a path lie within it, in order; body components are
/// non-empty and do not start with a separator.
pub proof fn lemma_components_bounds(s: Seq<char>)
    requires
        s.len() <= usize::MAX,
    ensures
        forall|k: int|
            0 <= k < components(s).len() ==> #[trigger] components(s)[k].start
                <= components(s)[k].end <= s.len(),
        forall|k: int, l: int|
            0 <= k < l < components(s).len() ==> #[trigger] components(s)[k].end
                <= #[trigger] components(s)[l].start,
        forall|k: int|
            prefix_part(s).len() + root_part(s).len() <= k < components(s).len() ==> {
                &&& #[trigger] components(s)[k].start < components(s)[k].end
                &&& !is_sep(s[components(s)[k].start as int], verbatim_of(parse_prefix(s)))
            },
{
    lemma_prefix_bounds(s);
    lemma_components_parts(s);
    let b = body_start(s);
    lemma_body_bounds(s, b, verbatim_of(parse_prefix(s)), cur_dir_allowed(s));
    let cs = components(s);
    let pl = prefix_part(s).len();
    let h = pl + root_part(s).len();
    let bc = body_part(s);
    assert forall|k: int, l: int|
        0 <= k < l < cs.len() implies #[trigger] cs[k].end <= #[trigger] cs[l].start by {
        if l >= h && k >= h {
            assert(bc[k - h].end < bc[l - h].start);
        }
    }
}

/// Every path starts with its own components, and taking them all off
/// leaves nothing.
pub proof fn law_strip_prefix_self(p: Seq<char>)
    ensures
        strip_prefix_text(p, p) == Some(Seq::<char>::empty()),
{
    let cs = components(p);
    assert forall|i: int| 0 <= i < cs.len() implies #[trigger] component_eq(p, cs[i], p, cs[i]) by {
        match cs[i].kind {
            ComponentKind::Prefix(x) => {
                assert(prefix_eq(p, x, p, x));
            },
            _ => {},
        }
    }
    assert(rest_text(p, cs.len() as int) =~= Seq::<char>::empty());
}

/// A root component written as `\` is left over at `k`.
pub open spec fn backslash_root_at(path: Seq<char>, cp: Seq<Component>, k: int) -> bool {
    &&& k < cp.len()
    &&& cp[k].kind == ComponentKind::RootDir
    &&& !(cp[k].start < cp[k].end && path[cp[k].start as int] == '/')
}

/// Where the rest starts once `k` components are taken off `cp`: a root
/// left over is skipped unless it is written as `/`.
pub open spec fn rest_index(path: Seq<char>, cp: Seq<Component>, k: int) -> int {
    if backslash_root_at(path, cp, k) {
        k + 1
    } else {
        k
    }
}

proof fn lemma_rest_index_body(path: Seq<char>, k: int)
    requires
        k >= 1,
    ensures
        rest_index(path, components(path), k) < components(path).len() ==> rest_index(
            path,
            components(path),
            k,
        ) >= prefix_part(path).len() + root_part(path).len() || components(path)[rest_index(
            path,
            components(path),
            k,
        )].kind == ComponentKind::RootDir,
{
    lemma_components_kinds(path);
    lemma_components_parts(path);
    let cp = components(path);
    let k2 = rest_index(path, cp, k);
    if k2 < cp.len() {
        if k2 > k {
            assert(cp[k].kind == ComponentKind::RootDir);
        } else if cp[k].kind != ComponentKind::RootDir {
            match cp[k].kind {
                ComponentKind::Prefix(x) => {},
                _ => {},
            }
        }
    }
}

/// What is left after taking at least one component off a path does not
/// start with `\`: a root separator `\` left over is dropped.
pub proof fn law_strip_rest_is_relative(path: Seq<char>, base: Seq<char>)
    requires
        path.len() <= usize::MAX,
        components(base).len() > 0,
    ensures
        strip_prefix_text(path, base) matches Some(t) ==> t.len() == 0 || t[0] != '\\',
{
    if strip_prefix_text(path, base) is Some {
        let cp = components(path);
        let k = components(base).len() as int;
        let k2 = rest_index(path, cp, k);
        lemma_components_bounds(path);
        lemma_rest_index_body(path, k);
        if k2 < cp.len() {
            let last = cp.len() - 1;
            assert(cp[k2].start <= cp[k2].end <= cp[last].end) by {
                if k2 < last {
                    assert(cp[k2].end <= cp[last].start);
                }
            }
            let t = strip_prefix_text(path, base).unwrap();
            if t.len() > 0 {
                assert(t[0] == path[cp[k2].start as int]);
            }
        }
    }
}

/// `base` joined with the rest gives `path`: the components of `path` are
/// those of `base`, at most one root separator, and then components that
/// each stand in the rest, in their place.
pub proof fn law_strip_join(path: Seq<char>, base: Seq<char>)
    requires
        path.len() <= usize::MAX,
    ensures
        strip_prefix_text(path, base) matches Some(t) ==> {
            let cp = components(path);
            let k = components(base).len() as int;
            let k2 = rest_index(path, cp, k);
            &&& k <= cp.len()
            &&& forall|i: int| 0 <= i < k ==> #[trigger] component_eq(base, components(base)[i], path, cp[i])
            &&& forall|i: int| k <= i < k2 ==> #[trigger] cp[i].kind == ComponentKind::RootDir
            &&& k2 >= cp.len() ==> t.len() == 0
            &&& k2 < cp.len() ==> forall|i: int|
                k2 <= i < cp.len() ==> t.subrange(
                    cp[i].start - cp[k2].start,
                    cp[i].end - cp[k2].start,
                ) == path.subrange(#[trigger] cp[i].start as int, cp[i].end as int)
        },
{
    if strip_prefix_text(path, base) is Some {
        let cp = components(path);
        let k = components(base).len() as int;
        let k2 = rest_index(path, cp, k);
        lemma_components_bounds(path);
        if k2 < cp.len() {
            let t = strip_prefix_text(path, base).unwrap();
            let a = cp[k2].start as int;
            let last = cp.len() - 1;
            assert forall|i: int| k2 <= i < cp.len() implies t.subrange(
                cp[i].start - cp[k2].start,
                cp[i].end - cp[k2].start,
            ) == path.subrange(#[trigger] cp[i].start as int, cp[i].end as int) by {
                if i > k2 {
                    assert(cp[k2].end <= cp[i].start);
                }
                if i < last {
                    assert(cp[i].end <= cp[last].start);
                }
                assert(t.subrange(cp[i].start - a, cp[i].end - a) =~= path.subrange(
                    cp[i].start as int,
                    cp[i].end as int,
                ));
            }
        }
    }
}

/// Stripping succeeds only when each component of `base` is, in its place,
/// the same component of `path`: a name has the same text, a root faces a
/// root, and a prefix has the same kind and names the same server and share
/// (the same device or name; the same drive letter, in either case).
pub proof fn law_strip_matches_text(path: Seq<char>, base: Seq<char>)
    ensures
        strip_prefix_text(path, base) is Some ==> forall|i: int|
            0 <= i < components(base).len() ==> {
                let b = #[trigger] components(base)[i];
                let c = components(path)[i];
                &&& i < components(path).len()
                &&& b.kind == ComponentKind::Normal ==> c.kind == ComponentKind::Normal
                    && base.subrange(b.start as int, b.end as int) == path.subrange(
                    c.start as int,
                    c.end as int,
                )
                &&& b.kind == ComponentKind::RootDir ==> c.kind == ComponentKind::RootDir
                &&& b.kind == ComponentKind::CurDir ==> c.kind == ComponentKind::CurDir
                &&& b.kind == ComponentKind::ParentDir ==> c.kind == ComponentKind::ParentDir
                &&& match (b.kind, c.kind) {
                    (ComponentKind::Prefix(x), ComponentKind::Prefix(y)) => {
                        &&& x.kind == y.kind
                        &&& (x.kind == PrefixKind::UNC || x.kind == PrefixKind::VerbatimUNC) ==> {
                            &&& base.subrange(x.first.0 as int, x.first.1 as int) == path.subrange(
                                y.first.0 as int,
                                y.first.1 as int,
                            )
                            &&& base.subrange(x.second.0 as int, x.second.1 as int)
                                == path.subrange(y.second.0 as int, y.second.1 as int)
                        }
                        &&& (x.kind == PrefixKind::Verbatim || x.kind == PrefixKind::DeviceNS)
                            ==> base.subrange(x.first.0 as int, x.first.1 as int) == path.subrange(
                            y.first.0 as int,
                            y.first.1 as int,
                        )
                        &&& (x.kind == PrefixKind::Disk || x.kind == PrefixKind::VerbatimDisk)
                            ==> ascii_upper(base[x.first.0 as int]) == ascii_upper(
                            path[y.first.0 as int],
                        )
                    },
                    (ComponentKind::Prefix(x), _) => false,
                    _ => true,
                }
            },
{
    if strip_prefix_text(path, base) is Some {
        let cb = components(base);
        let cp = components(path);
        assert forall|i: int| 0 <= i < cb.len() implies component_eq(base, cb[i], path, cp[i]) by {
            assert(component_eq(base, cb[i], path, cp[i]));
        }
    }
}

/// Stripping succeeds whenever each component of `base` is, in its place,
/// the same component of `path`: names of the same text, roots, `.` and
/// `..` alike, and prefixes of the same kind naming the same server and
/// share (the same device or name; the same drive letter, in either case).
/// The rest is then what follows in `path`.
pub proof fn law_strip_complete(path: Seq<char>, base: Seq<char>)
    requires
        components(base).len() <= components(path).len(),
        forall|i: int|
            0 <= i < components(base).len() ==> {
                let b = #[trigger] components(base)[i];
                let c = components(path)[i];
                &&& b.kind == ComponentKind::Normal ==> c.kind == ComponentKind::Normal
                    && base.subrange(b.start as int, b.end as int) == path.subrange(
                    c.start as int,
                    c.end as int,
                )
                &&& b.kind == ComponentKind::RootDir ==> c.kind == ComponentKind::RootDir
                &&& b.kind == ComponentKind::CurDir ==> c.kind == ComponentKind::CurDir
                &&& b.kind == ComponentKind::ParentDir ==> c.kind == ComponentKind::ParentDir
                &&& match (b.kind, c.kind) {
                    (ComponentKind::Prefix(x), ComponentKind::Prefix(y)) => {
                        &&& x.kind == y.kind
                        &&& (x.kind == PrefixKind::UNC || x.kind == PrefixKind::VerbatimUNC) ==> {
                            &&& base.subrange(x.first.0 as int, x.first.1 as int) == path.subrange(
                                y.first.0 as int,
                                y.first.1 as int,
                            )
                            &&& base.subrange(x.second.0 as int, x.second.1 as int)
                                == path.subrange(y.second.0 as int, y.second.1 as int)
                        }
                        &&& (x.kind == PrefixKind::Verbatim || x.kind == PrefixKind::DeviceNS)
                            ==> base.subrange(x.first.0 as int, x.first.1 as int) == path.subrange(
                            y.first.0 as int,
                            y.first.1 as int,
                        )
                        &&& (x.kind == PrefixKind::Disk || x.kind == PrefixKind::VerbatimDisk)
                            ==> ascii_upper(base[x.first.0 as int]) == ascii_upper(
                            path[y.first.0 as int],
                        )
                    },
                    (ComponentKind::Prefix(x), _) => false,
                    _ => true,
                }
            },
    ensures
        strip_prefix_text(path, base) == Some(rest_text(path, components(base).len() as int)),
{
    let cb = components(base);
    let cp = components(path);
    assert forall|i: int| 0 <= i < cb.len() implies #[trigger] component_eq(
        base,
        cb[i],
        path,
        cp[i],
    ) by {
        let b = cb[i];
        match b.kind {
            ComponentKind::Prefix(x) => {},
            _ => {},
        }
    }
}

/// `rc` is `sc` moved `a` characters to the left.
pub open spec fn shifted(rc: Seq<Component>, sc: Seq<Component>, a: int) -> bool {
    &&& rc.len() == sc.len()
    &&& forall|m: int|
        0 <= m < rc.len() ==> {
            &&& #[trigger] rc[m].kind == sc[m].kind
            &&& rc[m].start + a == sc[m].start
            &&& rc[m].end + a == sc[m].end
        }
}

/// Parsing the body again from the start of one of its components gives the
/// components from that one on.
proof fn lemma_body_from(s: Seq<char>, i: int, verbatim: bool, first: bool, j: int)
    requires
        0 <= i,
        s.len() <= usize::MAX,
        0 <= j < body_components(s, i, verbatim, first).len(),
        !first || j >= 1,
    ensures
        body_components(
            s,
            body_components(s, i, verbatim, first)[j].start as int,
            verbatim,
            false,
        ) == body_components(s, i, verbatim, first).subrange(
            j,
            body_components(s, i, verbatim, first).len() as int,
        ),
    decreases s.len() - i,
{
    let bc = body_components(s, i, verbatim, first);
    let e = comp_end(s, i, verbatim);
    lemma_comp_end(s, i, verbatim);
    let rest = if e < s.len() {
        body_components(s, e + 1, verbatim, false)
    } else {
        seq![]
    };
    if e < s.len() {
        lemma_body_bounds(s, e + 1, verbatim, false);
    }
    match classify(s, i, e, verbatim, first) {
        Some(k) => {
            assert(bc == seq![Component { kind: k, start: i as usize, end: e as usize }] + rest);
            if j == 0 {
                assert(!first);
                assert(bc.subrange(0, bc.len() as int) =~= bc);
            } else {
                assert(bc[j] == rest[j - 1]);
                if j - 1 >= 1 {
                    lemma_body_from(s, e + 1, verbatim, false, j - 1);
                } else {
                    lemma_body_from(s, e + 1, verbatim, false, 0);
                }
                assert(bc.subrange(j, bc.len() as int) =~= rest.subrange(j - 1, rest.len() as int));
            }
        },
        None => {
            assert(bc == rest);
            lemma_body_from(s, e + 1, verbatim, false, j);
        },
    }
}

/// The body read from `q` in `s` and the body read from `q - a` in
/// `s[a..z]` are the same components, moved by `a`, when no component of
/// the former ends after `z` and `z` ends a component of `s`.
proof fn lemma_body_window(s: Seq<char>, a: int, z: int, q: int, verbatim: bool)
    requires
        s.len() <= usize::MAX,
        0 <= a <= q <= z <= s.len(),
        z == s.len() || is_sep(s[z], verbatim),
        forall|m: int|
            0 <= m < body_components(s, q, verbatim, false).len() ==> #[trigger] body_components(
                s,
                q,
                verbatim,
                false,
            )[m].end <= z,
    ensures
        shifted(
            body_components(s.subrange(a, z), q - a, verbatim, false),
            body_components(s, q, verbatim, false),
            a,
        ),
    decreases s.len() - q,
{
    let t = s.subrange(a, z);
    let sc = body_components(s, q, verbatim, false);
    let tc = body_components(t, q - a, verbatim, false);
    lemma_body_bounds(s, q, verbatim, false);
    if q == z {
        assert(tc.len() == 0);
        if sc.len() > 0 {
            assert(sc[0].end <= z);
            assert(sc[0].start >= q);
            assert(false);
        }
    } else {
        let e = comp_end(s, q, verbatim);
        lemma_comp_end(s, q, verbatim);
        assert(e <= z) by {
            if e > z {
                assert(!is_sep(s[z], verbatim));
            }
        }
        assert(comp_end(t, q - a, verbatim) == e - a) by {
            lemma_comp_end_window(s, a, z, q, verbatim);
        }
        assert(classify(t, q - a, e - a, verbatim, false) == classify(s, q, e, verbatim, false)) by {
            if e - q >= 1 {
                assert(t[q - a] == s[q]);
            }
            if e - q >= 2 {
                assert(t[q - a + 1] == s[q + 1]);
            }
        }
        let srest = if e < s.len() {
            body_components(s, e + 1, verbatim, false)
        } else {
            seq![]
        };
        let trest = if e - a < t.len() {
            body_components(t, e - a + 1, verbatim, false)
        } else {
            seq![]
        };
        if e < z {
            lemma_body_bounds(s, e + 1, verbatim, false);
            match classify(s, q, e, verbatim, false) {
                Some(k) => {
                    assert forall|m: int| 0 <= m < srest.len() implies #[trigger] srest[m].end <= z by {
                        assert(sc[m + 1] == srest[m]);
                    }
                },
                None => {
                    assert(sc == srest);
                },
            }
            lemma_body_window(s, a, z, e + 1, verbatim);
        } else {
            assert(trest.len() == 0);
            if e < s.len() {
                lemma_body_bounds(s, e + 1, verbatim, false);
                if srest.len() > 0 {
                    assert(srest[0].start >= e + 1);
                    match classify(s, q, e, verbatim, false) {
                        Some(k) => {
                            assert(sc[1] == srest[0]);
                            assert(sc[1].end <= z);
                        },
                        None => {
                            assert(sc == srest);
                            assert(sc[0].end <= z);
                        },
                    }
                    assert(false);
                }
            }
            assert(srest.len() == 0);
        }
        match classify(s, q, e, verbatim, false) {
            Some(k) => {
                let c = Component { kind: k, start: q as usize, end: e as usize };
                let d = Component { kind: k, start: (q - a) as usize, end: (e - a) as usize };
                assert(sc == seq![c] + srest);
                assert(tc == seq![d] + trest);
                assert forall|m: int| 0 <= m < tc.len() implies {
                    &&& #[trigger] tc[m].kind == sc[m].kind
                    &&& tc[m].start + a == sc[m].start
                    &&& tc[m].end + a == sc[m].end
                } by {
                    if m > 0 {
                        assert(tc[m] == trest[m - 1]);
                        assert(sc[m] == srest[m - 1]);
                    }
                }
            },
            None => {
                assert(sc == srest);
                assert(tc == trest);
            },
        }
    }
}

proof fn lemma_comp_end_window(s: Seq<char>, a: int, z: int, q: int, verbatim: bool)
    requires
        0 <= a <= q <= z <= s.len(),
        comp_end(s, q, verbatim) <= z,
    ensures
        comp_end(s.subrange(a, z), q - a, verbatim) == comp_end(s, q, verbatim) - a,
    decreases z - q,
{
    let t = s.subrange(a, z);
    lemma_comp_end(s, q, verbatim);
    if q < z {
        assert(t[q - a] == s[q]);
        if !is_sep(s[q], verbatim) {
            lemma_comp_end_window(s, a, z, q + 1, verbatim);
        }
    }
}

/// Round trip of stripping: when the rest starts with a body component,
/// reading the rest on its own (in the separator mode of `path`) gives back
/// exactly the components of `path` that follow those of `base` and the root
/// separator, in their place. With [`law_strip_join`], `path` is `base`
/// joined with the rest, component by component.
pub proof fn law_strip_round_trip(path: Seq<char>, base: Seq<char>)
    requires
        path.len() <= usize::MAX,
        components(base).len() > 0,
    ensures
        strip_prefix_text(path, base) matches Some(t) ==> {
            let cp = components(path);
            let k2 = rest_index(path, cp, components(base).len() as int);
            (k2 < cp.len() && cp[k2].kind != ComponentKind::RootDir) ==> shifted(
                body_components(t, 0, verbatim_of(parse_prefix(path)), false),
                cp.subrange(k2, cp.len() as int),
                cp[k2].start as int,
            )
        },
{
    if strip_prefix_text(path, base) is Some {
        let t = strip_prefix_text(path, base).unwrap();
        let cp = components(path);
        let k = components(base).len() as int;
        let k2 = rest_index(path, cp, k);
        if k2 < cp.len() && cp[k2].kind != ComponentKind::RootDir {
            let v = verbatim_of(parse_prefix(path));
            lemma_components_parts(path);
            lemma_components_kinds(path);
            lemma_components_bounds(path);
            let h = prefix_part(path).len() + root_part(path).len();
            assert(k2 >= h) by {
                match cp[k2].kind {
                    ComponentKind::Prefix(x) => {},
                    _ => {},
                }
            }
            let bp = body_part(path);
            let b = body_start(path);
            let f = cur_dir_allowed(path);
            let j = k2 - h;
            assert(f ==> h == 0);
            lemma_body_bounds(path, b, v, f);
            lemma_body_from(path, b, v, f, j);
            let a = cp[k2].start as int;
            let last = cp.len() - 1;
            let z = cp[last].end as int;
            assert(cp[k2] == bp[j]);
            assert(cp[last] == bp[bp.len() - 1]);
            let tail = bp.subrange(j, bp.len() as int);
            assert(body_components(path, a, v, false) == tail);
            lemma_comp_end(path, bp[bp.len() - 1].start as int, v);
            assert(z == path.len() || is_sep(path[z], v)) by {
                lemma_body_end(path, b, v, f, bp.len() - 1);
            }
            assert forall|m: int| 0 <= m < tail.len() implies #[trigger] tail[m].end <= z by {
                if j + m < bp.len() - 1 {
                    assert(bp[j + m].end < bp[bp.len() - 1].start);
                }
            }
            assert(a <= z) by {
                assert(bp[j].start < bp[j].end);
                if j < bp.len() - 1 {
                    assert(bp[j].end < bp[bp.len() - 1].start);
                }
            }
            lemma_body_window(path, a, z, a, v);
            assert(t == path.subrange(a, z));
            assert(cp.subrange(k2, cp.len() as int) =~= tail) by {
                assert forall|m: int| 0 <= m < tail.len() implies cp.subrange(k2, cp.len() as int)[m] == tail[m] by {
                    assert(cp[k2 + m] == bp[j + m]);
                }
            }
        }
    }
}

/// A body component ends at a separator or at the end of the path.
proof fn lemma_body_end(s: Seq<char>, i: int, verbatim: bool, first: bool, m: int)
    requires
        0 <= i,
        s.len() <= usize::MAX,
        0 <= m < body_components(s, i, verbatim, first).len(),
    ensures
        ({
            let e = body_components(s, i, verbatim, first)[m].end as int;
            e == s.len() || is_sep(s[e], verbatim)
        }),
    decreases s.len() - i,
{
    let bc = body_components(s, i, verbatim, first);
    let e = comp_end(s, i, verbatim);
    lemma_comp_end(s, i, verbatim);
    let rest = if e < s.len() {
        body_components(s, e + 1, verbatim, false)
    } else {
        seq![]
    };
    match classify(s, i, e, verbatim, first) {
        Some(k) => {
            if m > 0 {
                assert(bc[m] == rest[m - 1]);
                lemma_body_end(s, e + 1, verbatim, false, m - 1);
            }
        },
        None => {
            assert(bc == rest);
            lemma_body_end(s, e + 1, verbatim, false, m);
        },
    }
}

// ---------------------------------------------------------------------------
// The parser
// ---------------------------------------------------------------------------

pub fn is_sep_exec(c: char, verbatim: bool) -> (r: bool)
    ensures
        r == is_sep(c, verbatim),
{
    c == '\\' || (!verbatim && c == '/')
}

fn find_comp_end(s: &Vec<char>, i: usize, verbatim: bool) -> (r: usize)
    requires
        i <= s@.len(),
    ensures
        r as int == comp_end(s@, i as int, verbatim),
        i <= r <= s@.len(),
{
    let mut j = i;
    while j < s.len() && !is_sep_exec(s[j], verbatim)
        invariant
            i <= j <= s@.len(),
            comp_end(s@, j as int, verbatim) == comp_end(s@, i as int, verbatim),
        decreases s@.len() - j,
    {
        j = j + 1;
    }
    j
}

fn next_start_exec(s: &Vec<char>, e: usize) -> (r: usize)
    requires
        e <= s@.len(),
    ensures
        r as int == next_start(s@, e as int),
{
    if e < s.len() {
        e + 1
    } else {
        s.len()
    }
}

fn starts_verbatim_exec(s: &Vec<char>) -> (r: bool)
    ensures
        r == starts_verbatim(s@),
{
    s.len() >= 4 && s[0] == '\\' && s[1] == '\\' && s[2] == '?' && s[3] == '\\'
}

/// The prefix of the path held in `s`.
pub fn parse_prefix_exec(s: &Vec<char>) -> (r: Option<Prefix>)
    ensures
        r == parse_prefix(s@),
{
    let n = s.len();
    if starts_verbatim_exec(s) {
        if n >= 8 && s[4] == 'U' && s[5] == 'N' && s[6] == 'C' && s[7] == '\\' {
            let e1 = find_comp_end(s, 8, true);
            let st2 = next_start_exec(s, e1);
            proof {
                lemma_comp_end(s@, e1 as int, true);
            }
            let e2 = find_comp_end(s, st2, true);
            let len = if e2 > st2 {
                e2
            } else {
                e1
            };
            Some(
                Prefix {
                    kind: PrefixKind::VerbatimUNC,
                    len,
                    first: (8, e1),
                    second: (st2, e2),
                },
            )
        } else if n >= 6 && is_ascii_letter_exec(s[4]) && s[5] == ':' && (n == 6 || is_sep_exec(
            s[6],
            false,
        )) {
            Some(Prefix { kind: PrefixKind::VerbatimDisk, len: 6, first: (4, 5), second: (0, 0) })
        } else {
            let e = find_comp_end(s, 4, true);
            Some(Prefix { kind: PrefixKind::Verbatim, len: e, first: (4, e), second: (0, 0) })
        }
    } else if n >= 2 && is_sep_exec(s[0], false) && is_sep_exec(s[1], false) {
        if n >= 4 && s[2] == '.' && is_sep_exec(s[3], false) {
            let e = find_comp_end(s, 4, false);
            Some(Prefix { kind: PrefixKind::DeviceNS, len: e, first: (4, e), second: (0, 0) })
        } else {
            let e1 = find_comp_end(s, 2, false);
            let st2 = next_start_exec(s, e1);
            let e2 = find_comp_end(s, st2, false);
            if e1 > 2 && e2 > st2 {
                Some(Prefix { kind: PrefixKind::UNC, len: e2, first: (2, e1), second: (st2, e2) })
            } else {
                None
            }
        }
    } else if n >= 2 && is_ascii_letter_exec(s[0]) && s[1] == ':' {
        Some(Prefix { kind: PrefixKind::Disk, len: 2, first: (0, 1), second: (0, 0) })
    } else {
        None
    }
}

fn classify_exec(s: &Vec<char>, i: usize, j: usize, verbatim: bool, first: bool) -> (r: Option<
    ComponentKind,
>)
    requires
        i <= j <= s@.len(),
    ensures
        r == classify(s@, i as int, j as int, verbatim, first),
{
    if j == i {
        None
    } else if j == i + 1 && s[i] == '.' {
        if verbatim || first {
            Some(ComponentKind::CurDir)
        } else {
            None
        }
    } else if j - i == 2 && s[i] == '.' && s[i + 1] == '.' {
        Some(ComponentKind::ParentDir)
    } else {
        Some(ComponentKind::Normal)
    }
}

fn push_body(s: &Vec<char>, out: &mut Vec<Component>, b: usize, verbatim: bool, first: bool)
    requires
        b <= s@.len(),
    ensures
        final(out)@ == old(out)@ + body_components(s@, b as int, verbatim, first),
{
    let ghost start = old(out)@;
    let n = s.len();
    let mut i = b;
    let mut fst = first;
    while i < n
        invariant
            n == s@.len(),
            b <= i <= n,
            out@ + body_components(s@, i as int, verbatim, fst) == start + body_components(
                s@,
                b as int,
                verbatim,
                first,
            ),
        decreases n - i,
    {
        let j = find_comp_end(s, i, verbatim);
        let k = classify_exec(s, i, j, verbatim, fst);
        let ghost before = out@;
        let ghost rest = if j < n {
            body_components(s@, j + 1, verbatim, false)
        } else {
            seq![]
        };
        match k {
            Some(kind) => {
                let c = Component { kind, start: i, end: j };
                out.push(c);
                assert(body_components(s@, i as int, verbatim, fst) == seq![c] + rest);
                assert(before + (seq![c] + rest) =~= out@ + rest);
            },
            None => {
                assert(body_components(s@, i as int, verbatim, fst) == rest);
            },
        }
        if j < n {
            i = j + 1;
        } else {
            i = n;
            assert(out@ + body_components(s@, i as int, verbatim, false) =~= out@ + rest);
        }
        fst = false;
    }
    assert(body_components(s@, i as int, verbatim, fst) =~= seq![]);
    assert(out@ + body_components(s@, i as int, verbatim, fst) =~= out@);
}

/// The components of the path held in `s`.
pub fn parse_components(s: &Vec<char>) -> (r: Vec<Component>)
    ensures
        r@ == components(s@),
{
    let pre = parse_prefix_exec(s);
    let n = s.len();
    proof {
        lemma_prefix_bounds(s@);
    }
    let (p, v) = match pre {
        Some(x) => (x.len, matches!(x.kind, PrefixKind::Verbatim | PrefixKind::VerbatimUNC | PrefixKind::VerbatimDisk)),
        None => (0, false),
    };
    let phys = p < s.len() && is_sep_exec(s[p], false);
    let implied = match pre {
        Some(x) => matches!(x.kind, PrefixKind::UNC | PrefixKind::DeviceNS),
        None => false,
    };
    let root = phys || implied;
    let mut out: Vec<Component> = Vec::new();
    match pre {
        Some(x) => {
            out.push(Component { kind: ComponentKind::Prefix(x), start: 0, end: p });
        },
        None => {},
    }
    if root {
        let e = if phys {
            p + 1
        } else {
            p
        };
        out.push(Component { kind: ComponentKind::RootDir, start: p, end: e });
    }
    let b = if phys {
        p + 1
    } else {
        p
    };
    let cur_dir = pre.is_none() && !root;
    push_body(s, &mut out, b, v, cur_dir);
    assert(out@ =~= components(s@));
    out
}


fn prefix_eq_exec(s1: &Vec<char>, a: Prefix, s2: &Vec<char>, b: Prefix) -> (r: bool)
    requires
        parse_prefix(s1@) == Some(a),
        parse_prefix(s2@) == Some(b),
        s1@.len() <= usize::MAX,
        s2@.len() <= usize::MAX,
    ensures
        r == prefix_eq(s1@, a, s2@, b),
{
    proof {
        lemma_prefix_bounds(s1@);
        lemma_prefix_bounds(s2@);
    }
    match (a.kind, b.kind) {
        (PrefixKind::VerbatimDisk, PrefixKind::VerbatimDisk) | (
            PrefixKind::Disk,
            PrefixKind::Disk,
        ) => ascii_upper_of(s1[a.first.0]) == ascii_upper_of(s2[b.first.0]),
        (PrefixKind::Verbatim, PrefixKind::Verbatim) | (
            PrefixKind::DeviceNS,
            PrefixKind::DeviceNS,
        ) => range_eq(s1, a.first.0, a.first.1, s2, b.first.0, b.first.1),
        (PrefixKind::VerbatimUNC, PrefixKind::VerbatimUNC) | (PrefixKind::UNC, PrefixKind::UNC) => {
            range_eq(s1, a.first.0, a.first.1, s2, b.first.0, b.first.1) && range_eq(
                s1,
                a.second.0,
                a.second.1,
                s2,
                b.second.0,
                b.second.1,
            )
        },
        _ => false,
    }
}

/// Whether the `i`-th component of one path equals the `j`-th of another.
fn component_eq_at(
    s1: &Vec<char>,
    c1: &Vec<Component>,
    i: usize,
    s2: &Vec<char>,
    c2: &Vec<Component>,
    j: usize,
) -> (r: bool)
    requires
        c1@ == components(s1@),
        c2@ == components(s2@),
        i < c1@.len(),
        j < c2@.len(),
    ensures
        r == component_eq(s1@, c1@[i as int], s2@, c2@[j as int]),
{
    let n1 = s1.len();
    let n2 = s2.len();
    proof {
        lemma_components_bounds(s1@);
        lemma_components_bounds(s2@);
        lemma_components_kinds(s1@);
        lemma_components_kinds(s2@);
    }
    let a = c1[i];
    let b = c2[j];
    assert(match a.kind {
        ComponentKind::Prefix(x) => parse_prefix(s1@) == Some(x),
        _ => true,
    });
    assert(match b.kind {
        ComponentKind::Prefix(x) => parse_prefix(s2@) == Some(x),
        _ => true,
    });
    match (a.kind, b.kind) {
        (ComponentKind::Prefix(x), ComponentKind::Prefix(y)) => prefix_eq_exec(s1, x, s2, y),
        (ComponentKind::RootDir, ComponentKind::RootDir) => true,
        (ComponentKind::CurDir, ComponentKind::CurDir) => true,
        (ComponentKind::ParentDir, ComponentKind::ParentDir) => true,
        (ComponentKind::Normal, ComponentKind::Normal) => range_eq(
            s1,
            a.start,
            a.end,
            s2,
            b.start,
            b.end,
        ),
        _ => false,
    }
}

/// `path` with the components of `base` taken off its front: the text from
/// the first component after them (a root separator `\` left over is dropped)
/// to the end of the last component; `None` when `base` is not made of the
/// first components of `path`.
pub fn strip_components<'a>(path: &'a str, base: &str) -> (r: Option<&'a str>)
    ensures
        match r {
            Some(t) => strip_prefix_text(path@, base@) == Some(t@),
            None => strip_prefix_text(path@, base@) is None,
        },
{
    let ps = chars_of(path);
    let bs = chars_of(base);
    let cp = parse_components(&ps);
    let cb = parse_components(&bs);
    let np = ps.len();
    proof {
        lemma_components_bounds(ps@);
    }
    if cb.len() > cp.len() {
        return None;
    }
    let mut i: usize = 0;
    while i < cb.len()
        invariant
            cp@ == components(ps@),
            cb@ == components(bs@),
            ps@ == path@,
            bs@ == base@,
            cb@.len() <= cp@.len(),
            i <= cb@.len(),
            forall|k: int| 0 <= k < i ==> #[trigger] component_eq(bs@, cb@[k], ps@, cp@[k]),
        decreases cb@.len() - i,
    {
        if !component_eq_at(&bs, &cb, i, &ps, &cp, i) {
            assert(!component_eq(base@, components(base@)[i as int], path@, components(path@)[i as int]));
            return None;
        }
        i = i + 1;
    }
    assert(starts_with_components(path@, base@));
    let k = cb.len();
    let k2 = if k < cp.len() && matches!(cp[k].kind, ComponentKind::RootDir) && !(cp[k].start
        < cp[k].end && ps[cp[k].start] == '/') {
        k + 1
    } else {
        k
    };
    if k2 >= cp.len() {
        let t = path.substring_char(0, 0);
        assert(t@ =~= rest_text(path@, k as int));
        Some(t)
    } else {
        let last = cp.len() - 1;
        let a = cp[k2].start;
        let b = cp[last].end;
        assert(a <= cp@[k2 as int].end);
        assert(k2 < last ==> cp@[k2 as int].end <= cp@[last as int].start);
        assert(cp@[last as int].start <= cp@[last as int].end);
        let t = path.substring_char(a, b);
        Some(t)
    }
}

} // verus!
