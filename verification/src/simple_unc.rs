//! Simplification of Win32 File Namespace paths.
use vstd::prelude::*;
use crate::components::strip_prefix_text;
use crate::display::Display;
use crate::drive_path::{drive_text, DrivePath, NO_DRIVE};
use crate::path_ext::{
    law_unc_conversion, strip_prefix_fix, unc_from_namespace, unc_from_win32_file_namespace,
};
use crate::verbatim_disk::{simplified, verbatim_disk_simplified};
use crate::volume::{drive_path_of, entries_of, mock_entries, sort_by_key, DriveEntry, Drives};
use crate::wide::{lemma_wide_len_concat, wide_len};
use crate::MAX_PATH;

verus! {

/// Simplifies [Win32 File Namespaces] paths (the `\\?\` prefix) for better
/// readability and compatibility.
///
/// | | `\\?\C:\dir` | `\\?\UNC\server\share\x` (on `Z:`) |
/// | --- | --- | --- |
/// | `SimpleUnc` | `C:\dir` | `\\server\share\x` |
/// | `SimpleUnc` with `map_to_drive` | `C:\dir` | `Z:\x` |
///
/// [Win32 File Namespaces]: https://learn.microsoft.com/en-us/windows/win32/fileio/naming-a-file#win32-file-namespaces
#[derive(Debug)]
pub struct SimpleUnc {
    /// When set to `true`, the simplification is disabled if the result is a
    /// "long path" (longer than `MAX_PATH`, 260 UTF-16 units).
    pub disallow_long: bool,
    /// Map to network share drive names when possible: `Z:\dir\file.txt`
    /// instead of `\\server\share\dir\file.txt`.
    pub map_to_drive: bool,
    /// The simplification of `\\?\C:\...` paths is applied by default. Set to
    /// `true` to skip it.
    pub skip_dunce: bool,
    /// Not used; it allows `..Default::default()` even when all other fields
    /// are given.
    pub _unused: bool,
    /// The network drives of the machine, when known.
    pub volumes: Option<Drives>,
}

/// The drive table, empty when none is known.
pub open spec fn table_of(volumes: Option<Drives>) -> Seq<DriveEntry> {
    match volumes {
        Some(d) => d@,
        None => seq![],
    }
}

/// What the mapped-drive and UNC rules give for `p`.
pub open spec fn simplify_by_drive(
    disallow_long: bool,
    map_to_drive: bool,
    table: Seq<DriveEntry>,
    p: Seq<char>,
) -> Option<Seq<char>> {
    match drive_path_of(table, p) {
        Some((letter, suffix)) => if map_to_drive && letter != NO_DRIVE && (!disallow_long
            || wide_len(drive_text(letter, suffix)) <= MAX_PATH) {
            Some(drive_text(letter, suffix))
        } else {
            unc_from_namespace(p, disallow_long)
        },
        None => None,
    }
}

/// The simplified form of `p`, or `None` when no simplification applies.
pub open spec fn simplify_text(
    disallow_long: bool,
    map_to_drive: bool,
    skip_dunce: bool,
    table: Seq<DriveEntry>,
    p: Seq<char>,
) -> Option<Seq<char>> {
    let by_drive = simplify_by_drive(disallow_long, map_to_drive, table, p);
    if by_drive is Some {
        by_drive
    } else if !skip_dunce {
        verbatim_disk_simplified(p)
    } else {
        None
    }
}

/// The error of [`SimpleUnc::strip_prefix`]: the base is not a prefix of the
/// path.
#[derive(Debug, Clone, Copy, PartialEq, Eq)]
pub struct StripPrefixError;

impl Default for SimpleUnc {
    fn default() -> (r: Self)
        ensures
            !r.disallow_long,
            !r.map_to_drive,
            !r.skip_dunce,
            !r._unused,
            r.volumes is None,
    {
        SimpleUnc {
            disallow_long: false,
            map_to_drive: false,
            skip_dunce: false,
            _unused: false,
            volumes: None,
        }
    }
}

impl SimpleUnc {
    pub open spec fn simplify_spec(&self, p: Seq<char>) -> Option<Seq<char>> {
        simplify_text(
            self.disallow_long,
            self.map_to_drive,
            self.skip_dunce,
            table_of(self.volumes),
            p,
        )
    }

    /// Try to simplify the given `path`.
    ///
    /// When a mapped network drive holds `path`, the result is the path on
    /// the drive (`map_to_drive`) or the plain UNC path; otherwise
    /// `\\?\C:\...` loses its `\\?\` when that keeps its meaning. Returns
    /// `None` if no simplification is applied.
    pub fn simplify(&self, path: &str) -> (r: Option<String>)
        ensures
            match r {
                Some(t) => self.simplify_spec(path@) == Some(t@),
                None => self.simplify_spec(path@) is None,
            },
    {
        if let Some(drive_path) = self.drive_path(path) {
            if self.map_to_drive && drive_path.has_drive() && (!self.disallow_long
                || !drive_path.is_win32_long_path()) {
                return Some(drive_path.to_path_buf());
            }
            if let Some(unc) = unc_from_win32_file_namespace(path, self.disallow_long) {
                return Some(unc);
            }
        }
        if !self.skip_dunce {
            if let Some(s) = simplified(path) {
                return Some(String::from_str(s));
            }
        }
        None
    }

    /// The mapped network drive that holds `path`, and the path below its root.
    fn drive_path<'a>(&self, path: &'a str) -> (r: Option<DrivePath<'a>>)
        ensures
            match r {
                Some(d) => drive_path_of(table_of(self.volumes), path@) == Some(
                    (d.drive_letter, d.path@),
                ),
                None => drive_path_of(table_of(self.volumes), path@) is None,
            },
    {
        match &self.volumes {
            Some(volumes) => volumes._drive_path(path),
            None => None,
        }
    }

    /// Replaces the drive table with the network drives `drives` (pairs of a
    /// drive letter and the canonical root it maps).
    pub fn refresh(&mut self, drives: Vec<(char, String)>)
        ensures
            final(self).disallow_long == old(self).disallow_long,
            final(self).map_to_drive == old(self).map_to_drive,
            final(self).skip_dunce == old(self).skip_dunce,
            final(self)._unused == old(self)._unused,
            table_of(final(self).volumes) == sort_by_key(entries_of(drives@)),
    {
        self.volumes = Some(Drives::with_drives(drives));
    }

    /// Returns an object that shows `path` simplified.
    pub fn display<'a>(&'a self, path: &'a str) -> (r: Display<'a>)
        ensures
            r.unc == self,
            r.path == path,
    {
        Display::new(self, path)
    }

    /// [`Path::strip_prefix`] for Windows paths, with a fix for a leading `\`
    /// left for UNC paths.
    ///
    /// [`Path::strip_prefix`]: https://doc.rust-lang.org/std/path/struct.Path.html#method.strip_prefix
    pub fn strip_prefix<'a>(path: &'a str, base: &str) -> (r: Result<&'a str, StripPrefixError>)
        ensures
            match r {
                Ok(t) => strip_prefix_text(path@, base@) == Some(t@),
                Err(_) => strip_prefix_text(path@, base@) is None,
            },
    {
        match strip_prefix_fix(path, base) {
            Some(t) => Ok(t),
            None => Err(StripPrefixError),
        }
    }

    /// A `SimpleUnc` with the defaults and the drive table of the test machine
    /// (see [`Drives::mock`]).
    pub fn mock_with_drive() -> (r: SimpleUnc)
        ensures
            !r.disallow_long,
            !r.map_to_drive,
            !r.skip_dunce,
            !r._unused,
            table_of(r.volumes) == sort_by_key(mock_entries()),
    {
        SimpleUnc {
            disallow_long: false,
            map_to_drive: false,
            skip_dunce: false,
            _unused: false,
            volumes: Some(Drives::mock()),
        }
    }
}

// ---------------------------------------------------------------------------
// Laws
// ---------------------------------------------------------------------------

proof fn lemma_wide_len_suffix(s: Seq<char>, k: int)
    requires
        0 <= k <= s.len(),
    ensures
        wide_len(s.subrange(k, s.len() as int)) <= wide_len(s),
{
    assert(s =~= s.subrange(0, k) + s.subrange(k, s.len() as int));
    lemma_wide_len_concat(s.subrange(0, k), s.subrange(k, s.len() as int));
}

/// The `\\?\C:\...` rule only drops the four-character `\\?\` prefix.
pub proof fn law_verbatim_disk_drops_prefix(p: Seq<char>)
    ensures
        verbatim_disk_simplified(p) matches Some(t) ==> p == seq!['\\', '\\', '?', '\\'] + t,
{
    if verbatim_disk_simplified(p) is Some {
        let t = verbatim_disk_simplified(p).unwrap();
        crate::components::lemma_components_kinds(p);
        crate::components::lemma_prefix_bounds_any(p);
        assert(p =~= seq!['\\', '\\', '?', '\\'] + t);
    }
}

/// With `disallow_long`, a simplified path is never a long path: every rule
/// gives at most `MAX_PATH` UTF-16 units then.
pub proof fn law_disallow_long(
    map_to_drive: bool,
    skip_dunce: bool,
    table: Seq<DriveEntry>,
    p: Seq<char>,
)
    ensures
        simplify_text(true, map_to_drive, skip_dunce, table, p) matches Some(t) ==> wide_len(t)
            <= MAX_PATH,
{
    law_unc_conversion(p, true);
    if simplify_by_drive(true, map_to_drive, table, p) is None && !skip_dunce
        && verbatim_disk_simplified(p) is Some {
        crate::components::lemma_components_kinds(p);
        crate::components::lemma_prefix_bounds_any(p);
        lemma_wide_len_suffix(p, 4);
    }
}

/// Without a drive table only the `\\?\C:\...` rule applies, and with
/// `skip_dunce` nothing does.
pub proof fn law_no_drive_table(
    disallow_long: bool,
    map_to_drive: bool,
    skip_dunce: bool,
    p: Seq<char>,
)
    ensures
        simplify_text(disallow_long, map_to_drive, skip_dunce, seq![], p) == if skip_dunce {
            None
        } else {
            verbatim_disk_simplified(p)
        },
{
}

/// With `skip_dunce`, only the mapped-drive and UNC rules apply.
pub proof fn law_skip_dunce(
    disallow_long: bool,
    map_to_drive: bool,
    table: Seq<DriveEntry>,
    p: Seq<char>,
)
    ensures
        simplify_text(disallow_long, map_to_drive, true, table, p) == simplify_by_drive(
            disallow_long,
            map_to_drive,
            table,
            p,
        ),
{
}

/// Without `disallow_long`, a path on a known share in the `\\?\UNC\` form
/// becomes `\\` followed by what came after `\\?\UNC\`, whatever its
/// length, unless the drive form is taken (`map_to_drive` on a share that
/// has a drive letter).
pub proof fn law_unc_form_without_limit(
    map_to_drive: bool,
    skip_dunce: bool,
    table: Seq<DriveEntry>,
    p: Seq<char>,
)
    requires
        drive_path_of(table, p) is Some,
        !map_to_drive || drive_path_of(table, p).unwrap().0 == NO_DRIVE,
        p.len() >= 8,
        p[0] == '\\' && p[1] == '\\' && p[2] == '?' && p[3] == '\\',
        p[4] == 'U' || p[4] == 'u',
        p[5] == 'N' || p[5] == 'n',
        p[6] == 'C' || p[6] == 'c',
        p[7] == '\\',
    ensures
        simplify_text(false, map_to_drive, skip_dunce, table, p) == Some(
            seq!['\\', '\\'] + p.subrange(8, p.len() as int),
        ),
{
}

/// With `map_to_drive` (and no long-path limit), a path on a share mapped to
/// a drive letter becomes that letter, `:` and `\`, followed by the path
/// below the share's root; for the root itself that is `X:\`.
pub proof fn law_drive_form(skip_dunce: bool, table: Seq<DriveEntry>, p: Seq<char>)
    requires
        drive_path_of(table, p) is Some,
        drive_path_of(table, p).unwrap().0 != NO_DRIVE,
    ensures
        ({
            let (letter, below) = drive_path_of(table, p).unwrap();
            simplify_text(false, true, skip_dunce, table, p) matches Some(r) && r.len()
                == below.len() + 3 && r[0] == letter && r[1] == ':' && r[2] == '\\'
                && r.subrange(3, r.len() as int) == below
        }),
{
    let (letter, below) = drive_path_of(table, p).unwrap();
    let r = drive_text(letter, below);
    assert(r.subrange(3, r.len() as int) =~= below);
}

/// With `disallow_long`, a path on a known share in the `\\?\UNC\` form is
/// still converted to `\\` followed by what came after `\\?\UNC\` when that
/// form fits in `MAX_PATH` UTF-16 units (unless the drive form is taken).
pub proof fn law_unc_form_within_limit(
    map_to_drive: bool,
    skip_dunce: bool,
    table: Seq<DriveEntry>,
    p: Seq<char>,
)
    requires
        drive_path_of(table, p) is Some,
        !map_to_drive || drive_path_of(table, p).unwrap().0 == NO_DRIVE,
        p.len() >= 8,
        p[0] == '\\' && p[1] == '\\' && p[2] == '?' && p[3] == '\\',
        p[4] == 'U' || p[4] == 'u',
        p[5] == 'N' || p[5] == 'n',
        p[6] == 'C' || p[6] == 'c',
        p[7] == '\\',
        wide_len(seq!['\\', '\\'] + p.subrange(8, p.len() as int)) <= MAX_PATH,
    ensures
        simplify_text(true, map_to_drive, skip_dunce, table, p) == Some(
            seq!['\\', '\\'] + p.subrange(8, p.len() as int),
        ),
{
    crate::path_ext::lemma_unc_text_wide_len(p);
}

/// With `map_to_drive` and `disallow_long`, a path on a share mapped to a
/// drive letter still takes the drive form when that form fits in
/// `MAX_PATH` UTF-16 units.
pub proof fn law_drive_form_within_limit(skip_dunce: bool, table: Seq<DriveEntry>, p: Seq<char>)
    requires
        drive_path_of(table, p) is Some,
        drive_path_of(table, p).unwrap().0 != NO_DRIVE,
        wide_len(
            seq![drive_path_of(table, p).unwrap().0, ':', '\\'] + drive_path_of(table, p).unwrap().1,
        ) <= MAX_PATH,
    ensures
        simplify_text(true, true, skip_dunce, table, p) == Some(
            seq![drive_path_of(table, p).unwrap().0, ':', '\\'] + drive_path_of(table, p).unwrap().1,
        ),
{
}

} // verus!
