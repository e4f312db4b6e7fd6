//! A path expressed relative to a mapped network drive.
use vstd::prelude::*;
use crate::text::string_push;
use crate::wide::{is_wide_longer_than, wide_len};
use crate::MAX_PATH;

verus! {

/// The drive letter `'\0'` marks a connected share that has no drive letter.
pub const NO_DRIVE: char = '\0';

/// `X:\` followed by `suffix`.
pub open spec fn drive_text(drive_letter: char, suffix: Seq<char>) -> Seq<char> {
    seq![drive_letter, ':', '\\'] + suffix
}

/// A path within the share mapped to `drive_letter`, as the `path` below the
/// share's root.
#[derive(Debug, PartialEq, Eq)]
pub struct DrivePath<'a> {
    pub drive_letter: char,
    pub path: &'a str,
}

impl<'a> DrivePath<'a> {
    pub fn new(drive_letter: char, path: &'a str) -> (r: Self)
        ensures
            r.drive_letter == drive_letter,
            r.path == path,
    {
        DrivePath { drive_letter, path }
    }

    /// Whether the share is mapped to a drive letter.
    pub fn has_drive(&self) -> (r: bool)
        ensures
            r == (self.drive_letter != NO_DRIVE),
    {
        self.drive_letter != NO_DRIVE
    }

    /// The path on the drive: `X:\` followed by the path below the root.
    pub fn to_path_buf(&self) -> (r: String)
        ensures
            r@ == drive_text(self.drive_letter, self.path@),
    {
        let mut r = String::new();
        string_push(&mut r, self.drive_letter);
        string_push(&mut r, ':');
        string_push(&mut r, '\\');
        r.append(self.path);
        assert(r@ =~= drive_text(self.drive_letter, self.path@));
        r
    }

    /// Whether the path on the drive is longer than `MAX_PATH` UTF-16 units.
    pub fn is_win32_long_path(&self) -> (r: bool)
        ensures
            r == (wide_len(drive_text(self.drive_letter, self.path@)) > MAX_PATH),
    {
        let text = self.to_path_buf();
        is_wide_longer_than(text.as_str(), MAX_PATH)
    }
}

} // verus!
