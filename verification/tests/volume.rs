use simple_unc::drive_path::DrivePath;
use simple_unc::volume::{drive_letters, Drives};

#[test]
fn sort_drives() {
    assert_eq!(Drives::sort_drives(vec![]), vec![]);
    assert_eq!(
        Drives::sort_drives(vec![('A', String::from("1"))]),
        vec![('A', String::from("1"))]
    );
    assert_eq!(
        Drives::sort_drives(vec![
            ('C', String::from("12")),
            ('A', String::from("123")),
            ('B', String::from("12"))
        ]),
        vec![
            ('B', String::from("12")),
            ('C', String::from("12")),
            ('A', String::from("123"))
        ]
    );
}

#[test]
fn sort_drives_is_stable_and_by_bytes() {
    // Equal keys keep their order; length counts UTF-8 bytes.
    assert_eq!(
        Drives::sort_drives(vec![
            ('B', String::from("yy")),
            ('B', String::from("xx")),
            ('A', String::from("\u{00E9}")),
            ('A', String::from("zzz"))
        ]),
        vec![
            ('A', String::from("\u{00E9}")),
            ('B', String::from("yy")),
            ('B', String::from("xx")),
            ('A', String::from("zzz"))
        ]
    );
}

// [`fs::canonicalize`] emits the [Win32 File Namespaces].
//
// [`fs::canonicalize`]: https://doc.rust-lang.org/std/fs/fn.canonicalize.html
// [Win32 File Namespaces]: https://learn.microsoft.com/en-us/windows/win32/fileio/naming-a-file#win32-file-namespaces
#[test]
fn drive_path_win32_file_namespaces() {
    let drives = Drives::with_drives(vec![
        ('H', String::from(r"\\?\UNC\server\share\dir")),
        ('X', String::from(r"\\?\UNC\server\share")),
        ('Z', String::from(r"\\?\UNC\server2\share2")),
    ]);
    assert_eq!(
        drives._drive_path(r"\\?\UNC\server\share\dir\file.txt"),
        Some(DrivePath::new('X', r"dir\file.txt"))
    );
    assert_eq!(
        drives._drive_path(r"\\?\UNC\server2\share2\dir2\file2.txt"),
        Some(DrivePath::new('Z', r"dir2\file2.txt")),
    );
    assert_eq!(
        drives._drive_path(r"\\?\UNC\server3\share3\dir3\file3.txt"),
        None,
    );
    assert_eq!(drives._drive_path(r"C:\Windows\System32"), None);
}

#[test]
fn shortest_root_wins_whatever_the_input_order() {
    let a = Drives::with_drives(vec![
        ('Y', String::from(r"\\?\UNC\s\sh")),
        ('W', String::from(r"\\?\UNC\s\sh")),
        ('H', String::from(r"\\?\UNC\s\sh\d")),
    ]);
    assert_eq!(a._drive_path(r"\\?\UNC\s\sh\d\f"), Some(DrivePath::new('W', r"d\f")));
}

#[test]
fn drive_path_text() {
    let d = DrivePath::new('X', r"dir\f");
    assert!(d.has_drive());
    assert_eq!(d.to_path_buf(), r"X:\dir\f");
    assert!(!d.is_win32_long_path());
    let e = DrivePath::new('\0', "x");
    assert!(!e.has_drive());
    let name = "n".repeat(257);
    assert!(!DrivePath::new('X', &name).is_win32_long_path());
    let name = "n".repeat(258);
    assert!(DrivePath::new('X', &name).is_win32_long_path());
}

#[test]
fn drive_letters_of_mask() {
    assert_eq!(drive_letters(0), Vec::<char>::new());
    assert_eq!(drive_letters(0b101), vec!['A', 'C']);
    assert_eq!(drive_letters(1 << 25), vec!['Z']);
    assert_eq!(drive_letters(u32::MAX).len(), 26);
    assert_eq!(drive_letters((1 << 26) | (1 << 3)), vec!['D']);
}
