use simple_unc::path_ext;
use simple_unc::wide;
use simple_unc::MAX_PATH;

#[test]
fn is_win32_file_namespace_unc() {
    assert!(path_ext::is_win32_file_namespace_unc(r"\\?\UNC\server\share\dir"));
    assert!(path_ext::is_win32_file_namespace_unc(r"\\?\unc\server\share\dir"));
    assert!(path_ext::is_win32_file_namespace_unc(r"\\?\UnC\server\share\dir"));

    assert!(!path_ext::is_win32_file_namespace_unc(r"\\?\UNC"));
    assert!(!path_ext::is_win32_file_namespace_unc(r"\\?\server\share\dir"));
    assert!(!path_ext::is_win32_file_namespace_unc(r"\\server\share\dir"));
    assert!(!path_ext::is_win32_file_namespace_unc("/a/b"));
}

#[test]
fn unc_from_win32_file_namespace() {
    assert_eq!(path_ext::unc_from_win32_file_namespace(r"C:\foo", false), None);
    assert_eq!(
        path_ext::unc_from_win32_file_namespace(r"\\?\UNC\server\share\dir", false),
        Some(String::from(r"\\server\share\dir"))
    );
}

#[test]
fn unc_from_win32_file_namespace_long() {
    const PREFIX: &str = r"\\?\UNC\";
    const UNC_PREFIX: &str = r"\\";
    const SERVER_SHARE: &str = r"server\share\";
    const PATH_MAX: usize = MAX_PATH as usize - UNC_PREFIX.len() - SERVER_SHARE.len();
    let max_src = PREFIX.to_string() + SERVER_SHARE + &"1".repeat(PATH_MAX);
    assert_eq!(
        path_ext::unc_from_win32_file_namespace(&max_src, true),
        Some(UNC_PREFIX.to_string() + SERVER_SHARE + &"1".repeat(PATH_MAX))
    );
    let too_long_src = PREFIX.to_string() + SERVER_SHARE + &"1".repeat(PATH_MAX + 1);
    assert_eq!(path_ext::unc_from_win32_file_namespace(&too_long_src, true), None);
    assert_eq!(
        path_ext::unc_from_win32_file_namespace(&too_long_src, false),
        Some(UNC_PREFIX.to_string() + SERVER_SHARE + &"1".repeat(PATH_MAX + 1))
    );
}

#[test]
fn is_wide_longer_than() {
    assert!(!wide::is_wide_longer_than("", 10));

    assert!(!wide::is_wide_longer_than(&"1".repeat(9), 10));
    assert!(!wide::is_wide_longer_than(&"1".repeat(10), 10));
    assert!(wide::is_wide_longer_than(&"1".repeat(11), 10));

    assert!(!wide::is_wide_longer_than(&"\u{3042}".repeat(9), 10));
    assert!(!wide::is_wide_longer_than(&"\u{3042}".repeat(10), 10));
    assert!(wide::is_wide_longer_than(&"\u{3042}".repeat(11), 10));
}

#[test]
fn to_wide_vec_with_nul() {
    assert_eq!(wide::to_wide_vec_with_nul("AB"), vec![0x41, 0x42, 0]);
    assert_eq!(
        wide::to_wide_vec_with_nul("\u{3042}\u{3043}"),
        vec![0x3042, 0x3043, 0]
    );
}

#[test]
fn wide_surrogate_pairs() {
    // U+1F600 is encoded as the surrogate pair D83D DE00.
    assert_eq!(wide::to_wide_vec_with_nul("a\u{1F600}"), vec![0x61, 0xD83D, 0xDE00, 0]);
    assert!(!wide::is_wide_longer_than(&"\u{1F600}".repeat(5), 10));
    assert!(wide::is_wide_longer_than(&"\u{1F600}".repeat(6), 11));
    assert!(wide::is_wide_longer_than("\u{1F600}", 1));
    assert!(!wide::is_wide_longer_than("\u{1F600}", 2));
}

#[test]
fn wide_length_matches_encoding() {
    for text in ["", "abc", "\u{3042}x", "\u{1F600}\u{1F600}"] {
        let units = wide::to_wide_vec_with_nul(text).len();
        for max in 0u32..8 {
            assert_eq!(wide::is_wide_longer_than(text, max), units > max as usize + 1);
        }
    }
}

#[test]
fn unc_conversion_takes_six_units() {
    let src = r"\\?\unc\server\share\x";
    let unc = path_ext::unc_from_win32_file_namespace(src, true).unwrap();
    assert_eq!(unc, r"\\server\share\x");
    assert_eq!(
        wide::to_wide_vec_with_nul(src).len(),
        wide::to_wide_vec_with_nul(&unc).len() + 6
    );
    assert_eq!(path_ext::unc_from_win32_file_namespace(r"\\?\UNC\", false), Some(String::from(r"\\")));
}

#[test]
fn strip_prefix_fix_drops_root() {
    assert_eq!(
        path_ext::strip_prefix_fix(r"\\?\UNC\server\share\dir\file.txt", r"\\?\UNC\server\share"),
        Some(r"dir\file.txt")
    );
    assert_eq!(
        path_ext::strip_prefix_fix(r"\\?\UNC\server\share\dir", r"\\?\UNC\server\share\dir"),
        Some("")
    );
    assert_eq!(
        path_ext::strip_prefix_fix(r"\\?\UNC\server\shared\dir", r"\\?\UNC\server\share"),
        None
    );
}
