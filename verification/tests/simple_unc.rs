use simple_unc::volume::Drives;
use std::path::Path;
use simple_unc::SimpleUnc;

#[test]
fn simplify_not_simplified() {
    let unc = SimpleUnc::default();
    assert_eq!(unc.simplify(r"C:\foo"), None);
}

#[test]
fn simplify_drive_not_simplified() {
    let unc = SimpleUnc::mock_with_drive();
    assert_eq!(unc.simplify(r"C:\foo"), None);
}

#[test]
fn simplify_drive_unc() {
    let mut unc = SimpleUnc::mock_with_drive();
    let path = r"\\?\UNC\server\share\foo";
    let path2 = r"\\?\UNC\server2\share2\foo2";
    assert_eq!(unc.simplify(path), Some(String::from(r"\\server\share\foo")));
    assert_eq!(unc.simplify(path2), Some(String::from(r"\\server2\share2\foo2")));

    unc.map_to_drive = true;
    assert_eq!(unc.simplify(path), Some(String::from(r"X:\foo")));
    assert_eq!(unc.simplify(path2), Some(String::from(r"Z:\foo2")));
}

#[test]
fn simplify_dunce() {
    let unc = SimpleUnc::default();
    assert_eq!(unc.simplify(r"\\?\C:\foo"), Some(String::from(r"C:\foo")));
}

#[test]
fn simplify_dunce_skip() {
    let unc = SimpleUnc {
        skip_dunce: true,
        ..Default::default()
    };
    assert_eq!(unc.simplify(r"\\?\C:\foo"), None);
}

#[test]
fn simplify_unmapped_connected_share() {
    let mut unc = SimpleUnc::mock_with_drive();
    let path = r"\\?\UNC\server0\share0\foo";
    assert_eq!(unc.simplify(path), Some(String::from(r"\\server0\share0\foo")));

    // Even with map_to_drive = true, it should simplify to the UNC path,
    // because the drive letter is '\0'.
    unc.map_to_drive = true;
    assert_eq!(unc.simplify(path), Some(String::from(r"\\server0\share0\foo")));
}

#[test]
fn simplify_unknown_share_keeps_namespace() {
    // Not on a known drive: the `\\?\UNC\` form stays.
    let unc = SimpleUnc::mock_with_drive();
    assert_eq!(unc.simplify(r"\\?\UNC\server3\share3\foo"), None);
    let unc = SimpleUnc::default();
    assert_eq!(unc.simplify(r"\\?\UNC\server\share\foo"), None);
}

#[test]
fn simplify_disallow_long() {
    let long_name = "a".repeat(250);
    let path = format!(r"\\?\UNC\server\share\{}", long_name);
    let mut unc = SimpleUnc::mock_with_drive();
    unc.map_to_drive = true;
    // X:\ + 250 = 253 units: short enough for the drive form.
    assert_eq!(unc.simplify(&path), Some(format!(r"X:\{}", long_name)));
    unc.disallow_long = true;
    assert_eq!(unc.simplify(&path), Some(format!(r"X:\{}", long_name)));

    let longer = format!(r"\\?\UNC\server\share\{}", "b".repeat(258));
    // X:\ + 258 = 261 units and \\server\share\ + 258 = 273 units: both long.
    assert_eq!(unc.simplify(&longer), None);
    unc.disallow_long = false;
    assert_eq!(unc.simplify(&longer), Some(format!(r"X:\{}", "b".repeat(258))));
}

#[test]
fn simplify_dunce_rules() {
    let unc = SimpleUnc::default();
    assert_eq!(unc.simplify(r"\\?\c:\foo\bar"), Some(String::from(r"c:\foo\bar")));
    assert_eq!(unc.simplify(r"\\?\Z:\foo\bar\"), Some(String::from(r"Z:\foo\bar\")));
    assert_eq!(unc.simplify(r"\\?\C:\COM"), Some(String::from(r"C:\COM")));
    assert_eq!(unc.simplify(r"\\?\C:\"), Some(String::from(r"C:\")));
    // The root after `\\?\C:` may be written `/`.
    assert_eq!(unc.simplify(r"\\?\C:/foo"), Some(String::from(r"C:/foo")));
    // Reserved device names, `.`/`..`, trailing dots and spaces stay verbatim.
    assert_eq!(unc.simplify(r"\\?\C:\con"), None);
    assert_eq!(unc.simplify(r"\\?\C:\dir\Com4 .txt"), None);
    assert_eq!(unc.simplify(r"\\?\C:\lpt9"), None);
    assert_eq!(unc.simplify(r"\\?\C:\foo\.\bar"), None);
    assert_eq!(unc.simplify(r"\\?\C:\foo\..\bar"), None);
    assert_eq!(unc.simplify(r"\\?\C:\foo."), None);
    assert_eq!(unc.simplify(r"\\?\C:\foo "), None);
    assert_eq!(unc.simplify(r"\\?\C:\a<b"), None);
    assert_eq!(unc.simplify(r"\\?\c:foo"), None);
    assert_eq!(unc.simplify(r"\\?\cc:foo"), None);
    assert_eq!(unc.simplify(r"\\?\serv\"), None);
    assert_eq!(unc.simplify(r"\\.\C:\notdisk"), None);
    assert_eq!(unc.simplify(r"C:\foo"), None);
    // Names and paths that are too long stay verbatim.
    let name = "a".repeat(256);
    assert_eq!(unc.simplify(&format!(r"\\?\C:\{}", name)), None);
    let long = "\u{00AE}".repeat(160);
    assert_eq!(
        unc.simplify(&format!(r"\\?\c:\{}", long)),
        Some(format!(r"c:\{}", long))
    );
    assert_eq!(unc.simplify(&format!(r"\\?\c:\{}\{}", long, long)), None);
}

#[test]
fn refresh_replaces_drive_table() {
    let mut unc = SimpleUnc {
        map_to_drive: true,
        ..Default::default()
    };
    let path = r"\\?\UNC\host\data\f.txt";
    assert_eq!(unc.simplify(path), None);
    unc.refresh(vec![('Q', String::from(r"\\?\UNC\host\data"))]);
    assert_eq!(unc.simplify(path), Some(String::from(r"Q:\f.txt")));
    assert!(unc.map_to_drive);
    unc.refresh(vec![]);
    assert_eq!(unc.simplify(path), None);
}

#[test]
fn strip_prefix_windows_paths() {
    assert_eq!(
        SimpleUnc::strip_prefix(r"\\?\UNC\server\share\dir\file.txt", r"\\?\UNC\server\share"),
        Ok(r"dir\file.txt")
    );
    assert_eq!(SimpleUnc::strip_prefix(r"C:\a\b\c", r"c:\a"), Ok(r"b\c"));
    assert_eq!(SimpleUnc::strip_prefix(r"C:\a\\b\", r"C:/a/"), Ok("b"));
    assert_eq!(SimpleUnc::strip_prefix(r"C:\a\.\b", r"C:\a"), Ok("b"));
    assert_eq!(SimpleUnc::strip_prefix(r"C:\a\b", r"C:\a\b"), Ok(""));
    assert_eq!(SimpleUnc::strip_prefix(r"a\b", ""), Ok(r"a\b"));
    assert_eq!(SimpleUnc::strip_prefix(r"\\server\share\x", r"//server/share"), Ok("x"));
    assert!(SimpleUnc::strip_prefix(r"C:\ab", r"C:\a").is_err());
    assert!(SimpleUnc::strip_prefix(r"C:\a", r"D:\a").is_err());
    assert!(SimpleUnc::strip_prefix(r"C:a", r"C:\").is_err());
    assert!(SimpleUnc::strip_prefix(r"\\?\C:\a", r"C:\a").is_err());
    assert!(SimpleUnc::strip_prefix(r"\\?\UNC\s\sh\a", r"\\s\sh").is_err());
    assert!(SimpleUnc::strip_prefix(r"a", r"a\b").is_err());
    // A leading `.` after a drive prefix is no component.
    assert_eq!(SimpleUnc::strip_prefix("C:x", "C:."), Ok("x"));
    assert_eq!(SimpleUnc::strip_prefix(r"C:.\x", "C:"), Ok("x"));
    assert_eq!(SimpleUnc::strip_prefix(r".\x", "."), Ok("x"));
    // `\\?\C:` takes either separator after the drive.
    assert_eq!(SimpleUnc::strip_prefix(r"\\?\C:/a", r"\\?\C:"), Ok("/a"));
    // Only a root written `\` is dropped from the rest.
    assert_eq!(SimpleUnc::strip_prefix("C:/a", "C:"), Ok("/a"));
    assert_eq!(SimpleUnc::strip_prefix(r"C:\a", "C:"), Ok("a"));
    // In verbatim paths `.` counts and `/` is no separator.
    assert!(SimpleUnc::strip_prefix(r"\\?\C:\a\.\b", r"\\?\C:\a\b").is_err());
    assert_eq!(SimpleUnc::strip_prefix(r"\\?\C:\a/b\c", r"\\?\C:\a/b"), Ok("c"));
}

#[test]
fn strip_prefix_of_itself_is_empty() {
    for p in [r"C:\a\b", r"\\?\UNC\s\sh\x", r"\\.\COM1", r"rel\x\..", r".\y", ""] {
        assert_eq!(SimpleUnc::strip_prefix(p, p), Ok(""));
    }
}

#[test]
fn mock_table_has_three_entries() {
    let d = Drives::mock();
    let c = d.copy();
    assert_eq!(
        c._drive_path(r"\\?\UNC\server2\share2\a").map(|p| p.drive_letter),
        Some('Z')
    );
}

/// Whether `dunce` strips `\\?\` on this platform (it leaves every path as
/// it is off Windows).
fn dunce_is_active() -> bool {
    dunce::simplified(Path::new(r"\\?\C:\foo")) != Path::new(r"\\?\C:\foo")
}

#[test]
fn verbatim_disk_rule_agrees_with_dunce() {
    if !dunce_is_active() {
        return;
    }
    let unc = SimpleUnc::default();
    for p in [
        r"\\?\C:\foo",
        r"\\?\C:/foo",
        r"\\?\c:\foo\bar",
        r"\\?\Z:\foo\bar\",
        r"\\?\C:\con",
        r"\\?\C:\dir\Com4 .txt",
        r"\\?\C:\foo\.\bar",
        r"\\?\C:\foo\..\bar",
        r"\\?\C:\foo.",
        r"\\?\C:\foo ",
        r"\\?\C:\a<b",
        r"\\?\c:foo",
        r"\\?\serv\",
        r"\\.\C:\notdisk",
        r"C:\foo",
    ] {
        let theirs = dunce::simplified(Path::new(p));
        let expected = if theirs == Path::new(p) {
            None
        } else {
            theirs.to_str().map(String::from)
        };
        assert_eq!(unc.simplify(p), expected);
    }
}

#[test]
fn strip_prefix_round_trip() {
    for (path, base) in [
        (r"\\?\UNC\server\share\dir\file.txt", r"\\?\UNC\server\share"),
        (r"C:\a\b\.\c\", r"C:\a"),
        (r"\\?\C:\a\.\b", r"\\?\C:\"),
        (r"\\server\share\x\y", r"//server/share"),
    ] {
        let rest = SimpleUnc::strip_prefix(path, base).unwrap();
        let joined = format!(r"{}\{}", base.trim_end_matches(['\\', '/']), rest);
        assert_eq!(SimpleUnc::strip_prefix(path, &joined), Ok(""));
        assert_eq!(SimpleUnc::strip_prefix(&joined, path), Ok(""));
    }
}
