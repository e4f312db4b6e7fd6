use simple_unc::SimpleUnc;

#[test]
fn display_not_simplified() {
    let unc = SimpleUnc::default();
    let path = "foo";
    assert_eq!(unc.display(path).to_string(), "foo");
}

#[test]
fn display_drive_unc() {
    let mut unc = SimpleUnc::mock_with_drive();
    let path = r"\\?\UNC\server\share\foo";
    assert_eq!(unc.display(path).to_string(), r"\\server\share\foo");

    unc.map_to_drive = true;
    assert_eq!(unc.display(path).to_string(), r"X:\foo");
}

#[test]
fn display_shows_path_when_not_simplified() {
    let unc = SimpleUnc::mock_with_drive();
    let path = r"\\?\UNC\server3\share3\foo";
    assert_eq!(unc.display(path).to_string(), path);
}
