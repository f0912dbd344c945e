use protohackers::names::is_name_illegal;

#[test]
fn plain_names_are_legal() {
    assert!(!is_name_illegal("/a", true));
    assert!(!is_name_illegal("/dir/file.txt", true));
    assert!(!is_name_illegal("/Some_Dir-1/x.y_z-9", true));
    assert!(!is_name_illegal("/", false));
    assert!(!is_name_illegal("/dir/", false));
    assert!(!is_name_illegal("relative", true));
}

#[test]
fn empty_name_is_illegal() {
    assert!(is_name_illegal("", true));
    assert!(is_name_illegal("", false));
}

#[test]
fn doubled_slash_is_illegal() {
    assert!(is_name_illegal("//", false));
    assert!(is_name_illegal("/a//b", true));
    assert!(is_name_illegal("/a//", false));
}

#[test]
fn file_name_may_not_end_in_slash() {
    assert!(is_name_illegal("/a/", true));
    assert!(is_name_illegal("/", true));
    assert!(!is_name_illegal("/a/", false));
}

#[test]
fn other_characters_are_illegal() {
    for bad in ["/a b", "/a\n", "/a*", "/a\\b", "/é", "/a~", "/a:b", "/\u{0}", "/a@", "/[", "/`", "/{"] {
        assert!(is_name_illegal(bad, true), "{:?}", bad);
        assert!(is_name_illegal(bad, false), "{:?}", bad);
    }
}
