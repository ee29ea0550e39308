use lever::leverfile::{LeverFile, LeverFileError, LEVERFILE_DEFAULT_NAME, LEVERFILE_TEMPLATE};

fn parse(text: &str) -> Result<LeverFile, LeverFileError> {
    LeverFile::parse(text, "/home/user/pkgs/foo/leverfile.ini")
}

#[test]
fn full_leverfile_parses() {
    let text = "# a package\n[name]\nfoo\n[url]\nhttps://example.org/foo.git\n[compile]\nmake\nmake check # run the tests\n[install]\nmake install\n[dependencies]\nbar\nbaz\n";
    let lf = parse(text).unwrap();
    assert_eq!(lf.name(), "foo");
    assert_eq!(lf.url(), Some("https://example.org/foo.git"));
    assert_eq!(lf.dependencies(), vec!["bar".to_string(), "baz".to_string()]);
    assert_eq!(lf.absolute_path(), "/home/user/pkgs/foo/leverfile.ini");
    let compile = lf.compile("/home/user/pkgs/foo");
    assert_eq!(compile.commands, vec!["make".to_string(), "make check ".to_string()]);
    assert_eq!(compile.directory, "/home/user/pkgs/foo");
    let install = lf.install("/srv");
    assert_eq!(install.commands, vec!["make install".to_string()]);
    assert_eq!(install.directory, "/srv");
}

#[test]
fn template_has_no_name() {
    assert!(matches!(parse(LEVERFILE_TEMPLATE), Err(LeverFileError::MissingName)));
}

#[test]
fn default_name() {
    assert_eq!(LEVERFILE_DEFAULT_NAME, "leverfile.ini");
}

#[test]
fn content_before_any_section_is_refused() {
    match parse("foo\n[name]\nfoo\n") {
        Err(LeverFileError::UnknownSection { section, line }) => {
            assert_eq!(section, "global");
            assert_eq!(line, "foo");
        }
        other => panic!("unexpected {:?}", other),
    }
}

#[test]
fn unknown_section_is_refused() {
    match parse("[name]\nfoo\n[build]]\nmake\n") {
        Err(LeverFileError::UnknownSection { section, line }) => {
            assert_eq!(section, "build");
            assert_eq!(line, "make");
        }
        other => panic!("unexpected {:?}", other),
    }
}

#[test]
fn later_name_and_url_replace_earlier() {
    let lf = parse("[name]\nfirst\nsecond\n[url]\na\nb").unwrap();
    assert_eq!(lf.name(), "second");
    assert_eq!(lf.url(), Some("b"));
}

#[test]
fn comments_and_blank_lines_are_skipped() {
    let lf = parse("\n\n#only a comment\n[name]# trailing\nfoo#bar\n").unwrap();
    assert_eq!(lf.name(), "foo");
}

#[test]
fn blank_looking_lines_are_content() {
    let lf = parse("[name]\nfoo\n   \n").unwrap();
    assert_eq!(lf.name(), "   ");
}

#[test]
fn header_with_trailing_space_is_another_section() {
    match parse("[name] \nfoo\n") {
        Err(LeverFileError::UnknownSection { section, line }) => {
            assert_eq!(section, "name] ");
            assert_eq!(line, "foo");
        }
        other => panic!("unexpected {:?}", other),
    }
}

#[test]
fn lines_keep_their_spaces() {
    let lf = parse("[name]\n  foo  \n[dependencies]\n bar\r\n").unwrap();
    assert_eq!(lf.name(), "  foo  ");
    assert_eq!(lf.dependencies(), vec![" bar\r".to_string()]);
}

#[test]
fn no_url_when_none_given() {
    let lf = parse("[name]\nfoo").unwrap();
    assert_eq!(lf.url(), None);
    assert!(lf.dependencies().is_empty());
}

#[test]
fn empty_text_has_no_name() {
    assert!(matches!(parse(""), Err(LeverFileError::MissingName)));
}
