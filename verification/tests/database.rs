use lever::database::{DatabaseError, LeverDB};
use lever::dependencies::LeverFileCatalog;
use lever::leverfile::LeverFile;
use lever::tree::PackageTreeNode;

fn empty_db() -> LeverDB {
    LeverDB::parse("", "/tmp/packages.ini")
}

fn leverfile(name: &str, deps: &[&str], path: &str) -> LeverFile {
    let mut text = format!("[name]\n{name}\n[dependencies]\n");
    for d in deps {
        text.push_str(d);
        text.push('\n');
    }
    LeverFile::parse(&text, path).unwrap()
}

#[test]
fn parse_reads_all_sections() {
    let db = LeverDB::parse(
        "[tracked]\nfoo => /p/foo/leverfile.ini\nbad line\na=>b=>c\n[compiled]\n  foo \n[installed]\nfoo\n\n[other]\nignored\n",
        "/db",
    );
    assert_eq!(db.tracked_packages, vec![("foo".to_string(), "/p/foo/leverfile.ini".to_string())]);
    assert_eq!(db.compiled_packages, vec!["foo".to_string()]);
    assert_eq!(db.installed_packages, vec!["foo".to_string()]);
    assert_eq!(db.db_path, "/db");
}

#[test]
fn lines_before_a_section_are_ignored() {
    let db = LeverDB::parse("foo\nbar=>baz\n", "/db");
    assert!(db.tracked_packages.is_empty());
    assert!(db.installed_packages.is_empty());
    assert!(db.compiled_packages.is_empty());
}

#[test]
fn serialize_writes_sections_in_order() {
    let mut db = empty_db();
    db.tracked_packages.push(("foo".to_string(), "/p/foo".to_string()));
    db.compiled_packages.push("foo".to_string());
    db.installed_packages.push("bar".to_string());
    assert_eq!(
        db.serialize(),
        "[tracked]\nfoo=>/p/foo\n[compiled]\nfoo\n[installed]\nbar\n"
    );
}

#[test]
fn empty_database_serializes_to_headers() {
    assert_eq!(empty_db().serialize(), "[tracked]\n[compiled]\n[installed]\n");
}

#[test]
fn save_then_load_gives_the_database_back() {
    let mut db = empty_db();
    db.tracked_packages.push(("a".to_string(), "/x/a/leverfile.ini".to_string()));
    db.tracked_packages.push(("b-c".to_string(), "/x/b c/leverfile.ini".to_string()));
    db.compiled_packages.push("a".to_string());
    db.installed_packages.push("a".to_string());
    db.installed_packages.push("b-c".to_string());
    let again = LeverDB::parse(&db.serialize(), &db.db_path);
    assert_eq!(again.tracked_packages, db.tracked_packages);
    assert_eq!(again.compiled_packages, db.compiled_packages);
    assert_eq!(again.installed_packages, db.installed_packages);
    assert_eq!(again.db_path, db.db_path);
}

#[test]
fn tracking_and_untracking() {
    let mut db = empty_db();
    let foo = leverfile("foo", &[], "/p/foo/leverfile.ini");
    assert!(db.add_tracked(&foo).is_ok());
    assert_eq!(db.get_package_location("foo"), Some("/p/foo/leverfile.ini".to_string()));
    match db.add_tracked(&foo) {
        Err(e) => {
            assert!(matches!(e, DatabaseError::AlreadyTracked(ref n) if n == "foo"));
            assert_eq!(e.message(), "package \"foo\" already tracked");
        }
        Ok(()) => panic!("tracked twice"),
    }
    assert_eq!(db.tracked_packages.len(), 1);
    assert!(db.remove_tracked("foo").is_ok());
    assert_eq!(db.get_package_location("foo"), None);
    let e = db.remove_tracked("foo").unwrap_err();
    assert_eq!(e.message(), "Package \"foo\" not found in database");
}

#[test]
fn untracking_removes_every_entry_of_the_name() {
    let mut db = LeverDB::parse("[tracked]\na=>1\nb=>2\na=>3\n", "/db");
    assert_eq!(db.get_package_location("a"), Some("1".to_string()));
    db.remove_tracked("a").unwrap();
    assert_eq!(db.tracked_packages, vec![("b".to_string(), "2".to_string())]);
    assert_eq!(db.get_package_location("b"), Some("2".to_string()));
}

#[test]
fn removing_a_package_drops_every_reference() {
    let mut db = LeverDB::parse(
        "[tracked]\na=>1\nb=>2\na=>3\n[compiled]\na\nb\n[installed]\nb\na\n",
        "/db",
    );
    db.remove_package("a").unwrap();
    assert_eq!(db.tracked_packages, vec![("b".to_string(), "2".to_string())]);
    assert_eq!(db.compiled_packages, vec!["b".to_string()]);
    assert_eq!(db.installed_packages, vec!["b".to_string()]);
    let e = db.remove_package("a").unwrap_err();
    assert_eq!(e.message(), "Package \"a\" not found in database");
}

#[test]
fn removing_an_untracked_package_still_clears_the_lists() {
    let mut db = LeverDB::parse("[tracked]\nb=>2\n[compiled]\nc\n[installed]\nc\nb\n", "/db");
    assert!(db.remove_package("c").is_err());
    assert!(db.compiled_packages.is_empty());
    assert_eq!(db.installed_packages, vec!["b".to_string()]);
    assert_eq!(db.tracked_packages.len(), 1);
}

#[test]
fn leverfile_location_of_tracked_and_unknown_packages() {
    let db = LeverDB::parse("[tracked]\nfoo=>/p/foo/leverfile.ini\n", "/db");
    assert_eq!(db.leverfile_location("foo").unwrap(), "/p/foo/leverfile.ini");
    let e = db.leverfile_location("bar").unwrap_err();
    assert_eq!(e.message(), "Package \"bar\" not known to lever");
}

#[test]
fn installed_and_compiled_lists() {
    let mut db = empty_db();
    db.add_installed("foo").unwrap();
    let e = db.add_installed("foo").unwrap_err();
    assert_eq!(e.message(), "package already installed");
    db.add_compiled("foo").unwrap();
    db.add_compiled("bar").unwrap();
    let e = db.add_compiled("bar").unwrap_err();
    assert_eq!(e.message(), "package already compiled");
    assert_eq!(db.installed_packages(), vec!["foo".to_string()]);
    assert_eq!(db.compiled_packages(), vec!["foo".to_string(), "bar".to_string()]);
}

fn tracked_db() -> LeverDB {
    LeverDB::parse("[tracked]\napp=>/p/app\nlib=>/p/lib\nbase=>/p/base\n", "/db")
}

/// Builds the tree the way the program does: reads each leverfile asked for
/// into the catalog and asks again.
fn build(db: &LeverDB, name: &str, files: &[(&str, Result<LeverFile, String>)]) -> Result<PackageTreeNode, DatabaseError> {
    let mut catalog = LeverFileCatalog::new();
    let mut reads: u32 = 0;
    loop {
        match db.generate_package_dependency_tree(name, &catalog) {
            Err(DatabaseError::NotLoaded(location)) => {
                reads += 1;
                assert!(reads < 100);
                let found = files.iter().find(|(l, _)| *l == location).expect("unknown location");
                let read = match &found.1 {
                    Ok(_) => Ok(LeverFile::parse(&leverfile_text(found.0), found.0).unwrap()),
                    Err(m) => Err(m.clone()),
                };
                catalog.insert(location, read);
            }
            other => return other,
        }
    }
}

fn leverfile_text(location: &str) -> String {
    match location {
        "/p/app" => "[name]\napp\n[dependencies]\nlib\nbase\n".to_string(),
        "/p/lib" => "[name]\nlib\n[dependencies]\nbase\n".to_string(),
        "/p/base" => "[name]\nbase\n".to_string(),
        "/p/loop1" => "[name]\nloop1\n[dependencies]\nloop2\n".to_string(),
        "/p/loop2" => "[name]\nloop2\n[dependencies]\nloop1\n".to_string(),
        _ => "[name]\nother\n[dependencies]\nmissing\n".to_string(),
    }
}

fn ok(location: &'static str) -> (&'static str, Result<LeverFile, String>) {
    (location, Ok(leverfile("x", &[], location)))
}

#[test]
fn dependency_tree_and_install_order() {
    let db = tracked_db();
    let tree = build(&db, "app", &[ok("/p/app"), ok("/p/lib"), ok("/p/base")]).unwrap();
    assert_eq!(tree.name, "app");
    assert_eq!(tree.dependencies.len(), 2);
    assert_eq!(tree.dependencies[0].name, "lib");
    assert_eq!(tree.dependencies[0].dependencies[0].name, "base");
    assert_eq!(tree.dependencies[1].name, "base");
    assert_eq!(
        tree.flatten(),
        vec!["base".to_string(), "lib".to_string(), "base".to_string(), "app".to_string()]
    );
}

#[test]
fn first_missing_leverfile_is_asked_for() {
    let db = tracked_db();
    let catalog = LeverFileCatalog::new();
    match db.generate_package_dependency_tree("app", &catalog) {
        Err(DatabaseError::NotLoaded(l)) => assert_eq!(l, "/p/app"),
        other => panic!("unexpected {:?}", other),
    }
}

#[test]
fn unknown_dependency_is_reported() {
    let db = LeverDB::parse("[tracked]\nother=>/p/other\n", "/db");
    match build(&db, "other", &[ok("/p/other")]) {
        Err(e) => {
            assert!(matches!(e, DatabaseError::UnknownPackage(ref n) if n == "missing"));
            assert_eq!(e.message(), "Package \"missing\" not known to lever");
        }
        Ok(_) => panic!("built"),
    }
}

#[test]
fn failed_read_is_reported() {
    let db = tracked_db();
    match build(&db, "app", &[ok("/p/app"), ("/p/lib", Err("no such file".to_string())), ok("/p/base")]) {
        Err(e) => {
            assert!(matches!(e, DatabaseError::LoadFailed(_)));
            assert_eq!(e.message(), "no such file");
        }
        Ok(_) => panic!("built"),
    }
}

#[test]
fn dependency_cycle_is_reported() {
    let db = LeverDB::parse("[tracked]\nloop1=>/p/loop1\nloop2=>/p/loop2\n", "/db");
    match build(&db, "loop1", &[ok("/p/loop1"), ok("/p/loop2")]) {
        Err(e) => assert!(matches!(e, DatabaseError::DependencyCycle(_))),
        Ok(_) => panic!("built"),
    }
}

#[test]
fn leverfile_of_a_package() {
    let db = tracked_db();
    let mut catalog = LeverFileCatalog::new();
    assert!(matches!(db.get_package_leverfile("nope", &catalog), Err(DatabaseError::UnknownPackage(_))));
    assert!(matches!(db.get_package_leverfile("base", &catalog), Err(DatabaseError::NotLoaded(_))));
    catalog.insert("/p/base".to_string(), Ok(leverfile("base", &[], "/p/base")));
    assert_eq!(db.get_package_leverfile("base", &catalog).unwrap().name(), "base");
}

#[test]
fn messages_of_tree_errors() {
    assert_eq!(
        DatabaseError::NotLoaded("/p/x".to_string()).message(),
        "leverfile \"/p/x\" has not been read"
    );
    assert_eq!(
        DatabaseError::DependencyCycle("x".to_string()).message(),
        "dependencies of package \"x\" lead back to it"
    );
}

#[test]
fn selected_packages_default_to_installed() {
    let mut db = empty_db();
    db.add_installed("a").unwrap();
    db.add_installed("b").unwrap();
    assert_eq!(db.selected_packages(&vec![]), vec!["a".to_string(), "b".to_string()]);
    assert_eq!(db.selected_packages(&vec!["c".to_string()]), vec!["c".to_string()]);
}

#[test]
fn install_order_of_a_selection() {
    let db = tracked_db();
    let app = build(&db, "app", &[ok("/p/app"), ok("/p/lib"), ok("/p/base")]).unwrap();
    let base = build(&db, "base", &[ok("/p/base")]).unwrap();
    let selection = PackageTreeNode::selection(vec![app, base]);
    assert_eq!(selection.name, "Selected Packages");
    assert_eq!(
        selection.install_order(),
        vec![
            "base".to_string(),
            "lib".to_string(),
            "base".to_string(),
            "app".to_string(),
            "base".to_string()
        ]
    );
    assert_eq!(selection.print(Some("lib")).len(), 6);
}

#[test]
fn a_package_depending_on_itself_is_a_cycle() {
    let db = LeverDB::parse("[tracked]\nself=>/p/self\n", "/db");
    let mut catalog = LeverFileCatalog::new();
    catalog.insert(
        "/p/self".to_string(),
        Ok(LeverFile::parse("[name]\nself\n[dependencies]\nself\n", "/p/self").unwrap()),
    );
    match db.generate_package_dependency_tree("self", &catalog) {
        Err(DatabaseError::DependencyCycle(n)) => assert_eq!(n, "self"),
        other => panic!("unexpected {:?}", other),
    }
}

#[test]
fn header_brackets_and_sides_of_entries() {
    let db = LeverDB::parse(
        "[tracked]]]\na=>\n=>b\n\u{3000}c\u{a0}=>\td \r\n[installed\n   \n\u{2003}x\u{2003}\n",
        "/db",
    );
    assert_eq!(
        db.tracked_packages,
        vec![
            ("a".to_string(), String::new()),
            (String::new(), "b".to_string()),
            ("c".to_string(), "d".to_string())
        ]
    );
    assert_eq!(db.installed_packages, vec![String::new(), "x".to_string()]);
}

#[test]
fn crlf_lines_are_trimmed() {
    let db = LeverDB::parse("[installed]\r\nfoo\r\n", "/db");
    // the header line is "[installed]\r", which opens section "installed]\r"
    assert!(db.installed_packages.is_empty());
    let db = LeverDB::parse("[installed]\nfoo\r\n", "/db");
    assert_eq!(db.installed_packages, vec!["foo".to_string()]);
}
