use lever::config::{Config, ConfigWarning, DEFAULT_CONFIG};

#[test]
fn default_config_sets_the_editor() {
    let (config, warnings) = Config::parse(DEFAULT_CONFIG, "/home/u/.config/lever/packages.ini");
    assert_eq!(config.editor, "vim");
    assert_eq!(config.database_path, "/home/u/.config/lever/packages.ini");
    assert!(warnings.is_empty());
}

#[test]
fn options_are_trimmed_and_later_ones_win() {
    let (config, warnings) = Config::parse(
        " database_path = /var/lever.ini \neditor=nano\neditor = emacs # my favourite\n",
        "/default",
    );
    assert_eq!(config.database_path, "/var/lever.ini");
    assert_eq!(config.editor, "emacs");
    assert!(warnings.is_empty());
}

#[test]
fn bad_lines_are_reported_with_their_position() {
    let (config, warnings) = Config::parse("\nno equals here\ncolour = red\neditor=vi\n", "/default");
    assert_eq!(config.editor, "vi");
    assert_eq!(warnings.len(), 2);
    assert!(matches!(warnings[0], ConfigWarning::Malformed { index: 1 }));
    match &warnings[1] {
        ConfigWarning::UnknownOption { key, index } => {
            assert_eq!(key, "colour ");
            assert_eq!(*index, 2);
        }
        other => panic!("unexpected {:?}", other),
    }
}

#[test]
fn value_may_hold_equals_signs() {
    let (config, _) = Config::parse("editor=env A=B vi\n", "/default");
    assert_eq!(config.editor, "env A=B vi");
}

#[test]
fn comment_starts_at_the_first_hash() {
    let (config, _) = Config::parse("editor=vé#x\ndatabase_path=/d # where the database is\n", "/default");
    assert_eq!(config.editor, "vé");
    assert_eq!(config.database_path, "/d");
}

#[test]
fn empty_text_keeps_defaults() {
    let (config, warnings) = Config::parse("", "/etc/lever/packages.ini");
    assert_eq!(config.database_path, "/etc/lever/packages.ini");
    assert_eq!(config.editor, "");
    assert!(warnings.is_empty());
}
