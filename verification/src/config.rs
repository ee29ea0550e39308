//! The configuration file: `key=value` lines naming the database file and
//! the editor.
use vstd::prelude::*;

use crate::text::{
    before_char, chars_are, chars_of, find_char, lemma_before_char_len, split_on, split_text, string_of_range,
    strings_view, trim, trim_bounds, trimmed,
};

verus! {

/// What a new configuration file holds.
pub const DEFAULT_CONFIG: &'static str = "# This is the default configuration file\n# Set options here\n# key=value\n# database_path=/path/to/config #defaults to ~/.config/lever/packages.ini\neditor=vim\n";

/// Settings.
#[derive(Clone, Debug)]
pub struct Config {
    pub database_path: String,
    pub editor: String,
}

/// A configuration line that could not be used, with its position among
/// the lines (counting from 0).
#[derive(Debug)]
pub enum ConfigWarning {
    /// The line has no `=`.
    Malformed { index: usize },
    /// The key (as written, before trimming) is not a known option.
    UnknownOption { key: String, index: usize },
}

/// A warning as character sequences.
pub enum WarningModel {
    Malformed(nat),
    UnknownOption(Seq<char>, nat),
}

impl View for ConfigWarning {
    type V = WarningModel;

    open spec fn view(&self) -> WarningModel {
        match self {
            ConfigWarning::Malformed { index } => WarningModel::Malformed(*index as nat),
            ConfigWarning::UnknownOption { key, index } => WarningModel::UnknownOption(
                key@,
                *index as nat,
            ),
        }
    }
}

/// The models of a list of warnings.
pub open spec fn warnings_view(w: Seq<ConfigWarning>) -> Seq<WarningModel> {
    w.map_values(|x: ConfigWarning| x@)
}

/// A configuration line without its comment, which starts at the first `#`.
pub open spec fn strip_comment(x: Seq<char>) -> Seq<char> {
    before_char(x, '#')
}

/// The reader's state after some lines.
pub struct ConfigRead {
    pub database_path: Seq<char>,
    pub editor: Seq<char>,
    pub warnings: Seq<WarningModel>,
}

/// Reading line `x`, at position `n`: lines left empty by the
/// comment are skipped; a line without `=` is reported; `database_path` and
/// `editor` (keys trimmed) take the trimmed text after the first `=`; any
/// other key is reported.
pub open spec fn config_step(st: ConfigRead, n: nat, x: Seq<char>) -> ConfigRead {
    let l = strip_comment(x);
    let key = before_char(l, '=');
    if l.len() == 0 {
        st
    } else if key.len() == l.len() {
        ConfigRead { warnings: st.warnings.push(WarningModel::Malformed(n)), ..st }
    } else if trim(key) == "database_path"@ {
        ConfigRead { database_path: trim(l.skip(key.len() as int + 1)), ..st }
    } else if trim(key) == "editor"@ {
        ConfigRead { editor: trim(l.skip(key.len() as int + 1)), ..st }
    } else {
        ConfigRead { warnings: st.warnings.push(WarningModel::UnknownOption(key, n)), ..st }
    }
}

/// Reading the first `k` lines.
pub open spec fn config_read(start: ConfigRead, lines: Seq<Seq<char>>, k: nat) -> ConfigRead
    decreases k,
{
    if k == 0 {
        start
    } else {
        config_step(config_read(start, lines, (k - 1) as nat), (k - 1) as nat, lines[k - 1])
    }
}

/// The settings a configuration text gives, from the defaults
/// (`default_database_path`, no editor), and its warnings in line order.
pub open spec fn parse_config(text: Seq<char>, default_database_path: Seq<char>) -> ConfigRead {
    let lines = split_on(text, '\n');
    config_read(
        ConfigRead {
            database_path: default_database_path,
            editor: Seq::empty(),
            warnings: Seq::empty(),
        },
        lines,
        lines.len(),
    )
}

impl Config {
    /// Reads settings from a configuration text, starting from
    /// `default_database_path` and no editor; gives the warnings for the
    /// lines it could not use, in line order.
    pub fn parse(text: &str, default_database_path: &str) -> (r: (Config, Vec<ConfigWarning>))
        ensures
            r.0.database_path@ == parse_config(text@, default_database_path@).database_path,
            r.0.editor@ == parse_config(text@, default_database_path@).editor,
            warnings_view(r.1@) == parse_config(text@, default_database_path@).warnings,
    {
        let pieces = split_text(text, '\n');
        let ghost lines = strings_view(pieces@);
        let ghost start = ConfigRead {
            database_path: default_database_path@,
            editor: Seq::empty(),
            warnings: Seq::empty(),
        };
        let mut config = Config {
            database_path: default_database_path.to_owned(),
            editor: String::new(),
        };
        let mut warnings: Vec<ConfigWarning> = Vec::new();
        assert(warnings_view(warnings@) =~= Seq::<WarningModel>::empty());
        let mut n: usize = 0;
        while n < pieces.len()
            invariant
                n <= pieces.len(),
                lines == strings_view(pieces@),
                lines == split_on(text@, '\n'),
                ({
                    let st = config_read(start, lines, n as nat);
                    &&& config.database_path@ == st.database_path
                    &&& config.editor@ == st.editor
                    &&& warnings_view(warnings@) == st.warnings
                }),
            decreases pieces.len() - n,
        {
            let line = chars_of(pieces[n].as_str());
            Self::read_line(&mut config, &mut warnings, &line, n, Ghost(lines), Ghost(start));
            n = n + 1;
        }
        (config, warnings)
    }

    fn read_line(
        config: &mut Config,
        warnings: &mut Vec<ConfigWarning>,
        x: &Vec<char>,
        n: usize,
        Ghost(lines): Ghost<Seq<Seq<char>>>,
        Ghost(start): Ghost<ConfigRead>,
    )
        requires
            n < lines.len(),
            lines[n as int] == x@,
            ({
                let st = config_read(start, lines, n as nat);
                &&& old(config).database_path@ == st.database_path
                &&& old(config).editor@ == st.editor
                &&& warnings_view(old(warnings)@) == st.warnings
            }),
        ensures
            ({
                let st = config_read(start, lines, (n + 1) as nat);
                &&& final(config).database_path@ == st.database_path
                &&& final(config).editor@ == st.editor
                &&& warnings_view(final(warnings)@) == st.warnings
            }),
    {
        let end = find_char(x, 0, x.len(), '#');
        assert(x@.subrange(0, x@.len() as int) == x@);
        if end == 0 {
            return;
        }
        let eq = find_char(x, 0, end, '=');
        let ghost l = x@.subrange(0, end as int);
        let ghost before = warnings@;
        if eq == end {
            warnings.push(ConfigWarning::Malformed { index: n });
            assert(warnings_view(warnings@) =~= warnings_view(before).push(
                WarningModel::Malformed(n as nat),
            ));
            return;
        }
        assert(l.skip(eq + 1) =~= x@.subrange(eq + 1, end as int));
        assert(x@.subrange(0, eq as int) =~= l.subrange(0, eq as int));
        let (ka, kb) = trim_bounds(x, 0, eq);
        let key = crate::text::sub_chars(x, ka, kb);
        if chars_are(&key, "database_path") {
            config.database_path = trimmed(x, eq + 1, end);
        } else if chars_are(&key, "editor") {
            config.editor = trimmed(x, eq + 1, end);
        } else {
            let written = string_of_range(x, 0, eq);
            warnings.push(ConfigWarning::UnknownOption { key: written, index: n });
            assert(warnings_view(warnings@) =~= warnings_view(before).push(
                WarningModel::UnknownOption(l.subrange(0, eq as int), n as nat),
            ));
        }
    }
}

// ---------------------------------------------------------------------------
// Laws
// ---------------------------------------------------------------------------

/// Whether line `x`, its comment removed, sets option `key`: it holds an `=`
/// and the text before the first one, trimmed, is `key`.
pub open spec fn sets_option(x: Seq<char>, key: Seq<char>) -> bool {
    let l = strip_comment(x);
    let k = before_char(l, '=');
    k.len() < l.len() && trim(k) == key
}

/// The value line `x` gives: the text after its first `=`, comment removed
/// and trimmed.
pub open spec fn option_value(x: Seq<char>) -> Seq<char> {
    let l = strip_comment(x);
    trim(l.skip(before_char(l, '=').len() as int + 1))
}

/// The value of option `key` after the first `k` lines: that of the last of
/// them that sets it, or its value in `start` when none does.
proof fn lemma_last_setting(start: ConfigRead, lines: Seq<Seq<char>>, k: nat, key: Seq<char>, i: int)
    requires
        k <= lines.len(),
        key == "database_path"@ || key == "editor"@,
        -1 <= i < k,
        i >= 0 ==> sets_option(lines[i], key),
        forall|j: int| i < j < k ==> !#[trigger] sets_option(lines[j], key),
    ensures
        ({
            let v = if key == "database_path"@ {
                config_read(start, lines, k).database_path
            } else {
                config_read(start, lines, k).editor
            };
            let d = if key == "database_path"@ { start.database_path } else { start.editor };
            v == if i >= 0 { option_value(lines[i]) } else { d }
        }),
    decreases k,
{
    reveal_strlit("database_path");
    reveal_strlit("editor");
    if k > 0 {
        assert("database_path"@ != "editor"@) by {
            assert("database_path"@.len() != "editor"@.len());
        }
        let prev = config_read(start, lines, (k - 1) as nat);
        let x = lines[k - 1];
        let l = strip_comment(x);
        let kk = before_char(l, '=');
        lemma_before_char_len(l, '=');
        assert(config_read(start, lines, k) == config_step(prev, (k - 1) as nat, x));
        if i == k - 1 {
            assert(sets_option(x, key));
            assert(kk.len() < l.len());
            assert(trim(kk) == key);
        } else {
            lemma_last_setting(start, lines, (k - 1) as nat, key, i);
            assert(!sets_option(x, key));
        }
    }
}

/// Each setting comes from the last line that sets it: `database_path` and
/// `editor` are the trimmed text after the first `=` (comment removed) of
/// the last line whose trimmed key names them, and keep their defaults
/// (`default_database_path`, no editor) when no line does.
pub proof fn lemma_setting_from_last_line(text: Seq<char>, default_database_path: Seq<char>, key: Seq<char>)
    requires
        key == "database_path"@ || key == "editor"@,
    ensures
        ({
            let lines = split_on(text, '\n');
            let r = parse_config(text, default_database_path);
            let v = if key == "database_path"@ { r.database_path } else { r.editor };
            let d = if key == "database_path"@ { default_database_path } else { Seq::<char>::empty() };
            &&& (forall|i: int| 0 <= i < lines.len() ==> !#[trigger] sets_option(lines[i], key))
                ==> v == d
            &&& forall|i: int|
                0 <= i < lines.len() && #[trigger] sets_option(lines[i], key) && (forall|j: int|
                    i < j < lines.len() ==> !#[trigger] sets_option(lines[j], key)) ==> v
                    == option_value(lines[i])
        }),
{
    let lines = split_on(text, '\n');
    let start = ConfigRead {
        database_path: default_database_path,
        editor: Seq::empty(),
        warnings: Seq::empty(),
    };
    if forall|i: int| 0 <= i < lines.len() ==> !#[trigger] sets_option(lines[i], key) {
        lemma_last_setting(start, lines, lines.len(), key, -1);
    }
    assert forall|i: int|
        0 <= i < lines.len() && #[trigger] sets_option(lines[i], key) && (forall|j: int|
            i < j < lines.len() ==> !#[trigger] sets_option(lines[j], key)) implies (if key
        == "database_path"@ {
        parse_config(text, default_database_path).database_path
    } else {
        parse_config(text, default_database_path).editor
    }) == option_value(lines[i]) by {
        lemma_last_setting(start, lines, lines.len(), key, i);
    }
}

/// The warning line `x`, at position `n`, gives, if any: a line left empty
/// by its comment gives none; one without `=` is malformed; one whose
/// trimmed key is neither `database_path` nor `editor` names an unknown
/// option, with the key as written.
pub open spec fn line_warning(n: nat, x: Seq<char>) -> Option<WarningModel> {
    let l = strip_comment(x);
    let k = before_char(l, '=');
    if l.len() == 0 {
        None
    } else if k.len() >= l.len() {
        Some(WarningModel::Malformed(n))
    } else if trim(k) == "database_path"@ || trim(k) == "editor"@ {
        None
    } else {
        Some(WarningModel::UnknownOption(k, n))
    }
}

/// The lines numbered from 0.
pub open spec fn numbered(lines: Seq<Seq<char>>) -> Seq<(nat, Seq<char>)> {
    Seq::new(lines.len(), |i: int| (i as nat, lines[i]))
}

proof fn lemma_warnings_of_lines(start: ConfigRead, lines: Seq<Seq<char>>, k: nat)
    requires
        k <= lines.len(),
    ensures
        config_read(start, lines, k).warnings == start.warnings + numbered(lines.take(k as int)).filter_map(
            |p: (nat, Seq<char>)| line_warning(p.0, p.1),
        ),
    decreases k,
{
    let f = |p: (nat, Seq<char>)| line_warning(p.0, p.1);
    if k == 0 {
        assert(numbered(lines.take(0)) =~= Seq::<(nat, Seq<char>)>::empty());
        assert(start.warnings + Seq::<WarningModel>::empty() =~= start.warnings);
    } else {
        lemma_warnings_of_lines(start, lines, (k - 1) as nat);
        let now = numbered(lines.take(k as int));
        assert(now.drop_last() =~= numbered(lines.take(k - 1)));
        assert(now.last() == ((k - 1) as nat, lines[k - 1]));
        let prev = config_read(start, lines, (k - 1) as nat);
        let x = lines[k - 1];
        lemma_before_char_len(strip_comment(x), '=');
        let w = numbered(lines.take(k - 1)).filter_map(f);
        match line_warning((k - 1) as nat, x) {
            Some(v) => {
                assert(start.warnings + (w + seq![v]) =~= (start.warnings + w).push(v));
            },
            None => {},
        }
    }
}

/// The warnings are those of the lines that cannot be used, in line order:
/// each malformed line, and each line with an unknown key, with its
/// position.
pub proof fn lemma_warnings_from_lines(text: Seq<char>, default_database_path: Seq<char>)
    ensures
        parse_config(text, default_database_path).warnings == numbered(split_on(text, '\n')).filter_map(
            |p: (nat, Seq<char>)| line_warning(p.0, p.1),
        ),
{
    let lines = split_on(text, '\n');
    let start = ConfigRead {
        database_path: default_database_path,
        editor: Seq::empty(),
        warnings: Seq::empty(),
    };
    lemma_warnings_of_lines(start, lines, lines.len());
    assert(lines.take(lines.len() as int) =~= lines);
    let w = numbered(lines).filter_map(|p: (nat, Seq<char>)| line_warning(p.0, p.1));
    assert(Seq::<WarningModel>::empty() + w =~= w);
}

} // verus!
