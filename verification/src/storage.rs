//! The database file: its format, and what saving and loading again keep.
use vstd::prelude::*;

use crate::database::{LeverDB, LeverDBModel, pairs_view};
use crate::text::{
    arrow_at, arrow_pair, chars_are, chars_of, find_arrow, first_arrow, header_name, is_header,
    is_space, join_lines, lemma_first_arrow, lemma_split_join, lemma_trim_unchanged, no_arrow,
    open_section, section_lines,
    push_char, split_on, split_text, strings_view, sub_chars, trim, trim_end_char,
    trim_end_char_bound, trimmed,
};

verus! {

// ---------------------------------------------------------------------------
// The database file
// ---------------------------------------------------------------------------

/// The database reader's state: the open section and what was read so far.
pub struct DatabaseRead {
    pub section: Seq<char>,
    pub installed: Seq<Seq<char>>,
    pub compiled: Seq<Seq<char>>,
    pub entries: Seq<(Seq<char>, Seq<char>)>,
}

/// Before any line: no section open, nothing read.
pub open spec fn database_start() -> DatabaseRead {
    DatabaseRead {
        section: Seq::empty(),
        installed: Seq::empty(),
        compiled: Seq::empty(),
        entries: Seq::empty(),
    }
}

/// Reading one line: empty lines are skipped, `[x]` opens section `x`, a line
/// of `installed` or `compiled` is a package name (trimmed), a line of
/// `tracked` is `name=>location` (both trimmed; other lines there are
/// skipped), and lines of any other section are skipped.
pub open spec fn database_step(st: DatabaseRead, line: Seq<char>) -> DatabaseRead {
    if line.len() == 0 {
        st
    } else if is_header(line) {
        DatabaseRead { section: header_name(line), ..st }
    } else if st.section == "installed"@ {
        DatabaseRead { installed: st.installed.push(trim(line)), ..st }
    } else if st.section == "compiled"@ {
        DatabaseRead { compiled: st.compiled.push(trim(line)), ..st }
    } else if st.section == "tracked"@ {
        match arrow_pair(line) {
            Some(pair) => DatabaseRead { entries: st.entries.push(pair), ..st },
            None => st,
        }
    } else {
        st
    }
}

/// Reading the lines in order, from state `st`.
pub open spec fn database_read_from(st: DatabaseRead, lines: Seq<Seq<char>>) -> DatabaseRead
    decreases lines.len(),
{
    if lines.len() == 0 {
        st
    } else {
        database_step(database_read_from(st, lines.drop_last()), lines.last())
    }
}

/// The database a text describes, kept at `db_path`.
pub open spec fn parse_database(text: Seq<char>, db_path: Seq<char>) -> LeverDBModel {
    let st = database_read_from(database_start(), split_on(text, '\n'));
    LeverDBModel { installed: st.installed, compiled: st.compiled, entries: st.entries, db_path }
}

/// The line that records a tracked package.
pub open spec fn entry_line(e: (Seq<char>, Seq<char>)) -> Seq<char> {
    e.0 + "=>"@ + e.1
}

/// The lines of a saved database: the tracked packages, then the compiled,
/// then the installed ones, each under its header.
pub open spec fn database_lines(db: LeverDBModel) -> Seq<Seq<char>> {
    seq!["[tracked]"@] + db.entries.map_values(|e: (Seq<char>, Seq<char>)| entry_line(e))
        + seq!["[compiled]"@] + db.compiled + seq!["[installed]"@] + db.installed
}

/// The text a database is saved as.
pub open spec fn serialize_database(db: LeverDBModel) -> Seq<char> {
    join_lines(database_lines(db))
}

struct DatabaseReader {
    section: Vec<char>,
    installed: Vec<String>,
    compiled: Vec<String>,
    entries: Vec<(String, String)>,
}

impl DatabaseReader {
    closed spec fn state(&self) -> DatabaseRead {
        DatabaseRead {
            section: self.section@,
            installed: strings_view(self.installed@),
            compiled: strings_view(self.compiled@),
            entries: pairs_view(self.entries@),
        }
    }

    fn step(&mut self, line: &Vec<char>)
        ensures
            final(self).state() == database_step(old(self).state(), line@),
    {
        let len = line.len();
        if len == 0 {
            return;
        }
        assert(line@.subrange(0, len as int) == line@);
        if line[0] == '[' {
            let close = trim_end_char_bound(line, 1, len, ']');
            assert(line@.drop_first() =~= line@.subrange(1, len as int));
            self.section = sub_chars(line, 1, close);
            return;
        }
        if chars_are(&self.section, "installed") {
            let ghost before = self.installed@;
            self.installed.push(trimmed(line, 0, len));
            assert(strings_view(self.installed@) =~= strings_view(before).push(trim(line@)));
        } else if chars_are(&self.section, "compiled") {
            let ghost before = self.compiled@;
            self.compiled.push(trimmed(line, 0, len));
            assert(strings_view(self.compiled@) =~= strings_view(before).push(trim(line@)));
        } else if chars_are(&self.section, "tracked") {
            match find_arrow(line, 0) {
                None => {},
                Some(k) => {
                    match find_arrow(line, k + 2) {
                        Some(_) => {},
                        None => {
                            let name = trimmed(line, 0, k);
                            let location = trimmed(line, k + 2, len);
                            assert(line@.take(k as int) =~= line@.subrange(0, k as int));
                            assert(line@.skip(k + 2) =~= line@.subrange(k + 2, len as int));
                            let ghost before = self.entries@;
                            self.entries.push((name, location));
                            assert(pairs_view(self.entries@) =~= pairs_view(before).push(
                                arrow_pair(line@)->0,
                            ));
                        },
                    }
                },
            }
        }
    }
}

impl LeverDB {
    /// Reads a database from its text; `db_path` is where it is kept.
    /// Malformed lines are skipped, so every text gives a database.
    pub fn parse(text: &str, db_path: &str) -> (db: LeverDB)
        ensures
            db@ == parse_database(text@, db_path@),
    {
        let pieces = split_text(text, '\n');
        let ghost lines = strings_view(pieces@);
        let mut reader = DatabaseReader {
            section: Vec::new(),
            installed: Vec::new(),
            compiled: Vec::new(),
            entries: Vec::new(),
        };
        proof {
            assert(strings_view(reader.installed@) =~= Seq::<Seq<char>>::empty());
            assert(strings_view(reader.compiled@) =~= Seq::<Seq<char>>::empty());
            assert(pairs_view(reader.entries@) =~= Seq::<(Seq<char>, Seq<char>)>::empty());
            assert(lines.take(0) =~= Seq::<Seq<char>>::empty());
        }
        let mut i: usize = 0;
        while i < pieces.len()
            invariant
                i <= pieces.len(),
                lines == strings_view(pieces@),
                lines == split_on(text@, '\n'),
                reader.state() == database_read_from(database_start(), lines.take(i as int)),
            decreases pieces.len() - i,
        {
            let line = chars_of(pieces[i].as_str());
            assert(lines.take(i + 1).drop_last() =~= lines.take(i as int));
            reader.step(&line);
            i = i + 1;
        }
        assert(lines.take(pieces.len() as int) =~= lines);
        LeverDB {
            installed_packages: reader.installed,
            compiled_packages: reader.compiled,
            tracked_packages: reader.entries,
            db_path: db_path.to_owned(),
        }
    }

    /// The text the database is saved as: `[tracked]` with one `name=>location`
    /// line per tracked package, then `[compiled]` and `[installed]` with one
    /// name per line; every line ends with a newline.
    pub fn serialize(&self) -> (text: String)
        ensures
            text@ == serialize_database(self@),
    {
        let ghost db = self@;
        let mut out = String::new();
        let ghost mut lines: Seq<Seq<char>> = Seq::empty();
        assert(out@ =~= join_lines(lines));
        append_line(&mut out, "[tracked]", Ghost(lines));
        proof {
            lines = lines.push("[tracked]"@);
        }
        let mut i: usize = 0;
        while i < self.tracked_packages.len()
            invariant
                i <= self.tracked_packages.len(),
                db == self@,
                out@ == join_lines(lines),
                lines == seq!["[tracked]"@] + db.entries.take(i as int).map_values(
                    |e: (Seq<char>, Seq<char>)| entry_line(e),
                ),
            decreases self.tracked_packages.len() - i,
        {
            let mut entry = self.tracked_packages[i].0.clone();
            entry.append("=>");
            entry.append(self.tracked_packages[i].1.as_str());
            assert(entry@ == entry_line(db.entries[i as int]));
            append_line(&mut out, entry.as_str(), Ghost(lines));
            proof {
                lines = lines.push(entry@);
                assert(db.entries.take(i + 1).map_values(
                    |e: (Seq<char>, Seq<char>)| entry_line(e),
                ) =~= db.entries.take(i as int).map_values(
                    |e: (Seq<char>, Seq<char>)| entry_line(e),
                ).push(entry_line(db.entries[i as int])));
                assert(lines =~= seq!["[tracked]"@] + db.entries.take(i + 1).map_values(
                    |e: (Seq<char>, Seq<char>)| entry_line(e),
                ));
            }
            i = i + 1;
        }
        assert(db.entries.take(i as int) =~= db.entries);
        append_line(&mut out, "[compiled]", Ghost(lines));
        proof {
            lines = lines.push("[compiled]"@);
        }
        let ghost head = lines;
        let mut i: usize = 0;
        while i < self.compiled_packages.len()
            invariant
                i <= self.compiled_packages.len(),
                db == self@,
                out@ == join_lines(lines),
                lines == head + db.compiled.take(i as int),
            decreases self.compiled_packages.len() - i,
        {
            append_line(&mut out, self.compiled_packages[i].as_str(), Ghost(lines));
            proof {
                lines = lines.push(db.compiled[i as int]);
                assert(head + db.compiled.take(i + 1) =~= (head + db.compiled.take(
                    i as int,
                )).push(db.compiled[i as int]));
            }
            i = i + 1;
        }
        assert(db.compiled.take(i as int) =~= db.compiled);
        append_line(&mut out, "[installed]", Ghost(lines));
        proof {
            lines = lines.push("[installed]"@);
        }
        let ghost head = lines;
        let mut i: usize = 0;
        while i < self.installed_packages.len()
            invariant
                i <= self.installed_packages.len(),
                db == self@,
                out@ == join_lines(lines),
                lines == head + db.installed.take(i as int),
            decreases self.installed_packages.len() - i,
        {
            append_line(&mut out, self.installed_packages[i].as_str(), Ghost(lines));
            proof {
                lines = lines.push(db.installed[i as int]);
                assert(head + db.installed.take(i + 1) =~= (head + db.installed.take(
                    i as int,
                )).push(db.installed[i as int]));
            }
            i = i + 1;
        }
        assert(db.installed.take(i as int) =~= db.installed);
        assert(lines =~= database_lines(db));
        out
    }
}

/// Appends `line` and a newline.
fn append_line(out: &mut String, line: &str, Ghost(lines): Ghost<Seq<Seq<char>>>)
    requires
        old(out)@ == join_lines(lines),
    ensures
        final(out)@ == join_lines(lines.push(line@)),
{
    out.append(line);
    push_char(out, '\n');
    assert(lines.push(line@).drop_last() =~= lines);
}

// ---------------------------------------------------------------------------
// Saving and loading again
// ---------------------------------------------------------------------------

/// A package name that a saved database gives back unchanged: not empty, no
/// whitespace at either end, no line break, and not starting with `[`.
pub open spec fn storable_name(n: Seq<char>) -> bool {
    &&& n.len() > 0
    &&& n[0] != '['
    &&& !is_space(n[0])
    &&& !is_space(n.last())
    &&& !n.contains('\n')
}

/// One side of a tracked entry that a saved database gives back unchanged:
/// no whitespace at either end, no line break and no `=>`.
pub open spec fn storable_side(p: Seq<char>) -> bool {
    &&& p.len() > 0 ==> !is_space(p[0]) && !is_space(p.last())
    &&& !p.contains('\n')
    &&& no_arrow(p)
}

/// A tracked entry that a saved database gives back unchanged.
pub open spec fn storable_entry(e: (Seq<char>, Seq<char>)) -> bool {
    &&& storable_side(e.0)
    &&& storable_side(e.1)
    &&& e.0.len() > 0 ==> e.0[0] != '['
}

/// Every name and entry of the database survives saving and loading.
pub open spec fn storable(db: LeverDBModel) -> bool {
    &&& forall|i: int| 0 <= i < db.installed.len() ==> storable_name(#[trigger] db.installed[i])
    &&& forall|i: int| 0 <= i < db.compiled.len() ==> storable_name(#[trigger] db.compiled[i])
    &&& forall|i: int| 0 <= i < db.entries.len() ==> storable_entry(#[trigger] db.entries[i])
}

proof fn lemma_read_concat(st: DatabaseRead, a: Seq<Seq<char>>, b: Seq<Seq<char>>)
    ensures
        database_read_from(st, a + b) == database_read_from(database_read_from(st, a), b),
    decreases b.len(),
{
    if b.len() == 0 {
        assert(a + b =~= a);
    } else {
        lemma_read_concat(st, a, b.drop_last());
        assert((a + b).drop_last() =~= a + b.drop_last());
        assert((a + b).last() == b.last());
    }
}

proof fn lemma_read_one(st: DatabaseRead, line: Seq<char>)
    ensures
        database_read_from(st, seq![line]) == database_step(st, line),
{
    assert(seq![line].drop_last() =~= Seq::<Seq<char>>::empty());
    assert(seq![line].last() == line);
    assert(database_read_from(st, Seq::<Seq<char>>::empty()) == st);
}

proof fn lemma_section_words()
    ensures
        header_name("[tracked]"@) == "tracked"@,
        header_name("[compiled]"@) == "compiled"@,
        header_name("[installed]"@) == "installed"@,
        is_header("[tracked]"@),
        is_header("[compiled]"@),
        is_header("[installed]"@),
        "tracked"@ != "installed"@,
        "tracked"@ != "compiled"@,
        "compiled"@ != "installed"@,
        !"[tracked]"@.contains('\n'),
        !"[compiled]"@.contains('\n'),
        !"[installed]"@.contains('\n'),
        "=>"@ == seq!['=', '>'],
{
    reveal_strlit("[tracked]");
    reveal_strlit("[compiled]");
    reveal_strlit("[installed]");
    reveal_strlit("tracked");
    reveal_strlit("compiled");
    reveal_strlit("installed");
    reveal_strlit("=>");
    assert("[tracked]"@.drop_first() =~= "tracked]"@) by {
        reveal_strlit("tracked]");
    }
    reveal_strlit("tracked]");
    assert("tracked]"@.drop_last() =~= "tracked"@);
    assert(trim_end_char("tracked]"@, ']') == trim_end_char("tracked"@, ']'));
    assert("[compiled]"@.drop_first() =~= "compiled]"@) by {
        reveal_strlit("compiled]");
    }
    reveal_strlit("compiled]");
    assert("compiled]"@.drop_last() =~= "compiled"@);
    assert(trim_end_char("compiled]"@, ']') == trim_end_char("compiled"@, ']'));
    assert("[installed]"@.drop_first() =~= "installed]"@) by {
        reveal_strlit("installed]");
    }
    reveal_strlit("installed]");
    assert("installed]"@.drop_last() =~= "installed"@);
    assert(trim_end_char("installed]"@, ']') == trim_end_char("installed"@, ']'));
    assert("tracked"@.len() != "installed"@.len());
    assert("tracked"@.len() != "compiled"@.len());
    assert("compiled"@.len() != "installed"@.len());
    assert(!"[tracked]"@.contains('\n')) by {
        if "[tracked]"@.contains('\n') {
            let k = choose|k: int| 0 <= k < "[tracked]"@.len() && "[tracked]"@[k] == '\n';
        }
    }
    assert(!"[compiled]"@.contains('\n')) by {
        if "[compiled]"@.contains('\n') {
            let k = choose|k: int| 0 <= k < "[compiled]"@.len() && "[compiled]"@[k] == '\n';
        }
    }
    assert(!"[installed]"@.contains('\n')) by {
        if "[installed]"@.contains('\n') {
            let k = choose|k: int| 0 <= k < "[installed]"@.len() && "[installed]"@[k] == '\n';
        }
    }
}

/// Reading the line of a storable entry gives the entry back.
proof fn lemma_entry_line(e: (Seq<char>, Seq<char>))
    requires
        storable_entry(e),
        "=>"@ == seq!['=', '>'],
    ensures
        entry_line(e).len() > 0,
        !is_header(entry_line(e)),
        arrow_pair(entry_line(e)) == Some(e),
        !entry_line(e).contains('\n'),
{
    let line = entry_line(e);
    let k = e.0.len() as int;
    assert(line.len() == k + 2 + e.1.len());
    assert forall|j: int| 0 <= j < line.len() implies #[trigger] line[j] == (if j < k {
        e.0[j]
    } else if j == k {
        '='
    } else if j == k + 1 {
        '>'
    } else {
        e.1[j - k - 2]
    }) by {}
    assert forall|j: int| 0 <= j < k implies !arrow_at(line, j) by {
        if j + 1 < k {
            assert(!arrow_at(e.0, j));
        }
    }
    assert(arrow_at(line, k));
    lemma_first_arrow(line, 0, k);
    if e.1.len() > 0 {
        let m = line.len() - 1;
        assert forall|j: int| k + 2 <= j < m implies !arrow_at(line, j) by {
            assert(!arrow_at(e.1, j - k - 2));
        }
        lemma_first_arrow(line, k + 2, m);
    }
    assert(first_arrow(line, k + 2) == -1);
    assert(line.take(k) =~= e.0);
    assert(line.skip(k + 2) =~= e.1);
    lemma_trim_unchanged(e.0);
    lemma_trim_unchanged(e.1);
    assert(!line.contains('\n')) by {
        if line.contains('\n') {
            let j = choose|j: int| 0 <= j < line.len() && line[j] == '\n';
            if j < k {
                assert(e.0.contains('\n'));
            } else if j >= k + 2 {
                assert(e.1[j - k - 2] == '\n');
                assert(e.1.contains('\n'));
            }
        }
    }
    if k == 0 {
        assert(line[0] == '=');
    } else {
        assert(line[0] == e.0[0]);
    }
}

proof fn lemma_read_entries(st: DatabaseRead, entries: Seq<(Seq<char>, Seq<char>)>)
    requires
        st.section == "tracked"@,
        "tracked"@ != "installed"@,
        "tracked"@ != "compiled"@,
        "=>"@ == seq!['=', '>'],
        forall|i: int| 0 <= i < entries.len() ==> storable_entry(#[trigger] entries[i]),
    ensures
        database_read_from(
            st,
            entries.map_values(|e: (Seq<char>, Seq<char>)| entry_line(e)),
        ) == (DatabaseRead { entries: st.entries + entries, ..st }),
    decreases entries.len(),
{
    let lines = entries.map_values(|e: (Seq<char>, Seq<char>)| entry_line(e));
    if entries.len() == 0 {
        assert(lines =~= Seq::<Seq<char>>::empty());
        assert(st.entries + entries =~= st.entries);
    } else {
        let init = entries.drop_last();
        lemma_read_entries(st, init);
        assert(lines.drop_last() =~= init.map_values(|e: (Seq<char>, Seq<char>)| entry_line(e)));
        let e = entries.last();
        assert(storable_entry(entries[entries.len() - 1]));
        lemma_entry_line(e);
        assert((st.entries + init).push(e) =~= st.entries + entries);
    }
}

proof fn lemma_read_compiled(st: DatabaseRead, names: Seq<Seq<char>>)
    requires
        st.section == "compiled"@,
        "compiled"@ != "installed"@,
        forall|i: int| 0 <= i < names.len() ==> storable_name(#[trigger] names[i]),
    ensures
        database_read_from(st, names) == (DatabaseRead { compiled: st.compiled + names, ..st }),
    decreases names.len(),
{
    if names.len() == 0 {
        assert(st.compiled + names =~= st.compiled);
    } else {
        let init = names.drop_last();
        lemma_read_compiled(st, init);
        let n = names.last();
        assert(storable_name(names[names.len() - 1]));
        lemma_trim_unchanged(n);
        assert((st.compiled + init).push(n) =~= st.compiled + names);
    }
}

proof fn lemma_read_installed(st: DatabaseRead, names: Seq<Seq<char>>)
    requires
        st.section == "installed"@,
        forall|i: int| 0 <= i < names.len() ==> storable_name(#[trigger] names[i]),
    ensures
        database_read_from(st, names) == (DatabaseRead { installed: st.installed + names, ..st }),
    decreases names.len(),
{
    if names.len() == 0 {
        assert(st.installed + names =~= st.installed);
    } else {
        let init = names.drop_last();
        lemma_read_installed(st, init);
        let n = names.last();
        assert(storable_name(names[names.len() - 1]));
        lemma_trim_unchanged(n);
        assert((st.installed + init).push(n) =~= st.installed + names);
    }
}

/// Loading what saving a database wrote gives the same database back, for
/// every database whose names and entries are storable.
pub proof fn lemma_save_then_load(db: LeverDBModel)
    requires
        storable(db),
    ensures
        parse_database(serialize_database(db), db.db_path) == db,
{
    lemma_section_words();
    let t = db.entries.map_values(|e: (Seq<char>, Seq<char>)| entry_line(e));
    let lines = database_lines(db);
    assert forall|i: int| 0 <= i < lines.len() implies !(#[trigger] lines[i]).contains('\n') by {
        let nt = t.len() as int;
        let nc = db.compiled.len() as int;
        if i == 0 {
        } else if i < 1 + nt {
            assert(storable_entry(db.entries[i - 1]));
            lemma_entry_line(db.entries[i - 1]);
        } else if i == 1 + nt {
        } else if i < 2 + nt + nc {
            assert(storable_name(db.compiled[i - 2 - nt]));
        } else if i == 2 + nt + nc {
        } else {
            assert(storable_name(db.installed[i - 3 - nt - nc]));
        }
    }
    lemma_split_join(lines);
    let start = database_start();
    let all = lines.push(Seq::<char>::empty());
    assert(all.drop_last() =~= lines);
    assert(database_read_from(start, all) == database_read_from(start, lines));
    let a1 = seq!["[tracked]"@];
    let a2 = a1 + t;
    let a3 = a2 + seq!["[compiled]"@];
    let a4 = a3 + db.compiled;
    let a5 = a4 + seq!["[installed]"@];
    assert(lines == a5 + db.installed);
    lemma_read_concat(start, a5, db.installed);
    lemma_read_concat(start, a4, seq!["[installed]"@]);
    lemma_read_concat(start, a3, db.compiled);
    lemma_read_concat(start, a2, seq!["[compiled]"@]);
    lemma_read_concat(start, a1, t);
    lemma_read_one(start, "[tracked]"@);
    let s1 = database_read_from(start, a1);
    assert(s1 == DatabaseRead { section: "tracked"@, ..start });
    lemma_read_entries(s1, db.entries);
    let s2 = database_read_from(start, a2);
    assert(s2.entries =~= db.entries);
    lemma_read_one(s2, "[compiled]"@);
    let s3 = database_read_from(start, a3);
    lemma_read_compiled(s3, db.compiled);
    let s4 = database_read_from(start, a4);
    assert(s4.compiled =~= db.compiled);
    lemma_read_one(s4, "[installed]"@);
    let s5 = database_read_from(start, a5);
    lemma_read_installed(s5, db.installed);
    let s6 = database_read_from(start, lines);
    assert(s6.installed =~= db.installed);
}

/// The changes the program makes keep a database storable, given storable
/// names and entries: listing a package as installed or compiled, tracking
/// a package, and untracking one.
pub proof fn lemma_changes_keep_storable(
    db: LeverDBModel,
    name: Seq<char>,
    entry: (Seq<char>, Seq<char>),
)
    requires
        storable(db),
    ensures
        storable_name(name) ==> storable(db.with_installed(db.installed.push(name))),
        storable_name(name) ==> storable(db.with_compiled(db.compiled.push(name))),
        storable_entry(entry) ==> storable(db.with_entries(db.entries.push(entry))),
        storable(
            db.with_entries(db.entries.filter(|e: (Seq<char>, Seq<char>)| e.0 != name)),
        ),
{
    let pred = |e: (Seq<char>, Seq<char>)| e.0 != name;
    let kept = db.entries.filter(pred);
    assert forall|i: int| 0 <= i < kept.len() implies storable_entry(#[trigger] kept[i]) by {
        assert(kept.contains(kept[i]));
        db.entries.lemma_filter_contains_rev(pred, kept[i]);
        let j = choose|j: int| 0 <= j < db.entries.len() && db.entries[j] == kept[i];
        assert(storable_entry(db.entries[j]));
    }
    if storable_name(name) {
        let more = db.installed.push(name);
        assert forall|i: int| 0 <= i < more.len() implies storable_name(#[trigger] more[i]) by {
            if i < db.installed.len() {
                assert(more[i] == db.installed[i]);
            }
        }
        let more = db.compiled.push(name);
        assert forall|i: int| 0 <= i < more.len() implies storable_name(#[trigger] more[i]) by {
            if i < db.compiled.len() {
                assert(more[i] == db.compiled[i]);
            }
        }
    }
    if storable_entry(entry) {
        let more = db.entries.push(entry);
        assert forall|i: int| 0 <= i < more.len() implies storable_entry(#[trigger] more[i]) by {
            if i < db.entries.len() {
                assert(more[i] == db.entries[i]);
            }
        }
    }
}

/// The reader holds each section's lines, read as the format says.
proof fn lemma_read_database_sections(lines: Seq<Seq<char>>)
    ensures
        ({
            let st = database_read_from(database_start(), lines);
            &&& st.section == open_section(lines, Seq::empty())
            &&& st.installed == section_lines(lines, Seq::empty(), "installed"@).map_values(
                |l: Seq<char>| trim(l),
            )
            &&& st.compiled == section_lines(lines, Seq::empty(), "compiled"@).map_values(
                |l: Seq<char>| trim(l),
            )
            &&& st.entries == section_lines(lines, Seq::empty(), "tracked"@).filter_map(
                |l: Seq<char>| arrow_pair(l),
            )
        }),
    decreases lines.len(),
{
    reveal_strlit("installed");
    reveal_strlit("compiled");
    reveal_strlit("tracked");
    assert("installed"@.len() != "compiled"@.len() && "installed"@.len() != "tracked"@.len()
        && "compiled"@.len() != "tracked"@.len());
    let e = Seq::<char>::empty();
    if lines.len() > 0 {
        let init = lines.drop_last();
        lemma_read_database_sections(init);
        let l = lines.last();
        let pick = |l: Seq<char>| arrow_pair(l);
        let tr = |l: Seq<char>| trim(l);
        if l.len() > 0 && !is_header(l) {
            let sec = open_section(init, e);
            if sec == "installed"@ {
                assert(section_lines(lines, e, "installed"@).map_values(tr) =~= section_lines(
                    init,
                    e,
                    "installed"@,
                ).map_values(tr).push(trim(l)));
            } else if sec == "compiled"@ {
                assert(section_lines(lines, e, "compiled"@).map_values(tr) =~= section_lines(
                    init,
                    e,
                    "compiled"@,
                ).map_values(tr).push(trim(l)));
            } else if sec == "tracked"@ {
                let ts = section_lines(lines, e, "tracked"@);
                assert(ts.drop_last() =~= section_lines(init, e, "tracked"@));
                assert(ts.last() == l);
                match arrow_pair(l) {
                    Some(p) => {
                        assert(ts.filter_map(pick) =~= section_lines(init, e, "tracked"@).filter_map(
                            pick,
                        ).push(p));
                    },
                    None => {},
                }
            }
        }
    } else {
        assert(section_lines(lines, e, "installed"@).map_values(|l: Seq<char>| trim(l))
            =~= Seq::<Seq<char>>::empty());
        assert(section_lines(lines, e, "compiled"@).map_values(|l: Seq<char>| trim(l))
            =~= Seq::<Seq<char>>::empty());
    }
}

/// Loading reads the database file section by section (lines before the
/// first header are skipped): the installed and the compiled packages are
/// the lines of their sections, trimmed, in file order; the tracked packages
/// are the lines of `[tracked]` that `=>` splits into exactly two sides, each
/// trimmed, in file order.
pub proof fn lemma_loaded_sections(text: Seq<char>, db_path: Seq<char>)
    ensures
        ({
            let lines = split_on(text, '\n');
            let db = parse_database(text, db_path);
            &&& db.installed == section_lines(lines, Seq::empty(), "installed"@).map_values(
                |l: Seq<char>| trim(l),
            )
            &&& db.compiled == section_lines(lines, Seq::empty(), "compiled"@).map_values(
                |l: Seq<char>| trim(l),
            )
            &&& db.entries == section_lines(lines, Seq::empty(), "tracked"@).filter_map(
                |l: Seq<char>| arrow_pair(l),
            )
            &&& db.db_path == db_path
        }),
{
    lemma_read_database_sections(split_on(text, '\n'));
}

} // verus!
