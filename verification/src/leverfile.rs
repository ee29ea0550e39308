//! Leverfiles: the INI-like description of one package, with its name,
//! optional url, compile and install commands and dependencies.
use vstd::prelude::*;

use crate::text::{
    before_char, chars_are, chars_of, copy_strings, find_char, header_name, is_header, open_section,
    section_lines, split_on, split_text, string_of, string_of_range, strings_view, sub_chars,
    trim_end_char_bound,
};

verus! {

/// The file name looked for when a directory, or nothing, is given.
pub const LEVERFILE_DEFAULT_NAME: &'static str = "leverfile.ini";

/// What a freshly created leverfile holds.
pub const LEVERFILE_TEMPLATE: &'static str = "# Template leverfile\n\n[name]\n#example package name\n\n#uncomment to set url\n#[url]\n#this can be left blank\n\n[compile]\n#add compile commands here\n\n[dependencies]\n#add leverfile package names here as dependencies\n#example-package\n";

/// A parsed leverfile.
#[derive(Debug)]
pub struct LeverFile {
    url: Option<String>,
    compile_commands: Vec<String>,
    install_commands: Vec<String>,
    dependencies: Vec<String>,
    absolute_path: String,
    name: String,
}

/// The contents of a leverfile, as character sequences.
pub struct LeverFileModel {
    pub url: Option<Seq<char>>,
    pub compile_commands: Seq<Seq<char>>,
    pub install_commands: Seq<Seq<char>>,
    pub dependencies: Seq<Seq<char>>,
    pub absolute_path: Seq<char>,
    pub name: Seq<char>,
}

/// The character sequence of an optional string.
pub open spec fn opt_view(o: Option<String>) -> Option<Seq<char>> {
    match o {
        Some(s) => Some(s@),
        None => None,
    }
}

impl View for LeverFile {
    type V = LeverFileModel;

    closed spec fn view(&self) -> LeverFileModel {
        LeverFileModel {
            url: opt_view(self.url),
            compile_commands: strings_view(self.compile_commands@),
            install_commands: strings_view(self.install_commands@),
            dependencies: strings_view(self.dependencies@),
            absolute_path: self.absolute_path@,
            name: self.name@,
        }
    }
}

/// Why a leverfile's text was refused.
#[derive(Debug)]
pub enum LeverFileError {
    /// A content line stands in a section that leverfiles do not have
    /// (`global` before the first header).
    UnknownSection { section: String, line: String },
    /// No `name` section line gave the package a name.
    MissingName,
}

/// Commands to run, one shell line each, from a working directory.
pub struct CommandBatch {
    pub commands: Vec<String>,
    pub directory: String,
}

// ---------------------------------------------------------------------------
// The format
// ---------------------------------------------------------------------------

/// The reader's state after some lines: the open section, what was read so
/// far, and the first offending line if one was met.
pub struct LeverFileRead {
    pub section: Seq<char>,
    pub url: Option<Seq<char>>,
    pub name: Seq<char>,
    pub compile_commands: Seq<Seq<char>>,
    pub install_commands: Seq<Seq<char>>,
    pub dependencies: Seq<Seq<char>>,
    pub failure: Option<(Seq<char>, Seq<char>)>,
}

/// Before any line: section `global`, nothing read.
pub open spec fn leverfile_start() -> LeverFileRead {
    LeverFileRead {
        section: "global"@,
        url: None,
        name: Seq::empty(),
        compile_commands: Seq::empty(),
        install_commands: Seq::empty(),
        dependencies: Seq::empty(),
        failure: None,
    }
}

/// Reading one raw line: a `#` starts a comment, empty lines are skipped,
/// `[x]` opens section `x`, and a content line goes where its section says;
/// a content line in any other section stops the reading.
pub open spec fn leverfile_step(st: LeverFileRead, raw: Seq<char>) -> LeverFileRead {
    let line = before_char(raw, '#');
    if st.failure is Some || line.len() == 0 {
        st
    } else if is_header(line) {
        LeverFileRead { section: header_name(line), ..st }
    } else if st.section == "url"@ {
        LeverFileRead { url: Some(line), ..st }
    } else if st.section == "install"@ {
        LeverFileRead { install_commands: st.install_commands.push(line), ..st }
    } else if st.section == "compile"@ {
        LeverFileRead { compile_commands: st.compile_commands.push(line), ..st }
    } else if st.section == "name"@ {
        LeverFileRead { name: line, ..st }
    } else if st.section == "dependencies"@ {
        LeverFileRead { dependencies: st.dependencies.push(line), ..st }
    } else {
        LeverFileRead { failure: Some((st.section, line)), ..st }
    }
}

/// Reading the lines in order.
pub open spec fn leverfile_read(lines: Seq<Seq<char>>) -> LeverFileRead
    decreases lines.len(),
{
    if lines.len() == 0 {
        leverfile_start()
    } else {
        leverfile_step(leverfile_read(lines.drop_last()), lines.last())
    }
}

/// What reading a leverfile's text gives.
pub enum LeverFileOutcome {
    Parsed(LeverFileModel),
    UnknownSection(Seq<char>, Seq<char>),
    MissingName,
}

/// The leverfile a text describes, found at `absolute_path`.
pub open spec fn parse_leverfile(text: Seq<char>, absolute_path: Seq<char>) -> LeverFileOutcome {
    let st = leverfile_read(split_on(text, '\n'));
    match st.failure {
        Some((section, line)) => LeverFileOutcome::UnknownSection(section, line),
        None => if st.name.len() == 0 {
            LeverFileOutcome::MissingName
        } else {
            LeverFileOutcome::Parsed(
                LeverFileModel {
                    url: st.url,
                    compile_commands: st.compile_commands,
                    install_commands: st.install_commands,
                    dependencies: st.dependencies,
                    absolute_path,
                    name: st.name,
                },
            )
        },
    }
}

/// The outcome a parse result stands for.
pub open spec fn leverfile_outcome(r: Result<LeverFile, LeverFileError>) -> LeverFileOutcome {
    match r {
        Ok(lf) => LeverFileOutcome::Parsed(lf@),
        Err(LeverFileError::UnknownSection { section, line }) => LeverFileOutcome::UnknownSection(
            section@,
            line@,
        ),
        Err(LeverFileError::MissingName) => LeverFileOutcome::MissingName,
    }
}

// ---------------------------------------------------------------------------
// Reading
// ---------------------------------------------------------------------------

struct Reader {
    section: Vec<char>,
    url: Option<String>,
    name: String,
    compile_commands: Vec<String>,
    install_commands: Vec<String>,
    dependencies: Vec<String>,
    failure: Option<(String, String)>,
}

/// The character sequences of an optional pair of strings.
pub open spec fn opt_pair_view(o: Option<(String, String)>) -> Option<(Seq<char>, Seq<char>)> {
    match o {
        Some((a, b)) => Some((a@, b@)),
        None => None,
    }
}

impl Reader {
    closed spec fn state(&self) -> LeverFileRead {
        LeverFileRead {
            section: self.section@,
            url: opt_view(self.url),
            name: self.name@,
            compile_commands: strings_view(self.compile_commands@),
            install_commands: strings_view(self.install_commands@),
            dependencies: strings_view(self.dependencies@),
            failure: opt_pair_view(self.failure),
        }
    }

    /// Reads one raw line.
    fn step(&mut self, raw: &Vec<char>)
        ensures
            final(self).state() == leverfile_step(old(self).state(), raw@),
    {
        if self.failure.is_some() {
            return;
        }
        let end = find_char(raw, 0, raw.len(), '#');
        let ghost line = raw@.subrange(0, end as int);
        assert(line == before_char(raw@, '#')) by {
            assert(raw@.subrange(0, raw@.len() as int) == raw@);
        }
        if end == 0 {
            return;
        }
        if raw[0] == '[' {
            let close = trim_end_char_bound(raw, 1, end, ']');
            assert(line.drop_first() =~= raw@.subrange(1, end as int));
            self.section = sub_chars(raw, 1, close);
            return;
        }
        let content = string_of_range(raw, 0, end);
        if chars_are(&self.section, "url") {
            self.url = Some(content);
        } else if chars_are(&self.section, "install") {
            self.install_commands.push(content);
            assert(strings_view(self.install_commands@) =~= strings_view(
                old(self).install_commands@,
            ).push(line));
        } else if chars_are(&self.section, "compile") {
            self.compile_commands.push(content);
            assert(strings_view(self.compile_commands@) =~= strings_view(
                old(self).compile_commands@,
            ).push(line));
        } else if chars_are(&self.section, "name") {
            self.name = content;
        } else if chars_are(&self.section, "dependencies") {
            self.dependencies.push(content);
            assert(strings_view(self.dependencies@) =~= strings_view(
                old(self).dependencies@,
            ).push(line));
        } else {
            let section = string_of(&self.section);
            self.failure = Some((section, content));
        }
    }
}

impl LeverFile {
    /// Reads a leverfile from its text; `absolute_path` is where it was found.
    /// Fails on the first content line that stands outside the known
    /// sections, and when no name was given.
    pub fn parse(text: &str, absolute_path: &str) -> (r: Result<LeverFile, LeverFileError>)
        ensures
            leverfile_outcome(r) == parse_leverfile(text@, absolute_path@),
    {
        let pieces = split_text(text, '\n');
        let ghost lines = strings_view(pieces@);
        let mut reader = Reader {
            section: chars_of("global"),
            url: None,
            name: String::new(),
            compile_commands: Vec::new(),
            install_commands: Vec::new(),
            dependencies: Vec::new(),
            failure: None,
        };
        proof {
            assert(strings_view(reader.compile_commands@) =~= Seq::<Seq<char>>::empty());
            assert(strings_view(reader.install_commands@) =~= Seq::<Seq<char>>::empty());
            assert(strings_view(reader.dependencies@) =~= Seq::<Seq<char>>::empty());
            assert(lines.take(0) =~= Seq::<Seq<char>>::empty());
        }
        let mut i: usize = 0;
        while i < pieces.len()
            invariant
                i <= pieces.len(),
                lines == strings_view(pieces@),
                lines == split_on(text@, '\n'),
                reader.state() == leverfile_read(lines.take(i as int)),
            decreases pieces.len() - i,
        {
            let line = chars_of(pieces[i].as_str());
            assert(lines.take(i + 1).drop_last() =~= lines.take(i as int));
            reader.step(&line);
            i = i + 1;
        }
        assert(lines.take(pieces.len() as int) =~= lines);
        if let Some((section, bad)) = reader.failure {
            return Err(LeverFileError::UnknownSection { section, line: bad });
        }
        if reader.name.as_str().is_empty() {
            return Err(LeverFileError::MissingName);
        }
        Ok(
            LeverFile {
                url: reader.url,
                compile_commands: reader.compile_commands,
                install_commands: reader.install_commands,
                dependencies: reader.dependencies,
                absolute_path: absolute_path.to_owned(),
                name: reader.name,
            },
        )
    }

    /// The commands that compiling the package runs, and the directory they
    /// run in.
    pub fn compile(&self, git_repo_path: &str) -> (batch: CommandBatch)
        ensures
            strings_view(batch.commands@) == self@.compile_commands,
            batch.directory@ == git_repo_path@,
    {
        CommandBatch {
            commands: copy_strings(&self.compile_commands),
            directory: git_repo_path.to_owned(),
        }
    }

    /// The commands that installing the package runs, and the directory they
    /// run in.
    pub fn install(&self, git_repo_path: &str) -> (batch: CommandBatch)
        ensures
            strings_view(batch.commands@) == self@.install_commands,
            batch.directory@ == git_repo_path@,
    {
        CommandBatch {
            commands: copy_strings(&self.install_commands),
            directory: git_repo_path.to_owned(),
        }
    }

    /// The names of the packages this one depends on, in file order.
    pub fn dependencies(&self) -> (r: Vec<String>)
        ensures
            strings_view(r@) == self@.dependencies,
    {
        copy_strings(&self.dependencies)
    }

    /// Where the leverfile was found.
    pub fn absolute_path(&self) -> (r: &str)
        ensures
            r@ == self@.absolute_path,
    {
        self.absolute_path.as_str()
    }

    /// The package's name.
    pub fn name(&self) -> (r: &str)
        ensures
            r@ == self@.name,
    {
        self.name.as_str()
    }

    /// The package's url, when the file gives one.
    pub fn url(&self) -> (r: Option<&str>)
        ensures
            r matches Some(u) ==> self@.url == Some(u@),
            r is None ==> self@.url is None,
    {
        match &self.url {
            Some(u) => Some(u.as_str()),
            None => None,
        }
    }
}

/// A leverfile that parses always names its package, and records where it
/// was found.
pub proof fn lemma_parsed_has_name(text: Seq<char>, absolute_path: Seq<char>)
    ensures
        parse_leverfile(text, absolute_path) matches LeverFileOutcome::Parsed(lf) ==> lf.name.len()
            > 0 && lf.absolute_path == absolute_path,
{
}

/// The lines with their comments removed.
pub open spec fn uncommented(lines: Seq<Seq<char>>) -> Seq<Seq<char>> {
    lines.map_values(|x: Seq<char>| before_char(x, '#'))
}

/// The last content line of a section, if it has one.
pub open spec fn last_line(ls: Seq<Seq<char>>) -> Option<Seq<char>> {
    if ls.len() == 0 {
        None
    } else {
        Some(ls.last())
    }
}

/// While no line has been refused, the reader holds each section's lines.
proof fn lemma_read_sections(lines: Seq<Seq<char>>)
    ensures
        ({
            let st = leverfile_read(lines);
            st.failure is None ==> {
                let u = uncommented(lines);
                &&& st.section == open_section(u, "global"@)
                &&& st.install_commands == section_lines(u, "global"@, "install"@)
                &&& st.compile_commands == section_lines(u, "global"@, "compile"@)
                &&& st.dependencies == section_lines(u, "global"@, "dependencies"@)
                &&& st.url == last_line(section_lines(u, "global"@, "url"@))
                &&& st.name == match last_line(section_lines(u, "global"@, "name"@)) {
                    Some(n) => n,
                    None => Seq::<char>::empty(),
                }
            }
        }),
    decreases lines.len(),
{
    reveal_strlit("global");
    reveal_strlit("install");
    reveal_strlit("compile");
    reveal_strlit("dependencies");
    reveal_strlit("url");
    reveal_strlit("name");
    assert("install"@ != "compile"@) by {
        assert("install"@[0] != "compile"@[0]);
    }
    assert("install"@.len() != "url"@.len() && "install"@.len() != "name"@.len()
        && "install"@.len() != "dependencies"@.len() && "compile"@.len() != "url"@.len()
        && "compile"@.len() != "name"@.len() && "compile"@.len() != "dependencies"@.len()
        && "url"@.len() != "name"@.len() && "url"@.len() != "dependencies"@.len()
        && "name"@.len() != "dependencies"@.len());
    let u = uncommented(lines);
    if lines.len() > 0 {
        lemma_read_sections(lines.drop_last());
        assert(u.drop_last() =~= uncommented(lines.drop_last()));
        assert(u.last() == before_char(lines.last(), '#'));
    } else {
        assert(section_lines(u, "global"@, "name"@).len() == 0);
        assert(section_lines(u, "global"@, "url"@).len() == 0);
    }
}

/// Parsing reads the text section by section (a `#` starts a comment, and
/// lines before the first header stand in section `global`): the install
/// commands, the compile commands and the dependencies are every content
/// line of their sections, in file order, with comments removed; the name and the url are
/// the last content line of their sections (a parsed leverfile always has a
/// name line).
pub proof fn lemma_parsed_sections(text: Seq<char>, absolute_path: Seq<char>)
    ensures
        parse_leverfile(text, absolute_path) matches LeverFileOutcome::Parsed(lf) ==> {
            let u = uncommented(split_on(text, '\n'));
            &&& lf.install_commands == section_lines(u, "global"@, "install"@)
            &&& lf.compile_commands == section_lines(u, "global"@, "compile"@)
            &&& lf.dependencies == section_lines(u, "global"@, "dependencies"@)
            &&& lf.url == last_line(section_lines(u, "global"@, "url"@))
            &&& last_line(section_lines(u, "global"@, "name"@)) == Some(lf.name)
        },
{
    lemma_read_sections(split_on(text, '\n'));
}

} // verus!
