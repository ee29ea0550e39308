//! The package database: which packages are tracked (and where their
//! leverfiles are), which are compiled and which are installed.
use vstd::prelude::*;

use crate::leverfile::LeverFile;
use crate::text::{copy_strings, same_text, strings_view};

verus! {

/// The package database.
#[derive(Debug)]
pub struct LeverDB {
    pub installed_packages: Vec<String>,
    pub compiled_packages: Vec<String>,
    /// `(name, leverfile location)` pairs.
    pub tracked_packages: Vec<(String, String)>,
    pub db_path: String,
}

/// The database's contents as character sequences.
pub struct LeverDBModel {
    pub installed: Seq<Seq<char>>,
    pub compiled: Seq<Seq<char>>,
    pub entries: Seq<(Seq<char>, Seq<char>)>,
    pub db_path: Seq<char>,
}

impl LeverDBModel {
    /// The same database with other tracked entries.
    pub open spec fn with_entries(self, entries: Seq<(Seq<char>, Seq<char>)>) -> LeverDBModel {
        LeverDBModel { entries, ..self }
    }

    /// The same database with another installed list.
    pub open spec fn with_installed(self, installed: Seq<Seq<char>>) -> LeverDBModel {
        LeverDBModel { installed, ..self }
    }

    /// The same database with another compiled list.
    pub open spec fn with_compiled(self, compiled: Seq<Seq<char>>) -> LeverDBModel {
        LeverDBModel { compiled, ..self }
    }
}

/// The character sequences of a list of string pairs.
pub open spec fn pairs_view(v: Seq<(String, String)>) -> Seq<(Seq<char>, Seq<char>)> {
    v.map_values(|p: (String, String)| (p.0@, p.1@))
}

impl View for LeverDB {
    type V = LeverDBModel;

    open spec fn view(&self) -> LeverDBModel {
        LeverDBModel {
            installed: strings_view(self.installed_packages@),
            compiled: strings_view(self.compiled_packages@),
            entries: pairs_view(self.tracked_packages@),
            db_path: self.db_path@,
        }
    }
}

/// Why a database operation was refused.
#[derive(Debug)]
pub enum DatabaseError {
    /// A package of this name is tracked already.
    AlreadyTracked(String),
    /// No tracked package has this name.
    NotTracked(String),
    /// The package is listed as installed already.
    AlreadyInstalled,
    /// The package is listed as compiled already.
    AlreadyCompiled,
    /// No tracked package has this name, so its leverfile cannot be found.
    UnknownPackage(String),
    /// The leverfile at this location is needed and has not been read yet.
    NotLoaded(String),
    /// Reading the leverfile at a location failed, with this message.
    LoadFailed(String),
    /// The package's dependencies lead back to it.
    DependencyCycle(String),
}

/// A database error as character sequences.
pub enum DatabaseErrorModel {
    AlreadyTracked(Seq<char>),
    NotTracked(Seq<char>),
    AlreadyInstalled,
    AlreadyCompiled,
    UnknownPackage(Seq<char>),
    NotLoaded(Seq<char>),
    LoadFailed(Seq<char>),
    DependencyCycle(Seq<char>),
}

impl View for DatabaseError {
    type V = DatabaseErrorModel;

    open spec fn view(&self) -> DatabaseErrorModel {
        match self {
            DatabaseError::AlreadyTracked(n) => DatabaseErrorModel::AlreadyTracked(n@),
            DatabaseError::NotTracked(n) => DatabaseErrorModel::NotTracked(n@),
            DatabaseError::AlreadyInstalled => DatabaseErrorModel::AlreadyInstalled,
            DatabaseError::AlreadyCompiled => DatabaseErrorModel::AlreadyCompiled,
            DatabaseError::UnknownPackage(n) => DatabaseErrorModel::UnknownPackage(n@),
            DatabaseError::NotLoaded(l) => DatabaseErrorModel::NotLoaded(l@),
            DatabaseError::LoadFailed(m) => DatabaseErrorModel::LoadFailed(m@),
            DatabaseError::DependencyCycle(n) => DatabaseErrorModel::DependencyCycle(n@),
        }
    }
}

/// The message shown for a database error.
pub open spec fn error_message(e: DatabaseErrorModel) -> Seq<char> {
    match e {
        DatabaseErrorModel::AlreadyTracked(n) => "package \""@ + n + "\" already tracked"@,
        DatabaseErrorModel::NotTracked(n) => "Package \""@ + n + "\" not found in database"@,
        DatabaseErrorModel::AlreadyInstalled => "package already installed"@,
        DatabaseErrorModel::AlreadyCompiled => "package already compiled"@,
        DatabaseErrorModel::UnknownPackage(n) => "Package \""@ + n + "\" not known to lever"@,
        DatabaseErrorModel::NotLoaded(l) => "leverfile \""@ + l + "\" has not been read"@,
        DatabaseErrorModel::LoadFailed(m) => m,
        DatabaseErrorModel::DependencyCycle(n) => "dependencies of package \""@ + n
            + "\" lead back to it"@,
    }
}

impl DatabaseError {
    /// The message shown for this error.
    pub fn message(&self) -> (m: String)
        ensures
            m@ == error_message(self@),
    {
        match self {
            DatabaseError::AlreadyTracked(n) => quoted("package \"", n, "\" already tracked"),
            DatabaseError::NotTracked(n) => quoted("Package \"", n, "\" not found in database"),
            DatabaseError::AlreadyInstalled => "package already installed".to_owned(),
            DatabaseError::AlreadyCompiled => "package already compiled".to_owned(),
            DatabaseError::UnknownPackage(n) => quoted("Package \"", n, "\" not known to lever"),
            DatabaseError::NotLoaded(l) => quoted("leverfile \"", l, "\" has not been read"),
            DatabaseError::LoadFailed(m) => m.clone(),
            DatabaseError::DependencyCycle(n) => quoted(
                "dependencies of package \"",
                n,
                "\" lead back to it",
            ),
        }
    }
}

fn quoted(before: &str, middle: &String, after: &str) -> (r: String)
    ensures
        r@ == before@ + middle@ + after@,
{
    let mut r = before.to_owned();
    r.append(middle.as_str());
    r.append(after);
    r
}

// ---------------------------------------------------------------------------
// Queries
// ---------------------------------------------------------------------------

/// The location recorded for the first tracked package called `name`.
pub open spec fn location_of(entries: Seq<(Seq<char>, Seq<char>)>, name: Seq<char>) -> Option<
    Seq<char>,
>
    decreases entries.len(),
{
    if entries.len() == 0 {
        None
    } else if entries[0].0 == name {
        Some(entries[0].1)
    } else {
        location_of(entries.drop_first(), name)
    }
}

/// Some tracked package is called `name`.
pub open spec fn is_tracked(entries: Seq<(Seq<char>, Seq<char>)>, name: Seq<char>) -> bool {
    exists|i: int| 0 <= i < entries.len() && (#[trigger] entries[i]).0 == name
}

/// `location_of` gives the location of the first entry with the name.
proof fn lemma_location_of(entries: Seq<(Seq<char>, Seq<char>)>, name: Seq<char>, k: int)
    requires
        0 <= k <= entries.len(),
        forall|j: int| 0 <= j < k ==> (#[trigger] entries[j]).0 != name,
        k < entries.len() ==> entries[k].0 == name,
    ensures
        location_of(entries, name) == (if k < entries.len() {
            Some(entries[k].1)
        } else {
            None::<Seq<char>>
        }),
    decreases k,
{
    if entries.len() == 0 {
    } else if k == 0 {
    } else {
        let t = entries.drop_first();
        assert forall|j: int| 0 <= j < k - 1 implies (#[trigger] t[j]).0 != name by {
            assert(t[j] == entries[j + 1]);
        }
        assert(entries[0].0 != name);
        lemma_location_of(t, name, k - 1);
    }
}

/// The location found for a name is that of its first tracked entry: no
/// earlier entry has the name.
pub proof fn lemma_first_entry_counts(entries: Seq<(Seq<char>, Seq<char>)>, name: Seq<char>)
    ensures
        location_of(entries, name) matches Some(l) ==> exists|k: int|
            0 <= k < entries.len() && #[trigger] entries[k] == (name, l) && forall|j: int|
                0 <= j < k ==> (#[trigger] entries[j]).0 != name,
    decreases entries.len(),
{
    if entries.len() > 0 && entries[0].0 != name {
        let t = entries.drop_first();
        lemma_first_entry_counts(t, name);
        if let Some(l) = location_of(entries, name) {
            let k = choose|k: int|
                0 <= k < t.len() && #[trigger] t[k] == (name, l) && forall|j: int|
                    0 <= j < k ==> (#[trigger] t[j]).0 != name;
            assert(entries[k + 1] == (name, l));
            assert forall|j: int| 0 <= j < k + 1 implies (#[trigger] entries[j]).0 != name by {
                if j > 0 {
                    assert(entries[j] == t[j - 1]);
                }
            }
        }
    } else if entries.len() > 0 {
        assert(entries[0] == (name, entries[0].1));
    }
}

/// `location_of` finds something exactly when the name is tracked.
pub proof fn lemma_location_iff_tracked(entries: Seq<(Seq<char>, Seq<char>)>, name: Seq<char>)
    ensures
        location_of(entries, name) is Some <==> is_tracked(entries, name),
        location_of(entries, name) matches Some(l) ==> entries.contains((name, l)),
    decreases entries.len(),
{
    if entries.len() > 0 {
        let t = entries.drop_first();
        lemma_location_iff_tracked(t, name);
        if is_tracked(t, name) {
            let i = choose|i: int| 0 <= i < t.len() && (#[trigger] t[i]).0 == name;
            assert(entries[i + 1] == t[i]);
        }
        if is_tracked(entries, name) && entries[0].0 != name {
            let i = choose|i: int| 0 <= i < entries.len() && (#[trigger] entries[i]).0 == name;
            assert(t[i - 1] == entries[i]);
        }
        if location_of(entries, name) is Some && entries[0].0 != name {
            let l = location_of(t, name)->0;
            let k = choose|k: int| 0 <= k < t.len() && t[k] == (name, l);
            assert(entries[k + 1] == t[k]);
        }
        if entries[0].0 == name {
            assert(entries[0] == (name, entries[0].1));
        }
    }
}

/// Whether the list holds `name`.
fn holds_name(list: &Vec<String>, name: &str) -> (r: bool)
    ensures
        r == strings_view(list@).contains(name@),
{
    let mut i: usize = 0;
    while i < list.len()
        invariant
            i <= list.len(),
            forall|j: int| 0 <= j < i ==> strings_view(list@)[j] != name@,
        decreases list.len() - i,
    {
        if same_text(list[i].as_str(), name) {
            assert(strings_view(list@)[i as int] == name@);
            return true;
        }
        i = i + 1;
    }
    false
}

/// The position of the first tracked entry called `name`, if any.
fn tracked_position(entries: &Vec<(String, String)>, name: &str) -> (r: Option<usize>)
    ensures
        match r {
            Some(k) => k < entries.len() && pairs_view(entries@)[k as int].0 == name@ && forall|
                j: int,
            |
                0 <= j < k ==> (#[trigger] pairs_view(entries@)[j]).0 != name@,
            None => forall|j: int|
                0 <= j < entries.len() ==> (#[trigger] pairs_view(entries@)[j]).0 != name@,
        },
{
    let mut i: usize = 0;
    while i < entries.len()
        invariant
            i <= entries.len(),
            forall|j: int| 0 <= j < i ==> (#[trigger] pairs_view(entries@)[j]).0 != name@,
        decreases entries.len() - i,
    {
        if same_text(entries[i].0.as_str(), name) {
            return Some(i);
        }
        i = i + 1;
    }
    None
}

impl LeverDB {
    /// The leverfile location of the first tracked package called
    /// `name_query`.
    pub fn get_package_location(&self, name_query: &str) -> (r: Option<String>)
        ensures
            match r {
                Some(l) => location_of(self@.entries, name_query@) == Some(l@),
                None => location_of(self@.entries, name_query@) is None,
            },
    {
        let found = tracked_position(&self.tracked_packages, name_query);
        match found {
            Some(k) => {
                proof {
                    lemma_location_of(self@.entries, name_query@, k as int);
                }
                Some(self.tracked_packages[k].1.clone())
            },
            None => {
                proof {
                    lemma_location_of(self@.entries, name_query@, self@.entries.len() as int);
                }
                None
            },
        }
    }

    /// The packages listed as compiled.
    pub fn compiled_packages(&self) -> (r: Vec<String>)
        ensures
            strings_view(r@) == self@.compiled,
    {
        copy_strings(&self.compiled_packages)
    }

    /// The packages listed as installed.
    pub fn installed_packages(&self) -> (r: Vec<String>)
        ensures
            strings_view(r@) == self@.installed,
    {
        copy_strings(&self.installed_packages)
    }

    /// The packages a command acts on: the ones named, or every installed
    /// package when none is named.
    pub fn selected_packages(&self, targets: &Vec<String>) -> (r: Vec<String>)
        ensures
            strings_view(r@) == if targets@.len() == 0 {
                self@.installed
            } else {
                strings_view(targets@)
            },
    {
        if targets.len() == 0 {
            self.installed_packages()
        } else {
            copy_strings(targets)
        }
    }

    /// Starts tracking the package a leverfile describes, recording where the
    /// leverfile is; refused when a package of that name is tracked already.
    pub fn add_tracked(&mut self, leverfile: &LeverFile) -> (r: Result<(), DatabaseError>)
        ensures
            is_tracked(old(self)@.entries, leverfile@.name) ==> (r matches Err(e) && e@
                == DatabaseErrorModel::AlreadyTracked(leverfile@.name)),
            is_tracked(old(self)@.entries, leverfile@.name) ==> final(self)@ == old(self)@,
            !is_tracked(old(self)@.entries, leverfile@.name) ==> r is Ok,
            !is_tracked(old(self)@.entries, leverfile@.name) ==> final(self)@ == old(
                self,
            )@.with_entries(old(self)@.entries.push((leverfile@.name, leverfile@.absolute_path))),
    {
        let name = leverfile.name();
        match tracked_position(&self.tracked_packages, name) {
            Some(k) => {
                assert(old(self)@.entries[k as int].0 == leverfile@.name);
                Err(DatabaseError::AlreadyTracked(name.to_owned()))
            },
            None => {
                let ghost before = self.tracked_packages@;
                self.tracked_packages.push((name.to_owned(), leverfile.absolute_path().to_owned()));
                assert(pairs_view(self.tracked_packages@) =~= pairs_view(before).push(
                    (leverfile@.name, leverfile@.absolute_path),
                ));
                Ok(())
            },
        }
    }

    /// Stops tracking every package called `package_name`; refused when none
    /// is.
    pub fn remove_tracked(&mut self, package_name: &str) -> (r: Result<(), DatabaseError>)
        ensures
            r is Ok <==> is_tracked(old(self)@.entries, package_name@),
            r is Err ==> (r matches Err(e) && e@ == DatabaseErrorModel::NotTracked(package_name@)),
            final(self)@ == old(self)@.with_entries(old(self)@.entries.filter(|e: (Seq<char>, Seq<char>)| e.0 != package_name@)),
    {
        let ghost pred = |e: (Seq<char>, Seq<char>)| e.0 != package_name@;
        let ghost old_tracked = self@.entries;
        let mut kept: Vec<(String, String)> = Vec::new();
        let mut found = false;
        let mut i: usize = 0;
        while i < self.tracked_packages.len()
            invariant
                i <= self.tracked_packages.len(),
                old_tracked == pairs_view(self.tracked_packages@),
                pred == (|e: (Seq<char>, Seq<char>)| e.0 != package_name@),
                pairs_view(kept@) == old_tracked.take(i as int).filter(pred),
                found <==> exists|j: int| 0 <= j < i && (#[trigger] old_tracked[j]).0 == package_name@,
            decreases self.tracked_packages.len() - i,
        {
            reveal_with_fuel(Seq::<_>::filter, 1);
            assert(old_tracked.take(i + 1).drop_last() =~= old_tracked.take(i as int));
            if same_text(self.tracked_packages[i].0.as_str(), package_name) {
                assert(old_tracked[i as int].0 == package_name@);
                found = true;
            } else {
                assert(old_tracked[i as int].0 != package_name@);
                let ghost before = kept@;
                let entry = (self.tracked_packages[i].0.clone(), self.tracked_packages[i].1.clone());
                kept.push(entry);
                assert(pairs_view(kept@) =~= pairs_view(before).push(old_tracked[i as int]));
            }
            i = i + 1;
        }
        assert(old_tracked.take(i as int) =~= old_tracked);
        if found {
            self.tracked_packages = kept;
            Ok(())
        } else {
            proof {
                lemma_filter_keeps_all(old_tracked, pred);
            }
            Err(DatabaseError::NotTracked(package_name.to_owned()))
        }
    }

    /// Removes every reference to `package_name`: its tracked entries and its
    /// places in the installed and compiled lists. Refused (as not tracked)
    /// when no tracked entry has the name; the lists lose it all the same.
    pub fn remove_package(&mut self, package_name: &str) -> (r: Result<(), DatabaseError>)
        ensures
            r is Ok <==> is_tracked(old(self)@.entries, package_name@),
            r is Err ==> (r matches Err(e) && e@ == DatabaseErrorModel::NotTracked(package_name@)),
            final(self)@ == without_package(old(self)@, package_name@),
    {
        let r = self.remove_tracked(package_name);
        self.installed_packages = without_name(&self.installed_packages, package_name);
        self.compiled_packages = without_name(&self.compiled_packages, package_name);
        r
    }

    /// The leverfile location of the tracked package called `name`; refused
    /// when no tracked package has that name.
    pub fn leverfile_location(&self, name: &str) -> (r: Result<String, DatabaseError>)
        ensures
            match location_of(self@.entries, name@) {
                Some(l) => r matches Ok(s) && s@ == l,
                None => r matches Err(e) && e@ == DatabaseErrorModel::UnknownPackage(name@),
            },
    {
        match self.get_package_location(name) {
            Some(l) => Ok(l),
            None => Err(DatabaseError::UnknownPackage(name.to_owned())),
        }
    }

    /// Lists a package as installed; refused when it is already.
    pub fn add_installed(&mut self, package_name: &str) -> (r: Result<(), DatabaseError>)
        ensures
            old(self)@.installed.contains(package_name@) ==> (r matches Err(e) && e@
                == DatabaseErrorModel::AlreadyInstalled),
            old(self)@.installed.contains(package_name@) ==> final(self)@ == old(self)@,
            !old(self)@.installed.contains(package_name@) ==> r is Ok,
            !old(self)@.installed.contains(package_name@) ==> final(self)@ == old(
                self,
            )@.with_installed(old(self)@.installed.push(package_name@)),
    {
        if holds_name(&self.installed_packages, package_name) {
            return Err(DatabaseError::AlreadyInstalled);
        }
        let ghost before = self.installed_packages@;
        self.installed_packages.push(package_name.to_owned());
        assert(strings_view(self.installed_packages@) =~= strings_view(before).push(
            package_name@,
        ));
        Ok(())
    }

    /// Lists a package as compiled; refused when it is already.
    pub fn add_compiled(&mut self, package_name: &str) -> (r: Result<(), DatabaseError>)
        ensures
            old(self)@.compiled.contains(package_name@) ==> (r matches Err(e) && e@
                == DatabaseErrorModel::AlreadyCompiled),
            old(self)@.compiled.contains(package_name@) ==> final(self)@ == old(self)@,
            !old(self)@.compiled.contains(package_name@) ==> r is Ok,
            !old(self)@.compiled.contains(package_name@) ==> final(self)@ == old(
                self,
            )@.with_compiled(old(self)@.compiled.push(package_name@)),
    {
        if holds_name(&self.compiled_packages, package_name) {
            return Err(DatabaseError::AlreadyCompiled);
        }
        let ghost before = self.compiled_packages@;
        self.compiled_packages.push(package_name.to_owned());
        assert(strings_view(self.compiled_packages@) =~= strings_view(before).push(
            package_name@,
        ));
        Ok(())
    }
}

/// A list without every copy of `name`.
pub open spec fn drop_name(list: Seq<Seq<char>>, name: Seq<char>) -> Seq<Seq<char>> {
    list.filter(|n: Seq<char>| n != name)
}

/// The database with every reference to `name` removed.
pub open spec fn without_package(db: LeverDBModel, name: Seq<char>) -> LeverDBModel {
    LeverDBModel {
        installed: drop_name(db.installed, name),
        compiled: drop_name(db.compiled, name),
        entries: db.entries.filter(|e: (Seq<char>, Seq<char>)| e.0 != name),
        db_path: db.db_path,
    }
}

/// `list` without every copy of `name`.
fn without_name(list: &Vec<String>, name: &str) -> (r: Vec<String>)
    ensures
        strings_view(r@) == drop_name(strings_view(list@), name@),
{
    let ghost pred = |n: Seq<char>| n != name@;
    let ghost all = strings_view(list@);
    let mut kept: Vec<String> = Vec::new();
    let mut i: usize = 0;
    assert(all.take(0) =~= Seq::<Seq<char>>::empty());
    assert(strings_view(kept@) =~= Seq::<Seq<char>>::empty());
    while i < list.len()
        invariant
            i <= list.len(),
            all == strings_view(list@),
            pred == (|n: Seq<char>| n != name@),
            strings_view(kept@) == all.take(i as int).filter(pred),
        decreases list.len() - i,
    {
        reveal_with_fuel(Seq::<_>::filter, 1);
        assert(all.take(i + 1).drop_last() =~= all.take(i as int));
        assert(all.take(i + 1).last() == all[i as int]);
        if !same_text(list[i].as_str(), name) {
            let ghost before = kept@;
            kept.push(list[i].clone());
            assert(strings_view(kept@) =~= strings_view(before).push(all[i as int]));
        }
        i = i + 1;
    }
    assert(all.take(i as int) =~= all);
    kept
}

/// After removing a package, no list of the database refers to it.
pub proof fn lemma_removed_everywhere(db: LeverDBModel, name: Seq<char>)
    ensures
        !is_tracked(without_package(db, name).entries, name),
        !without_package(db, name).installed.contains(name),
        !without_package(db, name).compiled.contains(name),
{
    lemma_untrack(db.entries, name, name);
    let pred = |n: Seq<char>| n != name;
    db.installed.filter_lemma(pred);
    db.compiled.filter_lemma(pred);
    let a = without_package(db, name).installed;
    if a.contains(name) {
        let k = choose|k: int| 0 <= k < a.len() && a[k] == name;
        assert(pred(a[k]));
    }
    let b = without_package(db, name).compiled;
    if b.contains(name) {
        let k = choose|k: int| 0 <= k < b.len() && b[k] == name;
        assert(pred(b[k]));
    }
}

/// Filtering out nothing leaves the sequence as it was.
proof fn lemma_filter_keeps_all<A>(s: Seq<A>, pred: spec_fn(A) -> bool)
    requires
        forall|j: int| 0 <= j < s.len() ==> pred(#[trigger] s[j]),
    ensures
        s.filter(pred) == s,
    decreases s.len(),
{
    reveal_with_fuel(Seq::<_>::filter, 1);
    if s.len() > 0 {
        let init = s.drop_last();
        assert forall|j: int| 0 <= j < init.len() implies pred(#[trigger] init[j]) by {
            assert(init[j] == s[j]);
        }
        lemma_filter_keeps_all(init, pred);
        assert(pred(s[s.len() - 1]));
        assert(init.push(s.last()) =~= s);
    }
}

// ---------------------------------------------------------------------------
// Laws
// ---------------------------------------------------------------------------

/// Once a package is tracked (and none of its name was before), looking
/// it up finds the recorded location; other names are found as before.
pub proof fn lemma_track_then_locate(
    entries: Seq<(Seq<char>, Seq<char>)>,
    name: Seq<char>,
    location: Seq<char>,
    other: Seq<char>,
)
    requires
        !is_tracked(entries, name),
    ensures
        location_of(entries.push((name, location)), name) == Some(location),
        other != name ==> location_of(entries.push((name, location)), other) == location_of(
            entries,
            other,
        ),
        is_tracked(entries.push((name, location)), name),
{
    lemma_location_iff_tracked(entries, name);
    lemma_location_append(entries, (name, location), name);
    lemma_location_append(entries, (name, location), other);
    let pushed = entries.push((name, location));
    assert(pushed[entries.len() as int] == (name, location));
}

/// Untracking a package leaves no entry of its name, and every other
/// package is found where it was.
pub proof fn lemma_untrack(entries: Seq<(Seq<char>, Seq<char>)>, name: Seq<char>, other: Seq<char>)
    ensures
        !is_tracked(entries.filter(|e: (Seq<char>, Seq<char>)| e.0 != name), name),
        other != name ==> location_of(
            entries.filter(|e: (Seq<char>, Seq<char>)| e.0 != name),
            other,
        ) == location_of(entries, other),
    decreases entries.len(),
{
    let pred = |e: (Seq<char>, Seq<char>)| e.0 != name;
    let kept = entries.filter(pred);
    reveal_with_fuel(Seq::<_>::filter, 1);
    if entries.len() == 0 {
        assert(kept =~= Seq::<(Seq<char>, Seq<char>)>::empty());
    } else {
        let init = entries.drop_last();
        let last = entries.last();
        assert(init.push(last) =~= entries);
        lemma_untrack(init, name, other);
        let kept_init = init.filter(pred);
        lemma_location_append(init, last, other);
        if pred(last) {
            assert(kept == kept_init.push(last));
            lemma_location_append(kept_init, last, other);
            assert(!is_tracked(kept, name)) by {
                if is_tracked(kept, name) {
                    let i = choose|i: int| 0 <= i < kept.len() && (#[trigger] kept[i]).0 == name;
                    if i < kept_init.len() {
                        assert(kept_init[i] == kept[i]);
                    }
                }
            }
        } else {
            assert(kept == kept_init);
            if other != name {
                assert(last.0 != other);
            }
        }
    }
}

/// Looking a name up in a list with one more entry at the end.
proof fn lemma_location_append(
    entries: Seq<(Seq<char>, Seq<char>)>,
    e: (Seq<char>, Seq<char>),
    name: Seq<char>,
)
    ensures
        location_of(entries.push(e), name) == (match location_of(entries, name) {
            Some(l) => Some(l),
            None => if e.0 == name {
                Some(e.1)
            } else {
                None
            },
        }),
    decreases entries.len(),
{
    let pushed = entries.push(e);
    if entries.len() == 0 {
        assert(pushed.drop_first() =~= Seq::<(Seq<char>, Seq<char>)>::empty());
        assert(location_of(Seq::<(Seq<char>, Seq<char>)>::empty(), name) is None);
        assert(pushed[0] == e);
    } else {
        lemma_location_append(entries.drop_first(), e, name);
        assert(pushed.drop_first() =~= entries.drop_first().push(e));
        assert(pushed[0] == entries[0]);
    }
}

} // verus!
