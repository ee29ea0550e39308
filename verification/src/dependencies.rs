//! Dependency trees of tracked packages, built from the leverfiles read so
//! far.
use vstd::prelude::*;

use crate::database::{
    DatabaseError, DatabaseErrorModel, LeverDB, LeverDBModel, is_tracked,
    lemma_location_iff_tracked, location_of,
};
use crate::leverfile::{LeverFile, LeverFileModel};
use crate::text::strings_view;
use crate::tree::{
    PackageTree, PackageTreeNode, flat, flat_all, lemma_flat_all_block, tree_view, trees_view,
};

verus! {

// ---------------------------------------------------------------------------
// Leverfiles read so far, and dependency trees
// ---------------------------------------------------------------------------

/// The leverfiles read so far, by location: each one read, or the message
/// of the failure to read it. The first entry for a location counts.
pub struct LeverFileCatalog {
    files: Vec<(String, Result<LeverFile, String>)>,
}

/// What reading the leverfile at a location gave.
pub enum CatalogEntry {
    Read(LeverFileModel),
    Failed(Seq<char>),
}

/// The model of one catalog entry.
pub open spec fn catalog_entry(r: Result<LeverFile, String>) -> CatalogEntry {
    match r {
        Ok(lf) => CatalogEntry::Read(lf@),
        Err(m) => CatalogEntry::Failed(m@),
    }
}

impl View for LeverFileCatalog {
    type V = Seq<(Seq<char>, CatalogEntry)>;

    closed spec fn view(&self) -> Seq<(Seq<char>, CatalogEntry)> {
        self.files@.map_values(
            |f: (String, Result<LeverFile, String>)| (f.0@, catalog_entry(f.1)),
        )
    }
}

/// What the catalog holds for `location`: its first entry there.
pub open spec fn catalog_lookup(cat: Seq<(Seq<char>, CatalogEntry)>, location: Seq<char>) -> Option<
    CatalogEntry,
>
    decreases cat.len(),
{
    if cat.len() == 0 {
        None
    } else if cat[0].0 == location {
        Some(cat[0].1)
    } else {
        catalog_lookup(cat.drop_first(), location)
    }
}

impl LeverFileCatalog {
    /// A catalog with nothing read yet.
    pub fn new() -> (c: LeverFileCatalog)
        ensures
            c@ == Seq::<(Seq<char>, CatalogEntry)>::empty(),
    {
        let c = LeverFileCatalog { files: Vec::new() };
        assert(c@ =~= Seq::<(Seq<char>, CatalogEntry)>::empty());
        c
    }

    /// Records what reading the leverfile at `location` gave.
    pub fn insert(&mut self, location: String, read: Result<LeverFile, String>)
        ensures
            final(self)@ == old(self)@.push((location@, catalog_entry(read))),
    {
        let ghost entry = (location@, catalog_entry(read));
        self.files.push((location, read));
        assert(self@ =~= old(self)@.push(entry));
    }

    /// What the catalog holds for `location`.
    fn lookup(&self, location: &str) -> (r: Option<&Result<LeverFile, String>>)
        ensures
            match r {
                Some(read) => catalog_lookup(self@, location@) == Some(catalog_entry(*read)),
                None => catalog_lookup(self@, location@) is None,
            },
    {
        let mut i: usize = 0;
        while i < self.files.len()
            invariant
                i <= self.files.len(),
                forall|j: int| 0 <= j < i ==> (#[trigger] self@[j]).0 != location@,
            decreases self.files.len() - i,
        {
            if crate::text::same_text(self.files[i].0.as_str(), location) {
                proof {
                    lemma_catalog_lookup(self@, location@, i as int);
                }
                return Some(&self.files[i].1);
            }
            assert(self@[i as int].0 != location@);
            i = i + 1;
        }
        proof {
            lemma_catalog_lookup(self@, location@, i as int);
        }
        None
    }
}

/// `catalog_lookup` gives the first entry for the location.
proof fn lemma_catalog_lookup(cat: Seq<(Seq<char>, CatalogEntry)>, location: Seq<char>, k: int)
    requires
        0 <= k <= cat.len(),
        forall|j: int| 0 <= j < k ==> (#[trigger] cat[j]).0 != location,
        k < cat.len() ==> cat[k].0 == location,
    ensures
        catalog_lookup(cat, location) == (if k < cat.len() {
            Some(cat[k].1)
        } else {
            None::<CatalogEntry>
        }),
    decreases k,
{
    if cat.len() == 0 {
    } else if k == 0 {
    } else {
        let t = cat.drop_first();
        assert forall|j: int| 0 <= j < k - 1 implies (#[trigger] t[j]).0 != location by {
            assert(t[j] == cat[j + 1]);
        }
        assert(cat[0].0 != location);
        lemma_catalog_lookup(t, location, k - 1);
    }
}

/// The leverfile of the package called `name`: refused when no tracked
/// package has that name, when its leverfile has not been read yet, and when
/// reading it failed.
pub open spec fn leverfile_for(
    db: LeverDBModel,
    cat: Seq<(Seq<char>, CatalogEntry)>,
    name: Seq<char>,
) -> Result<LeverFileModel, DatabaseErrorModel> {
    match location_of(db.entries, name) {
        None => Err(DatabaseErrorModel::UnknownPackage(name)),
        Some(location) => match catalog_lookup(cat, location) {
            None => Err(DatabaseErrorModel::NotLoaded(location)),
            Some(CatalogEntry::Failed(message)) => Err(DatabaseErrorModel::LoadFailed(message)),
            Some(CatalogEntry::Read(lf)) => Ok(lf),
        },
    }
}

/// The dependency tree of `name`: the package, then the trees of its
/// leverfile's dependencies in order; the first failure met, in that order,
/// stops the building. `depth` bounds how many packages deep it goes: past
/// it, the dependencies must have led back to a package already on the way.
pub open spec fn build_tree(
    db: LeverDBModel,
    cat: Seq<(Seq<char>, CatalogEntry)>,
    name: Seq<char>,
    depth: nat,
) -> Result<PackageTree, DatabaseErrorModel>
    decreases depth, 0nat,
{
    match leverfile_for(db, cat, name) {
        Err(e) => Err(e),
        Ok(lf) => if depth == 0 {
            Err(DatabaseErrorModel::DependencyCycle(name))
        } else {
            match build_forest(db, cat, lf.dependencies, (depth - 1) as nat) {
                Ok(children) => Ok(PackageTree { name, dependencies: children }),
                Err(e) => Err(e),
            }
        },
    }
}

/// The dependency trees of `names`, in order, or the first failure.
pub open spec fn build_forest(
    db: LeverDBModel,
    cat: Seq<(Seq<char>, CatalogEntry)>,
    names: Seq<Seq<char>>,
    depth: nat,
) -> Result<Seq<PackageTree>, DatabaseErrorModel>
    decreases depth, names.len() + 1,
{
    if names.len() == 0 {
        Ok(Seq::empty())
    } else {
        match build_forest(db, cat, names.drop_last(), depth) {
            Err(e) => Err(e),
            Ok(front) => match build_tree(db, cat, names.last(), depth) {
                Ok(t) => Ok(front.push(t)),
                Err(e) => Err(e),
            },
        }
    }
}

/// The model of a tree result.
pub open spec fn tree_result(r: Result<PackageTreeNode, DatabaseError>) -> Result<
    PackageTree,
    DatabaseErrorModel,
> {
    match r {
        Ok(t) => Ok(tree_view(t)),
        Err(e) => Err(e@),
    }
}

impl LeverDB {
    /// The leverfile of the package called `name`, from the leverfiles read
    /// so far.
    pub fn get_package_leverfile<'a>(&self, name: &str, catalog: &'a LeverFileCatalog) -> (r:
        Result<&'a LeverFile, DatabaseError>)
        ensures
            match r {
                Ok(lf) => leverfile_for(self@, catalog@, name@) == Ok::<
                    LeverFileModel,
                    DatabaseErrorModel,
                >(lf@),
                Err(e) => leverfile_for(self@, catalog@, name@) == Err::<
                    LeverFileModel,
                    DatabaseErrorModel,
                >(e@),
            },
    {
        let location = match self.leverfile_location(name) {
            Ok(l) => l,
            Err(e) => {
                return Err(e);
            },
        };
        match catalog.lookup(location.as_str()) {
            None => Err(DatabaseError::NotLoaded(location)),
            Some(Err(message)) => Err(DatabaseError::LoadFailed(message.clone())),
            Some(Ok(lf)) => Ok(lf),
        }
    }

    /// The dependency tree of `name`, from the leverfiles read so far. When
    /// it needs a leverfile that has not been read, it says which
    /// (`NotLoaded`); read it into the catalog and ask again.
    pub fn generate_package_dependency_tree(&self, name: &str, catalog: &LeverFileCatalog) -> (r:
        Result<PackageTreeNode, DatabaseError>)
        ensures
            tree_result(r) == build_tree(self@, catalog@, name@, self@.entries.len()),
    {
        self.build_node(name, catalog, self.tracked_packages.len())
    }

    fn build_node(&self, name: &str, catalog: &LeverFileCatalog, depth: usize) -> (r: Result<
        PackageTreeNode,
        DatabaseError,
    >)
        ensures
            tree_result(r) == build_tree(self@, catalog@, name@, depth as nat),
        decreases depth, 0nat,
    {
        let lf = match self.get_package_leverfile(name, catalog) {
            Ok(lf) => lf,
            Err(e) => {
                return Err(e);
            },
        };
        if depth == 0 {
            return Err(DatabaseError::DependencyCycle(name.to_owned()));
        }
        let deps = lf.dependencies();
        match self.build_children(&deps, catalog, depth - 1) {
            Ok(children) => {
                let node = PackageTreeNode { dependencies: children, name: name.to_owned() };
                Ok(node)
            },
            Err(e) => Err(e),
        }
    }

    fn build_children(&self, names: &Vec<String>, catalog: &LeverFileCatalog, depth: usize) -> (r:
        Result<Vec<PackageTreeNode>, DatabaseError>)
        ensures
            match r {
                Ok(v) => build_forest(self@, catalog@, strings_view(names@), depth as nat) == Ok::<
                    Seq<PackageTree>,
                    DatabaseErrorModel,
                >(trees_view(v@)),
                Err(e) => build_forest(self@, catalog@, strings_view(names@), depth as nat)
                    == Err::<Seq<PackageTree>, DatabaseErrorModel>(e@),
            },
        decreases depth, 1nat,
    {
        let ghost all = strings_view(names@);
        let mut done: Vec<PackageTreeNode> = Vec::new();
        let mut i: usize = 0;
        assert(all.take(0) =~= Seq::<Seq<char>>::empty());
        assert(trees_view(done@) =~= Seq::<PackageTree>::empty());
        while i < names.len()
            invariant
                i <= names.len(),
                all == strings_view(names@),
                build_forest(self@, catalog@, all.take(i as int), depth as nat) == Ok::<
                    Seq<PackageTree>,
                    DatabaseErrorModel,
                >(trees_view(done@)),
            decreases names.len() - i,
        {
            assert(all.take(i + 1).drop_last() =~= all.take(i as int));
            assert(all.take(i + 1).last() == names@[i as int]@);
            match self.build_node(names[i].as_str(), catalog, depth) {
                Ok(node) => {
                    let ghost before = done@;
                    done.push(node);
                    assert(done@.subrange(0, done@.len() - 1) =~= before);
                },
                Err(e) => {
                    proof {
                        lemma_forest_stops(self@, catalog@, all, (i + 1) as int, depth as nat);
                    }
                    return Err(e);
                },
            }
            i = i + 1;
        }
        assert(all.take(i as int) =~= all);
        Ok(done)
    }
}

/// Once a dependency fails, the later ones change nothing.
proof fn lemma_forest_stops(
    db: LeverDBModel,
    cat: Seq<(Seq<char>, CatalogEntry)>,
    names: Seq<Seq<char>>,
    k: int,
    depth: nat,
)
    requires
        1 <= k <= names.len(),
        build_forest(db, cat, names.take(k), depth) is Err,
    ensures
        build_forest(db, cat, names, depth) == build_forest(db, cat, names.take(k), depth),
    decreases names.len() - k,
{
    if k < names.len() {
        assert(names.take(k + 1).drop_last() =~= names.take(k));
        lemma_forest_stops(db, cat, names, k + 1, depth);
    } else {
        assert(names.take(k) =~= names);
    }
}

// ---------------------------------------------------------------------------
// Laws
// ---------------------------------------------------------------------------

/// Every package in a built dependency tree is tracked, and each package's
/// children are the dependencies its leverfile names, in order.
pub proof fn lemma_built_tree(
    db: LeverDBModel,
    cat: Seq<(Seq<char>, CatalogEntry)>,
    name: Seq<char>,
    depth: nat,
)
    ensures
        build_tree(db, cat, name, depth) matches Ok(t) ==> {
            &&& t.name == name
            &&& leverfile_for(db, cat, name) matches Ok(lf)
            &&& t.dependencies.len() == lf.dependencies.len()
            &&& forall|i: int|
                0 <= i < t.dependencies.len() ==> (#[trigger] t.dependencies[i]).name
                    == lf.dependencies[i]
            &&& forall|i: int|
                0 <= i < t.dependencies.len() ==> build_tree(db, cat, lf.dependencies[i], (depth - 1) as nat)
                    == Ok::<PackageTree, DatabaseErrorModel>(#[trigger] t.dependencies[i])
            &&& forall|i: int| 0 <= i < flat(t).len() ==> is_tracked(db.entries, #[trigger] flat(t)[i])
        },
    decreases depth, 0nat,
{
    if let Ok(t) = build_tree(db, cat, name, depth) {
        let lf = leverfile_for(db, cat, name)->Ok_0;
        lemma_location_iff_tracked(db.entries, name);
        lemma_built_forest(db, cat, lf.dependencies, (depth - 1) as nat);
        assert forall|i: int| 0 <= i < flat(t).len() implies is_tracked(
            db.entries,
            #[trigger] flat(t)[i],
        ) by {
            if i == flat(t).len() - 1 {
                assert(flat(t)[i] == name);
            } else {
                assert(flat(t)[i] == flat_all(t.dependencies)[i]);
            }
        }
    }
}

/// Every package in built dependency trees is tracked, and the trees are
/// those of the names given, in order.
pub proof fn lemma_built_forest(
    db: LeverDBModel,
    cat: Seq<(Seq<char>, CatalogEntry)>,
    names: Seq<Seq<char>>,
    depth: nat,
)
    ensures
        build_forest(db, cat, names, depth) matches Ok(ts) ==> {
            &&& ts.len() == names.len()
            &&& forall|i: int| 0 <= i < ts.len() ==> (#[trigger] ts[i]).name == names[i]
            &&& forall|i: int|
                0 <= i < ts.len() ==> build_tree(db, cat, names[i], depth) == Ok::<
                    PackageTree,
                    DatabaseErrorModel,
                >(#[trigger] ts[i])
            &&& forall|i: int|
                0 <= i < flat_all(ts).len() ==> is_tracked(db.entries, #[trigger] flat_all(ts)[i])
        },
    decreases depth, names.len() + 1,
{
    if let Ok(ts) = build_forest(db, cat, names, depth) {
        if names.len() > 0 {
            let init = names.drop_last();
            lemma_built_forest(db, cat, init, depth);
            lemma_built_tree(db, cat, names.last(), depth);
            let front = build_forest(db, cat, init, depth)->Ok_0;
            let t = build_tree(db, cat, names.last(), depth)->Ok_0;
            assert(ts == front.push(t));
            assert(ts.subrange(0, ts.len() - 1) =~= front);
            assert forall|i: int| 0 <= i < ts.len() implies (#[trigger] ts[i]).name == names[i]
                && build_tree(db, cat, names[i], depth) == Ok::<PackageTree, DatabaseErrorModel>(
                ts[i],
            ) by {
                if i < front.len() {
                    assert(ts[i] == front[i]);
                    assert(init[i] == names[i]);
                }
            }
            assert forall|i: int| 0 <= i < flat_all(ts).len() implies is_tracked(
                db.entries,
                #[trigger] flat_all(ts)[i],
            ) by {
                if i < flat_all(front).len() {
                    assert(flat_all(ts)[i] == flat_all(front)[i]);
                } else {
                    assert(flat_all(ts)[i] == flat(t)[i - flat_all(front).len()]);
                }
            }
        } else {
            assert(ts =~= Seq::<PackageTree>::empty());
        }
    }
}

/// A tree that is refused for want of a leverfile names one that the
/// catalog does not hold and that a tracked package records, so reading it
/// into the catalog makes progress.
pub proof fn lemma_missing_leverfile_is_new(
    db: LeverDBModel,
    cat: Seq<(Seq<char>, CatalogEntry)>,
    name: Seq<char>,
    depth: nat,
)
    ensures
        build_tree(db, cat, name, depth) matches Err(DatabaseErrorModel::NotLoaded(location))
            ==> catalog_lookup(cat, location) is None && exists|n: Seq<char>|
            #[trigger] location_of(db.entries, n) == Some(location),
    decreases depth, 0nat,
{
    if let Err(DatabaseErrorModel::NotLoaded(location)) = build_tree(db, cat, name, depth) {
        match leverfile_for(db, cat, name) {
            Err(e) => {
                assert(location_of(db.entries, name) == Some(location));
            },
            Ok(lf) => {
                lemma_missing_leverfile_in_forest(db, cat, lf.dependencies, (depth - 1) as nat);
            },
        }
    }
}

/// The same for the trees of a list of names.
pub proof fn lemma_missing_leverfile_in_forest(
    db: LeverDBModel,
    cat: Seq<(Seq<char>, CatalogEntry)>,
    names: Seq<Seq<char>>,
    depth: nat,
)
    ensures
        build_forest(db, cat, names, depth) matches Err(DatabaseErrorModel::NotLoaded(location))
            ==> catalog_lookup(cat, location) is None && exists|n: Seq<char>|
            #[trigger] location_of(db.entries, n) == Some(location),
    decreases depth, names.len() + 1,
{
    if names.len() > 0 {
        lemma_missing_leverfile_in_forest(db, cat, names.drop_last(), depth);
        lemma_missing_leverfile_is_new(db, cat, names.last(), depth);
    }
}

/// Each package of `path` has a leverfile, and names the next one among its
/// dependencies.
pub open spec fn dependency_chain(
    db: LeverDBModel,
    cat: Seq<(Seq<char>, CatalogEntry)>,
    path: Seq<Seq<char>>,
) -> bool {
    &&& forall|i: int| 0 <= i < path.len() ==> (#[trigger] leverfile_for(db, cat, path[i])) is Ok
    &&& forall|i: int|
        0 <= i < path.len() - 1 ==> (#[trigger] leverfile_for(db, cat, path[i]))->Ok_0.dependencies.contains(
            path[i + 1],
        )
}

/// A refusal for a dependency cycle at depth `depth` comes with a chain of
/// `depth + 1` packages from `name`, each a dependency of the one before.
proof fn lemma_cycle_chain(
    db: LeverDBModel,
    cat: Seq<(Seq<char>, CatalogEntry)>,
    name: Seq<char>,
    depth: nat,
) -> (path: Seq<Seq<char>>)
    requires
        build_tree(db, cat, name, depth) matches Err(DatabaseErrorModel::DependencyCycle(_)),
    ensures
        path.len() == depth + 1,
        path[0] == name,
        dependency_chain(db, cat, path),
    decreases depth,
{
    let lf = leverfile_for(db, cat, name)->Ok_0;
    if depth == 0 {
        let path = seq![name];
        assert(path[0] == name);
        path
    } else {
        let i = lemma_cycle_in_forest(db, cat, lf.dependencies, (depth - 1) as nat);
        let next = lf.dependencies[i];
        let rest = lemma_cycle_chain(db, cat, next, (depth - 1) as nat);
        let path = seq![name] + rest;
        assert forall|j: int| 0 <= j < path.len() implies (#[trigger] leverfile_for(
            db,
            cat,
            path[j],
        )) is Ok by {
            if j > 0 {
                assert(path[j] == rest[j - 1]);
            }
        }
        assert forall|j: int| 0 <= j < path.len() - 1 implies (#[trigger] leverfile_for(
            db,
            cat,
            path[j],
        ))->Ok_0.dependencies.contains(path[j + 1]) by {
            if j > 0 {
                assert(path[j] == rest[j - 1]);
                assert(path[j + 1] == rest[j]);
                assert(leverfile_for(db, cat, rest[j - 1])->Ok_0.dependencies.contains(rest[j]));
            } else {
                assert(path[1] == next);
                assert(lf.dependencies[i] == next);
            }
        }
        path
    }
}

/// A list of trees refused for a cycle has a member refused for it.
proof fn lemma_cycle_in_forest(
    db: LeverDBModel,
    cat: Seq<(Seq<char>, CatalogEntry)>,
    names: Seq<Seq<char>>,
    depth: nat,
) -> (i: int)
    requires
        build_forest(db, cat, names, depth) matches Err(DatabaseErrorModel::DependencyCycle(_)),
    ensures
        0 <= i < names.len(),
        build_tree(db, cat, names[i], depth) matches Err(DatabaseErrorModel::DependencyCycle(_)),
    decreases names.len(),
{
    let init = names.drop_last();
    if build_forest(db, cat, init, depth) is Err {
        let i = lemma_cycle_in_forest(db, cat, init, depth);
        assert(init[i] == names[i]);
        i
    } else {
        (names.len() - 1) as int
    }
}

/// The refusal for a dependency cycle is only given when the dependencies
/// really lead back: some chain of packages from the one asked for, each a
/// dependency of the one before, visits a package twice. So the depth bound
/// refuses no tree whose dependencies never lead back.
pub proof fn lemma_cycle_is_real(db: LeverDBModel, cat: Seq<(Seq<char>, CatalogEntry)>, name: Seq<char>)
    ensures
        build_tree(db, cat, name, db.entries.len()) matches Err(DatabaseErrorModel::DependencyCycle(_))
            ==> exists|path: Seq<Seq<char>>|
            #[trigger] dependency_chain(db, cat, path) && path.len() > 0 && path[0] == name
                && !path.no_duplicates(),
{
    if build_tree(db, cat, name, db.entries.len()) matches Err(
        DatabaseErrorModel::DependencyCycle(_),
    ) {
        let path = lemma_cycle_chain(db, cat, name, db.entries.len());
        let names = db.entries.map_values(|e: (Seq<char>, Seq<char>)| e.0);
        assert(path.to_set().subset_of(names.to_set())) by {
            assert forall|x: Seq<char>| path.to_set().contains(x) implies names.to_set().contains(
                x,
            ) by {
                let j = choose|j: int| 0 <= j < path.len() && path[j] == x;
                assert(leverfile_for(db, cat, path[j]) is Ok);
                lemma_location_iff_tracked(db.entries, x);
                let k = choose|k: int| 0 <= k < db.entries.len() && (#[trigger] db.entries[k]).0 == x;
                assert(names[k] == x);
            }
        }
        if path.no_duplicates() {
            path.unique_seq_to_set();
            names.lemma_cardinality_of_set();
            vstd::set_lib::lemma_len_subset(path.to_set(), names.to_set());
            assert(false);
        }
    }
}

/// A built dependency tree holds every package its dependencies reach: each
/// package of a chain from the one asked for, each a dependency of the one
/// before, stands in the tree's install order.
pub proof fn lemma_tree_holds_reachable(
    db: LeverDBModel,
    cat: Seq<(Seq<char>, CatalogEntry)>,
    name: Seq<char>,
    depth: nat,
    path: Seq<Seq<char>>,
)
    requires
        dependency_chain(db, cat, path),
        path.len() > 0,
        path[0] == name,
    ensures
        build_tree(db, cat, name, depth) matches Ok(t) ==> forall|j: int|
            0 <= j < path.len() ==> flat(t).contains(#[trigger] path[j]),
    decreases path.len(),
{
    if let Ok(t) = build_tree(db, cat, name, depth) {
        lemma_built_tree(db, cat, name, depth);
        let lf = leverfile_for(db, cat, name)->Ok_0;
        let whole = flat(t);
        assert(whole.last() == name);
        assert(whole[whole.len() - 1] == name);
        if path.len() > 1 {
            let rest = path.drop_first();
            assert(leverfile_for(db, cat, path[0])->Ok_0.dependencies.contains(path[1]));
            let idx = choose|idx: int| 0 <= idx < lf.dependencies.len() && lf.dependencies[idx] == path[1];
            let c = t.dependencies[idx];
            assert(build_tree(db, cat, path[1], (depth - 1) as nat) == Ok::<
                PackageTree,
                DatabaseErrorModel,
            >(c));
            assert forall|i: int| 0 <= i < rest.len() implies (#[trigger] leverfile_for(
                db,
                cat,
                rest[i],
            )) is Ok by {
                assert(rest[i] == path[i + 1]);
            }
            assert forall|i: int| 0 <= i < rest.len() - 1 implies (#[trigger] leverfile_for(
                db,
                cat,
                rest[i],
            ))->Ok_0.dependencies.contains(rest[i + 1]) by {
                assert(rest[i] == path[i + 1]);
                assert(rest[i + 1] == path[i + 2]);
                assert(leverfile_for(db, cat, path[i + 1])->Ok_0.dependencies.contains(path[i + 2]));
            }
            lemma_tree_holds_reachable(db, cat, path[1], (depth - 1) as nat, rest);
            let off = lemma_flat_all_block(t.dependencies, idx);
            let fc = flat(c);
            let deps = flat_all(t.dependencies);
            assert forall|j: int| 0 <= j < path.len() implies whole.contains(#[trigger] path[j]) by {
                if j == 0 {
                    assert(whole[whole.len() - 1] == path[0]);
                } else {
                    assert(rest[j - 1] == path[j]);
                    assert(fc.contains(rest[j - 1]));
                    let m = choose|m: int| 0 <= m < fc.len() && fc[m] == path[j];
                    assert(deps.subrange(off, off + fc.len())[m] == fc[m]);
                    assert(whole[off + m] == deps[off + m]);
                }
            }
        } else {
            assert forall|j: int| 0 <= j < path.len() implies whole.contains(#[trigger] path[j]) by {
                assert(whole[whole.len() - 1] == path[0]);
            }
        }
    }
}

} // verus!
