//! Dependency trees: a package with the trees of the packages it depends on,
//! their install order and their drawing.
use vstd::prelude::*;

use crate::text::{chars_of, opt_str_view, push_char, same_text, strings_view};

verus! {

/// A package and, in order, the dependency trees of the packages it needs.
#[derive(Debug)]
pub struct PackageTreeNode {
    pub dependencies: Vec<PackageTreeNode>,
    pub name: String,
}

/// A dependency tree with its names as character sequences.
pub struct PackageTree {
    pub name: Seq<char>,
    pub dependencies: Seq<PackageTree>,
}

/// The model of a tree node.
pub open spec fn tree_view(t: PackageTreeNode) -> PackageTree
    decreases t,
{
    PackageTree { name: t.name@, dependencies: trees_view(t.dependencies@) }
}

/// The models of a list of tree nodes.
pub open spec fn trees_view(ts: Seq<PackageTreeNode>) -> Seq<PackageTree>
    decreases ts,
{
    if ts.len() == 0 {
        Seq::empty()
    } else {
        trees_view(ts.subrange(0, ts.len() - 1)).push(tree_view(ts[ts.len() - 1]))
    }
}

/// The names of a tree in install order: each dependency's names, in order,
/// then the package itself.
pub open spec fn flat(t: PackageTree) -> Seq<Seq<char>>
    decreases t,
{
    flat_all(t.dependencies) + seq![t.name]
}

/// The install orders of a list of trees, one after another.
pub open spec fn flat_all(ts: Seq<PackageTree>) -> Seq<Seq<char>>
    decreases ts,
{
    if ts.len() == 0 {
        Seq::empty()
    } else {
        flat_all(ts.subrange(0, ts.len() - 1)) + flat(ts[ts.len() - 1])
    }
}

/// The escape sequence that turns the highlight colour on.
pub open spec fn highlight_on() -> Seq<char> {
    seq!['\u{1b}', '[', '3', '2', 'm']
}

/// The escape sequence that sets the default colour again.
pub open spec fn colour_reset() -> Seq<char> {
    seq!['\u{1b}', '[', '3', '9', 'm']
}

/// The line drawn for one package: its indent, the highlight colour when it
/// is the highlighted package, its name, and the colour reset.
pub open spec fn node_line(indent: Seq<char>, name: Seq<char>, highlight: Option<Seq<char>>) -> Seq<
    char,
> {
    indent + (if highlight == Some(name) {
        highlight_on()
    } else {
        Seq::empty()
    }) + name + colour_reset()
}

/// How a character of a parent's indent carries over to its children's:
/// branch ends become blanks and forks become lines going on down.
pub open spec fn carry_indent(c: char) -> char {
    if c == '└' || c == '─' {
        ' '
    } else if c == '├' {
        '│'
    } else {
        c
    }
}

/// The indent of a child: the carried parent indent, then a fork, or a
/// corner for the last child, and a dash.
pub open spec fn child_indent(indent: Seq<char>, last: bool) -> Seq<char> {
    indent.map_values(|c: char| carry_indent(c)) + seq![if last { '└' } else { '├' }, '─']
}

/// The lines drawn for a tree: its own line, then each dependency's drawing.
pub open spec fn render(t: PackageTree, indent: Seq<char>, highlight: Option<Seq<char>>) -> Seq<
    Seq<char>,
>
    decreases t, 0nat,
{
    seq![node_line(indent, t.name, highlight)] + render_all(
        t.dependencies,
        indent,
        highlight,
        t.dependencies.len(),
    )
}

/// The drawings of the first `n` of a package's dependencies.
pub open spec fn render_all(
    ts: Seq<PackageTree>,
    indent: Seq<char>,
    highlight: Option<Seq<char>>,
    n: nat,
) -> Seq<Seq<char>>
    decreases ts, n,
{
    if n == 0 || n > ts.len() {
        Seq::empty()
    } else {
        render_all(ts, indent, highlight, (n - 1) as nat) + render(
            ts[n - 1],
            child_indent(indent, n == ts.len()),
            highlight,
        )
    }
}

proof fn lemma_trees_view_len(ts: Seq<PackageTreeNode>)
    ensures
        trees_view(ts).len() == ts.len(),
        forall|i: int| 0 <= i < ts.len() ==> #[trigger] trees_view(ts)[i] == tree_view(ts[i]),
    decreases ts.len(),
{
    if ts.len() > 0 {
        let init = ts.subrange(0, ts.len() - 1);
        lemma_trees_view_len(init);
        assert forall|i: int| 0 <= i < ts.len() implies #[trigger] trees_view(ts)[i] == tree_view(
            ts[i],
        ) by {
            if i < ts.len() - 1 {
                assert(init[i] == ts[i]);
            }
        }
    }
}

/// A parent's indent as its children carry it on.
fn carried_indent(indent: &str) -> (r: String)
    ensures
        r@ == indent@.map_values(|c: char| carry_indent(c)),
{
    let cs = chars_of(indent);
    let mut r = String::new();
    let mut i: usize = 0;
    while i < cs.len()
        invariant
            i <= cs.len(),
            cs@ == indent@,
            r@ == cs@.take(i as int).map_values(|c: char| carry_indent(c)),
        decreases cs.len() - i,
    {
        let c = cs[i];
        let d = if c == '└' || c == '─' {
            ' '
        } else if c == '├' {
            '│'
        } else {
            c
        };
        push_char(&mut r, d);
        assert(cs@.take(i + 1).map_values(|c: char| carry_indent(c)) =~= cs@.take(
            i as int,
        ).map_values(|c: char| carry_indent(c)).push(carry_indent(c)));
        i = i + 1;
    }
    assert(cs@.take(cs.len() as int) =~= cs@);
    r
}

impl PackageTreeNode {
    /// The tree's names in install order: every dependency before the
    /// package that needs it, the package itself last.
    pub fn flatten(&self) -> (r: Vec<String>)
        ensures
            strings_view(r@) == flat(tree_view(*self)),
        decreases *self,
    {
        let mut result: Vec<String> = Vec::new();
        let ghost deps = trees_view(self.dependencies@);
        proof {
            lemma_trees_view_len(self.dependencies@);
        }
        let mut i: usize = 0;
        while i < self.dependencies.len()
            invariant
                i <= self.dependencies.len(),
                deps == trees_view(self.dependencies@),
                deps.len() == self.dependencies@.len(),
                forall|j: int| 0 <= j < deps.len() ==> #[trigger] deps[j] == tree_view(self.dependencies@[j]),
                strings_view(result@) == flat_all(deps.subrange(0, i as int)),
            decreases self.dependencies.len() - i,
        {
            proof {
                assert(decreases_to!(*self => self.dependencies@[i as int]));
            }
            let mut sub = self.dependencies[i].flatten();
            let ghost before = result@;
            result.append(&mut sub);
            proof {
                assert(deps.subrange(0, i + 1).subrange(0, i as int) =~= deps.subrange(0, i as int));
                assert(deps.subrange(0, i + 1)[i as int] == deps[i as int]);
                assert(strings_view(result@) =~= strings_view(before) + flat(deps[i as int]));
            }
            i = i + 1;
        }
        assert(deps.subrange(0, deps.len() as int) =~= deps);
        let ghost before = result@;
        result.push(self.name.clone());
        assert(strings_view(result@) =~= strings_view(before) + seq![self.name@]);
        result
    }

    /// A tree that gathers the trees of the packages selected for
    /// installing under one root named `Selected Packages`.
    pub fn selection(trees: Vec<PackageTreeNode>) -> (t: PackageTreeNode)
        ensures
            t.name@ == "Selected Packages"@,
            t.dependencies@ == trees@,
    {
        PackageTreeNode { dependencies: trees, name: "Selected Packages".to_owned() }
    }

    /// The install order without the root package: what installing the
    /// packages under the root does, dependencies first.
    pub fn install_order(&self) -> (r: Vec<String>)
        ensures
            strings_view(r@) == flat(tree_view(*self)).drop_last(),
    {
        let mut all = self.flatten();
        let ghost before = all@;
        all.pop();
        assert(strings_view(all@) =~= strings_view(before).drop_last());
        all
    }

    /// The lines that drawing the tree writes, each without its line end:
    /// one per package, indented to show the tree, with `highlight_package`
    /// coloured.
    pub fn print(&self, highlight_package: Option<&str>) -> (lines: Vec<String>)
        ensures
            strings_view(lines@) == render(
                tree_view(*self),
                Seq::empty(),
                opt_str_view(highlight_package),
            ),
    {
        proof {
            reveal_strlit("");
            assert(""@ =~= Seq::<char>::empty());
        }
        self.print_recursive("", highlight_package)
    }

    /// The lines that drawing the tree under `indent` writes.
    pub fn print_recursive(&self, indent: &str, highlight_package: Option<&str>) -> (lines: Vec<
        String,
    >)
        ensures
            strings_view(lines@) == render(
                tree_view(*self),
                indent@,
                opt_str_view(highlight_package),
            ),
        decreases *self,
    {
        let ghost hl = opt_str_view(highlight_package);
        let highlighted = match highlight_package {
            Some(h) => same_text(h, self.name.as_str()),
            None => false,
        };
        let mut line = indent.to_owned();
        if highlighted {
            push_char(&mut line, '\u{1b}');
            push_char(&mut line, '[');
            push_char(&mut line, '3');
            push_char(&mut line, '2');
            push_char(&mut line, 'm');
        }
        line.append(self.name.as_str());
        push_char(&mut line, '\u{1b}');
        push_char(&mut line, '[');
        push_char(&mut line, '3');
        push_char(&mut line, '9');
        push_char(&mut line, 'm');
        assert(line@ =~= node_line(indent@, self.name@, hl));
        let mut lines: Vec<String> = Vec::new();
        lines.push(line);
        let ghost deps = trees_view(self.dependencies@);
        proof {
            lemma_trees_view_len(self.dependencies@);
            assert(strings_view(lines@) =~= seq![node_line(indent@, self.name@, hl)] + render_all(
                deps,
                indent@,
                hl,
                0,
            ));
        }
        let carried = carried_indent(indent);
        let count = self.dependencies.len();
        let mut i: usize = 0;
        while i < count
            invariant
                i <= count == self.dependencies.len(),
                deps == trees_view(self.dependencies@),
                deps.len() == count,
                forall|j: int| 0 <= j < deps.len() ==> #[trigger] deps[j] == tree_view(self.dependencies@[j]),
                hl == opt_str_view(highlight_package),
                carried@ == indent@.map_values(|c: char| carry_indent(c)),
                strings_view(lines@) == seq![node_line(indent@, self.name@, hl)] + render_all(
                    deps,
                    indent@,
                    hl,
                    i as nat,
                ),
            decreases count - i,
        {
            let mut sub_indent = carried.clone();
            if i + 1 == count {
                push_char(&mut sub_indent, '└');
            } else {
                push_char(&mut sub_indent, '├');
            }
            push_char(&mut sub_indent, '─');
            assert(sub_indent@ =~= child_indent(indent@, i + 1 == count));
            proof {
                assert(decreases_to!(*self => self.dependencies@[i as int]));
            }
            let mut sub = self.dependencies[i].print_recursive(sub_indent.as_str(), highlight_package);
            let ghost before = lines@;
            let ghost drawn = sub@;
            lines.append(&mut sub);
            assert(strings_view(lines@) =~= strings_view(before) + strings_view(drawn));
            i = i + 1;
        }
        lines
    }
}

// ---------------------------------------------------------------------------
// Laws
// ---------------------------------------------------------------------------

/// The subtree reached by following `path`, one dependency index per level.
pub open spec fn subtree_at(t: PackageTree, path: Seq<int>) -> Option<PackageTree>
    decreases path.len(),
{
    if path.len() == 0 {
        Some(t)
    } else if 0 <= path[0] < t.dependencies.len() {
        subtree_at(t.dependencies[path[0]], path.drop_first())
    } else {
        None
    }
}

/// The install order of the `i`-th tree stands as one block in the install
/// order of the list; the result is where the block starts.
pub(crate) proof fn lemma_flat_all_block(ts: Seq<PackageTree>, i: int) -> (off: int)
    requires
        0 <= i < ts.len(),
    ensures
        0 <= off,
        off + flat(ts[i]).len() <= flat_all(ts).len(),
        flat_all(ts).subrange(off, off + flat(ts[i]).len()) == flat(ts[i]),
    decreases ts.len(),
{
    let init = ts.subrange(0, ts.len() - 1);
    if i == ts.len() - 1 {
        let off = flat_all(init).len() as int;
        assert(flat_all(ts).subrange(off, off + flat(ts[i]).len()) =~= flat(ts[i]));
        off
    } else {
        let off = lemma_flat_all_block(init, i);
        assert(init[i] == ts[i]);
        assert(flat_all(ts).subrange(off, off + flat(ts[i]).len()) =~= flat_all(init).subrange(
            off,
            off + flat(ts[i]).len(),
        ));
        off
    }
}

/// A block of a block of `a` is a block of `a`.
proof fn lemma_block_in_block(a: Seq<Seq<char>>, b: Seq<Seq<char>>, c: Seq<Seq<char>>, i: int, j: int)
    requires
        0 <= i,
        i + b.len() <= a.len(),
        a.subrange(i, i + b.len()) == b,
        0 <= j,
        j + c.len() <= b.len(),
        b.subrange(j, j + c.len()) == c,
    ensures
        a.subrange(i + j, i + j + c.len()) == c,
{
    assert forall|k: int| 0 <= k < c.len() implies #[trigger] a.subrange(i + j, i + j + c.len())[k]
        == c[k] by {
        assert(c[k] == b[j + k]);
        assert(b[j + k] == a[i + j + k]);
    }
    assert(a.subrange(i + j, i + j + c.len()) =~= c);
}

/// Install order puts dependencies first. The package itself comes last,
/// and the install order of every subtree stands as one block in the
/// tree's install order (the result is where it starts), ending with that
/// subtree's package; for a proper subtree the block lies before the
/// tree's own name.
pub proof fn lemma_install_order(t: PackageTree, path: Seq<int>) -> (off: int)
    requires
        subtree_at(t, path) is Some,
    ensures
        flat(t).len() > 0,
        flat(t).last() == t.name,
        ({
            let s = subtree_at(t, path)->0;
            &&& flat(s).last() == s.name
            &&& 0 <= off
            &&& off + flat(s).len() <= flat(t).len()
            &&& flat(t).subrange(off, off + flat(s).len()) == flat(s)
            &&& path.len() > 0 ==> off + flat(s).len() < flat(t).len()
        }),
    decreases path.len(),
{
    let s = subtree_at(t, path)->0;
    if path.len() == 0 {
        assert(flat(t).subrange(0, flat(t).len() as int) =~= flat(t));
        0
    } else {
        let c = t.dependencies[path[0]];
        let inner = lemma_install_order(c, path.drop_first());
        let outer = lemma_flat_all_block(t.dependencies, path[0]);
        let whole = flat(t);
        let deps = flat_all(t.dependencies);
        let fc = flat(c);
        let fs = flat(s);
        assert(whole == deps + seq![t.name]);
        lemma_block_in_block(deps, fc, fs, outer, inner);
        assert(whole.subrange(outer + inner, outer + inner + fs.len()) =~= deps.subrange(
            outer + inner,
            outer + inner + fs.len(),
        ));
        outer + inner
    }
}

/// Drawing a tree takes one line per entry of its install order, so one
/// per package in the tree.
pub proof fn lemma_drawing_length(t: PackageTree, indent: Seq<char>, highlight: Option<Seq<char>>)
    ensures
        render(t, indent, highlight).len() == flat(t).len(),
    decreases t, 0nat,
{
    lemma_drawings_length(t.dependencies, indent, highlight, t.dependencies.len());
    assert(t.dependencies.subrange(0, t.dependencies.len() as int) =~= t.dependencies);
}

proof fn lemma_drawings_length(
    ts: Seq<PackageTree>,
    indent: Seq<char>,
    highlight: Option<Seq<char>>,
    n: nat,
)
    requires
        n <= ts.len(),
    ensures
        render_all(ts, indent, highlight, n).len() == flat_all(ts.subrange(0, n as int)).len(),
    decreases ts, n,
{
    if n == 0 {
        assert(ts.subrange(0, 0) =~= Seq::<PackageTree>::empty());
    } else {
        lemma_drawings_length(ts, indent, highlight, (n - 1) as nat);
        lemma_drawing_length(ts[n - 1], child_indent(indent, n == ts.len()), highlight);
        let front = ts.subrange(0, n as int);
        assert(front.subrange(0, front.len() - 1) =~= ts.subrange(0, n - 1));
        assert(front[front.len() - 1] == ts[n - 1]);
    }
}

/// Whether `line`, drawn below a package whose indent is `indent`, carries
/// that indent's lines on: in each of its columns a fork or a vertical line
/// (`├`, `│`) shows as a vertical line `│`, and a corner, a dash or a blank
/// (`└`, `─`, ` `) as a blank.
pub open spec fn carries_on(line: Seq<char>, indent: Seq<char>) -> bool {
    &&& line.len() >= indent.len()
    &&& forall|j: int|
        0 <= j < indent.len() ==> {
            &&& (indent[j] == '│' || indent[j] == '├') ==> #[trigger] line[j] == '│'
            &&& (indent[j] == ' ' || indent[j] == '└' || indent[j] == '─') ==> line[j] == ' '
        }
}

/// In the drawing of a tree under `indent`, the package's own line starts
/// with that indent, and every line below it (those of its dependencies, at
/// any depth) carries the indent on: a vertical line stays a vertical line
/// in every column of every line below, a fork continues as one, and a
/// corner, a dash or a blank leaves its column blank.
pub proof fn lemma_drawing_columns(t: PackageTree, indent: Seq<char>, highlight: Option<Seq<char>>)
    ensures
        render(t, indent, highlight).len() > 0,
        render(t, indent, highlight)[0].len() >= indent.len(),
        render(t, indent, highlight)[0].take(indent.len() as int) == indent,
        forall|k: int|
            1 <= k < render(t, indent, highlight).len() ==> carries_on(
                #[trigger] render(t, indent, highlight)[k],
                indent,
            ),
    decreases t, 0nat,
{
    let r = render(t, indent, highlight);
    let rest = render_all(t.dependencies, indent, highlight, t.dependencies.len());
    lemma_drawings_columns(t.dependencies, indent, highlight, t.dependencies.len());
    assert(r[0] == node_line(indent, t.name, highlight));
    assert(r[0].take(indent.len() as int) =~= indent);
    assert forall|k: int| 1 <= k < r.len() implies carries_on(#[trigger] r[k], indent) by {
        assert(r[k] == rest[k - 1]);
    }
}

proof fn lemma_drawings_columns(
    ts: Seq<PackageTree>,
    indent: Seq<char>,
    highlight: Option<Seq<char>>,
    n: nat,
)
    ensures
        forall|k: int|
            0 <= k < render_all(ts, indent, highlight, n).len() ==> carries_on(
                #[trigger] render_all(ts, indent, highlight, n)[k],
                indent,
            ),
    decreases ts, n,
{
    if n == 0 || n > ts.len() {
    } else {
        lemma_drawings_columns(ts, indent, highlight, (n - 1) as nat);
        let ci = child_indent(indent, n == ts.len());
        lemma_drawing_columns(ts[n - 1], ci, highlight);
        let front = render_all(ts, indent, highlight, (n - 1) as nat);
        let sub = render(ts[n - 1], ci, highlight);
        let all = render_all(ts, indent, highlight, n);
        assert(all == front + sub);
        assert forall|k: int| 0 <= k < all.len() implies carries_on(#[trigger] all[k], indent) by {
            if k < front.len() {
                assert(all[k] == front[k]);
            } else {
                let m = k - front.len();
                assert(all[k] == sub[m]);
                assert forall|j: int| 0 <= j < indent.len() implies ci[j] == carry_indent(
                    indent[j],
                ) by {}
                if m == 0 {
                    assert forall|j: int| 0 <= j < indent.len() implies #[trigger] sub[0][j]
                        == ci[j] by {
                        assert(sub[0].take(ci.len() as int)[j] == sub[0][j]);
                    }
                } else {
                    assert(carries_on(sub[m], ci));
                }
            }
        }
    }
}

/// The drawing of the `i`-th of `ts` stands as one block in the drawings of
/// the first `n`, after the lines of those before it.
proof fn lemma_child_block(
    ts: Seq<PackageTree>,
    indent: Seq<char>,
    highlight: Option<Seq<char>>,
    n: nat,
    i: int,
)
    requires
        0 <= i < n <= ts.len(),
    ensures
        ({
            let start = flat_all(ts.subrange(0, i)).len() as int;
            let sub = render(ts[i], child_indent(indent, i + 1 == ts.len()), highlight);
            let all = render_all(ts, indent, highlight, n);
            &&& start + sub.len() <= all.len()
            &&& forall|m: int| 0 <= m < sub.len() ==> all[start + m] == #[trigger] sub[m]
        }),
    decreases n,
{
    let all = render_all(ts, indent, highlight, n);
    let front = render_all(ts, indent, highlight, (n - 1) as nat);
    let last = render(ts[n - 1], child_indent(indent, n == ts.len()), highlight);
    assert(all == front + last);
    lemma_drawings_length(ts, indent, highlight, (n - 1) as nat);
    if i == n - 1 {
        lemma_drawing_length(ts[i], child_indent(indent, i + 1 == ts.len()), highlight);
    } else {
        lemma_child_block(ts, indent, highlight, (n - 1) as nat, i);
    }
}

/// Each dependency's drawing hangs from the package's column: its first
/// line has a fork `├─` there, or a corner `└─` for the last dependency, and
/// its later lines a vertical line `│`, or a blank under the corner. The
/// block of the `i`-th dependency starts after the package's line and the
/// lines of the dependencies before it (one per package of their install
/// orders).
pub proof fn lemma_drawing_branches(t: PackageTree, indent: Seq<char>, highlight: Option<Seq<char>>, i: int)
    requires
        0 <= i < t.dependencies.len(),
    ensures
        ({
            let r = render(t, indent, highlight);
            let start = 1 + flat_all(t.dependencies.subrange(0, i)).len() as int;
            let size = flat(t.dependencies[i]).len() as int;
            let last = i + 1 == t.dependencies.len();
            let col = indent.len() as int;
            &&& start + size <= r.len()
            &&& r[start].len() >= col + 2
            &&& r[start][col] == (if last { '└' } else { '├' })
            &&& r[start][col + 1] == '─'
            &&& forall|m: int|
                1 <= m < size ==> (#[trigger] r[start + m]).len() > col && r[start + m][col] == (
                if last {
                    ' '
                } else {
                    '│'
                })
        }),
{
    let ts = t.dependencies;
    let r = render(t, indent, highlight);
    let rest = render_all(ts, indent, highlight, ts.len());
    let ci = child_indent(indent, i + 1 == ts.len());
    let sub = render(ts[i], ci, highlight);
    let start0 = flat_all(ts.subrange(0, i)).len() as int;
    let col = indent.len() as int;
    lemma_child_block(ts, indent, highlight, ts.len(), i);
    lemma_drawing_length(ts[i], ci, highlight);
    lemma_drawing_columns(ts[i], ci, highlight);
    assert(r == seq![node_line(indent, t.name, highlight)] + rest);
    assert(r[1 + start0] == sub[0]);
    assert(sub.len() == flat(ts[i]).len());
    assert(r.len() == 1 + rest.len());
    assert(sub[0].take(ci.len() as int) == ci);
    assert(sub[0][col] == sub[0].take(ci.len() as int)[col]);
    assert(sub[0][col + 1] == sub[0].take(ci.len() as int)[col + 1]);
    assert forall|m: int| 1 <= m < sub.len() implies (#[trigger] r[1 + start0 + m]).len() > col
        && r[1 + start0 + m][col] == (if i + 1 == ts.len() {
        ' '
    } else {
        '│'
    }) by {
        assert(r[1 + start0 + m] == rest[start0 + m]);
        assert(rest[start0 + m] == sub[m]);
        assert(carries_on(sub[m], ci));
        assert(ci[col] == (if i + 1 == ts.len() { '└' } else { '├' }));
    }
}

} // verus!
