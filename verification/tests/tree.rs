use lever::tree::PackageTreeNode;

fn node(name: &str, deps: Vec<PackageTreeNode>) -> PackageTreeNode {
    PackageTreeNode { dependencies: deps, name: name.to_string() }
}

#[test]
fn leaf_flattens_to_itself() {
    assert_eq!(node("a", vec![]).flatten(), vec!["a".to_string()]);
}

#[test]
fn dependencies_come_first() {
    let t = node("root", vec![node("a", vec![node("a1", vec![])]), node("b", vec![])]);
    assert_eq!(
        t.flatten(),
        vec!["a1".to_string(), "a".to_string(), "b".to_string(), "root".to_string()]
    );
}

#[test]
fn drawing_indents_children() {
    let t = node(
        "Selected Packages",
        vec![node("a", vec![node("c", vec![]), node("d", vec![])]), node("b", vec![node("e", vec![])])],
    );
    let r = "\x1b[39m";
    assert_eq!(
        t.print(None),
        vec![
            format!("Selected Packages{r}"),
            format!("├─a{r}"),
            format!("│ ├─c{r}"),
            format!("│ └─d{r}"),
            format!("└─b{r}"),
            format!("  └─e{r}"),
        ]
    );
}

#[test]
fn drawing_highlights_the_package() {
    let t = node("root", vec![node("a", vec![]), node("b", vec![])]);
    let lines = t.print(Some("b"));
    assert_eq!(lines[0], "root\x1b[39m");
    assert_eq!(lines[1], "├─a\x1b[39m");
    assert_eq!(lines[2], "└─\x1b[32mb\x1b[39m");
    assert_eq!(lines.len(), t.flatten().len());
}

#[test]
fn drawing_under_an_indent() {
    let t = node("x", vec![node("y", vec![])]);
    assert_eq!(
        t.print_recursive("├─", None),
        vec!["├─x\x1b[39m".to_string(), "│ └─y\x1b[39m".to_string()]
    );
}
