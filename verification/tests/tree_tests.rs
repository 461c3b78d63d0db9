use vstd::seq::Seq;
use treest::fisovec::Order;
use treest::tree::{Node, NodePath, Provider};

/// A small fixed tree of names; names starting with a dot are hidden, the
/// others shown by name.
struct Names;

impl Provider<String> for Names {
    // The specification items below are read by Verus only; nothing runs them.
    fn gives(&self, _path: Seq<String>, _out: Seq<String>) -> bool {
        unreachable!()
    }

    fn keeps(&self, _path: Seq<String>) -> bool {
        unreachable!()
    }

    fn orders(&self, _left: Seq<String>, _right: Seq<String>) -> Order {
        unreachable!()
    }

    fn shows(&self, _path: Seq<String>) -> Seq<char> {
        unreachable!()
    }

    fn provide_root(&self) -> String {
        "root".to_string()
    }

    fn provide(&mut self, path: &NodePath<String>) -> Vec<String> {
        let names: &[&str] = match path.tail.fragment.as_str() {
            "root" => &["b", ".hidden", "a", "c"],
            "a" => &["x"],
            _ => &[],
        };
        names.iter().map(|s| s.to_string()).collect()
    }

    fn order(&self, left: &NodePath<String>, right: &NodePath<String>) -> Order {
        let (l, r) = (&left.tail.fragment, &right.tail.fragment);
        if l < r {
            Order::Less
        } else if l > r {
            Order::Greater
        } else {
            Order::Equal
        }
    }

    fn display(&self, path: &NodePath<String>) -> String {
        path.tail.fragment.clone()
    }

    fn keep(&self, path: &NodePath<String>) -> bool {
        !path.tail.fragment.starts_with('.')
    }
}

fn shown_names(n: &Node<String>) -> Vec<String> {
    n.children().unwrap_or_default().iter().map(|c| c.fragment().clone()).collect()
}

#[test]
fn loading_filters_and_orders() {
    let mut p = Names;
    let mut root = Node::new(p.provide_root());
    assert!(!root.is_loaded() && root.is_folded() && !root.is_marked());
    assert_eq!(root.child_count(), 0);
    assert!(root.children().is_none());
    assert_eq!(root.load(&mut p, &[], false, false), 3);
    assert!(root.is_loaded() && !root.is_folded());
    assert_eq!(shown_names(&root), vec!["a", "b", "c"]);
    let (all, sel) = root.children.as_ref().unwrap();
    assert_eq!(all.len(), 4);
    assert_eq!(sel, &vec![2, 0, 3]);
    // loaded already: only the folding changes
    assert_eq!(root.load(&mut p, &[], false, true), 3);
    assert!(root.is_folded());
    assert_eq!(root.load(&mut p, &[0], false, false), 1);
    assert_eq!(root.resolve_node(&[0, 0]).fragment(), "x");
}

#[test]
fn resolving_paths() {
    let mut p = Names;
    let mut root = Node::new(p.provide_root());
    root.load(&mut p, &[], false, false);
    root.load(&mut p, &[0], false, false);
    let names: Vec<&str> = root.resolve(&[0, 0]).iter().map(|n| n.fragment().as_str()).collect();
    assert_eq!(names, vec!["root", "a", "x"]);
    assert_eq!(root.child(2).unwrap().fragment(), "c");
    assert!(root.try_resolve_node(&[1, 0]).is_none());
    assert_eq!(root.try_resolve_node(&[0, 0]).unwrap().fragment(), "x");
    root.resolve_node_mut(&[2]).set_marked(true);
    assert!(root.resolve_node(&[2]).is_marked());
    root.try_resolve_node_mut(&[0]).unwrap().set_folded(false);
    assert!(!root.resolve_node(&[0]).is_folded());
    assert!(root.try_resolve_node_mut(&[1, 3]).is_none());
    root.child_mut(1).unwrap().set_marked(true);
    assert!(root.resolve_node(&[1]).is_marked());
    let path = root.resolve(&[0]);
    let np = NodePath { head: &path[..1], tail: path[1] };
    let all: Vec<&str> = np.iter_all().iter().map(|n| n.fragment().as_str()).collect();
    assert_eq!(all, vec!["root", "a"]);
}

#[test]
fn adding_and_removing_children() {
    let mut p = Names;
    let mut root = Node::new(p.provide_root());
    root.load(&mut p, &[], false, false);
    root.add_child(&mut p, &[], Node::new("ab".to_string()));
    assert_eq!(shown_names(&root), vec!["a", "ab", "b", "c"]);
    root.add_child(&mut p, &[], Node::new(".x".to_string()));
    assert_eq!(shown_names(&root), vec!["a", "ab", "b", "c"]);
    assert_eq!(root.children.as_ref().unwrap().0.len(), 6);
    // a node not loaded yet gets loaded with the new child
    root.add_child(&mut p, &[2], Node::new("new".to_string()));
    assert!(root.resolve_node(&[2]).is_loaded());
    assert_eq!(shown_names(root.resolve_node(&[2])), vec!["new"]);

    let mut root = Node::new(p.provide_root());
    root.load(&mut p, &[], false, false);
    // remove "b" (shown second, first of all): "c", last of all, takes its place
    root.remove_child(&[], 1);
    assert_eq!(shown_names(&root), vec!["a", "c"]);
    let (all, sel) = root.children.as_ref().unwrap();
    assert_eq!(all.len(), 3);
    assert_eq!(sel, &vec![2, 0]);
}
