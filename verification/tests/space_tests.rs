use vstd::seq::Seq;
use treest::fisovec::Order;
use treest::space::Space;
use treest::structs::{IndexPath, Target};
use treest::tree::{NodePath, Provider};

struct Names;

impl Provider<String> for Names {
    // The specification items below are read by Verus only; nothing runs them.
    fn gives(&self, _path: Seq<String>, _out: Seq<String>) -> bool {
        unreachable!()
    }

    fn keeps(&self, _path: Seq<String>) -> bool {
        unreachable!()
    }

    fn orders(&self, _left: Seq<String>, _right: Seq<String>) -> Order {
        unreachable!()
    }

    fn shows(&self, _path: Seq<String>) -> Seq<char> {
        unreachable!()
    }

    fn provide_root(&self) -> String {
        "root".to_string()
    }

    fn provide(&mut self, path: &NodePath<String>) -> Vec<String> {
        let names: &[&str] = match path.tail.fragment.as_str() {
            "root" => &["b", "a", "c"],
            "a" => &["x", "y"],
            _ => &[],
        };
        names.iter().map(|s| s.to_string()).collect()
    }

    fn order(&self, left: &NodePath<String>, right: &NodePath<String>) -> Order {
        let (l, r) = (&left.tail.fragment, &right.tail.fragment);
        if l < r {
            Order::Less
        } else if l > r {
            Order::Greater
        } else {
            Order::Equal
        }
    }

    fn display(&self, path: &NodePath<String>) -> String {
        path.tail.fragment.clone()
    }

    fn keep(&self, _path: &NodePath<String>) -> bool {
        true
    }
}

fn path(v: &[usize]) -> Target {
    Target::Path(IndexPath(v.to_vec()))
}

#[test]
fn cursor_moves() {
    let mut s = Space::new(Names, "names".to_string());
    assert_eq!(s.provider_name(), "names");
    assert!(s.is_cursor_root());
    s.cursor_enter();
    assert_eq!(s.cursor(), &[0]);
    s.cursor_next(false);
    assert_eq!(s.cursor(), &[1]);
    s.cursor_next(false);
    s.cursor_next(false);
    assert_eq!(s.cursor(), &[2]);
    s.cursor_next(true);
    assert_eq!(s.cursor(), &[0]);
    s.cursor_prev(true);
    assert_eq!(s.cursor(), &[2]);
    s.cursor_prev(false);
    assert_eq!(s.cursor(), &[1]);
    s.cursor_leave();
    assert!(s.is_cursor_root());
    s.cursor_leave();
    assert!(s.is_cursor_root());
    // back down to the remembered child
    s.cursor_enter();
    assert_eq!(s.cursor(), &[1]);
    // "b" has no children: entering stays
    s.cursor_enter();
    assert_eq!(s.cursor(), &[1]);
    *s.cursor_tail_mut() = 0;
    s.cursor_enter();
    assert_eq!(s.cursor(), &[0, 0]);
    assert_eq!(s.cursor_head(), &[0]);
    s.cursor_to(1, IndexPath(vec![0, 1]));
    s.cursor_truncate();
    assert_eq!(s.cursor(), &[0]);
}

#[test]
fn folding_marking_and_targets() {
    let mut s = Space::new(Names, "names".to_string());
    assert_eq!(s.set_folded(Target::Cursor, false), Some(3));
    assert_eq!(s.get_folded(Target::Cursor), Some(false));
    // not loaded on the way: nothing to reach
    assert_eq!(s.set_folded(path(&[0, 0]), false), None);
    assert_eq!(s.set_folded(path(&[0]), false), Some(2));
    assert_eq!(s.set_folded(path(&[0]), true), Some(2));
    assert_eq!(s.get_folded(path(&[0])), Some(true));
    s.set_marked(path(&[0, 1]), true);
    s.set_marked(path(&[0]), true);
    s.set_marked(Target::TrustedPath(IndexPath(vec![2])), true);
    assert_eq!(s.get_marked(path(&[0])), Some(true));
    assert_eq!(s.get_marked(path(&[1])), Some(false));
    let marked: Vec<Vec<usize>> = s.iter_marked().into_iter().map(|p| p.0).collect();
    assert_eq!(marked, vec![vec![0, 1], vec![0], vec![2]]);
    assert_eq!(s.target_to_path(path(&[2, 5])).map(|p| p.0), None);
    assert_eq!(s.target_to_path(Target::Cursor).map(|p| p.0), Some(vec![]));
    assert_eq!(s.resolve_node(&path(&[0, 1])).unwrap().fragment(), "y");
    let (tree, _) = s.tree_and_mut_provider();
    assert_eq!(tree.child_count(), 3);
}
