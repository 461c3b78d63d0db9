use vstd::seq::Seq;
use treest::fisovec::Order;
use treest::navigate_view::{View, ViewJumpBy, ViewSpaceSubset};
use treest::structs::IndexPath;
use treest::tree::{Node, NodePath, Provider};

/// Shows each node by its fragment.
struct ByName;

impl Provider<String> for ByName {
    // The specification items below are read by Verus only; nothing runs them.
    fn gives(&self, _path: Seq<String>, _out: Seq<String>) -> bool {
        unreachable!()
    }

    fn keeps(&self, _path: Seq<String>) -> bool {
        unreachable!()
    }

    fn orders(&self, _left: Seq<String>, _right: Seq<String>) -> Order {
        unreachable!()
    }

    fn shows(&self, _path: Seq<String>) -> Seq<char> {
        unreachable!()
    }

    fn provide_root(&self) -> String {
        "root".to_string()
    }

    fn provide(&mut self, _path: &NodePath<String>) -> Vec<String> {
        Vec::new()
    }

    fn order(&self, _left: &NodePath<String>, _right: &NodePath<String>) -> Order {
        Order::Equal
    }

    fn keep(&self, _path: &NodePath<String>) -> bool {
        true
    }

    fn display(&self, path: &NodePath<String>) -> String {
        path.tail.fragment.clone()
    }
}

fn leaf(name: &str) -> Node<String> {
    Node { fragment: name.to_string(), children: None, folded: true, marked: false }
}

fn open(name: &str, kids: Vec<Node<String>>) -> Node<String> {
    let shown: Vec<usize> = (0..kids.len()).collect();
    Node { fragment: name.to_string(), children: Some((kids, shown)), folded: false, marked: false }
}

/// root { a { x, y }, b }
fn sample() -> Node<String> {
    open("root", vec![open("a", vec![leaf("x"), leaf("y")]), leaf("b")])
}

fn some(s: &str) -> Option<String> {
    Some(s.to_string())
}

fn paths(view: &View) -> Vec<Vec<usize>> {
    view.line_mapping.iter().map(|p| p.0.clone()).collect()
}

#[test]
fn first_render_draws_every_visible_line() {
    let root = sample();
    let mut view = View::new();
    let cursor = [0usize, 1];
    let lines = view.render_tree_range(
        ViewSpaceSubset { root: &root, provider: &ByName, cursor: &cursor },
        0..10,
        false,
    );
    assert_eq!(
        lines,
        vec![
            some("root"),
            some("|-- a"),
            some("|   |-- x"),
            some("|   `-- \x1b[7my"),
            some("`-- b"),
        ]
    );
    assert_eq!(paths(&view), vec![vec![], vec![0], vec![0, 0], vec![0, 1], vec![1]]);
    assert_eq!(view.cursor_line, 3);
    assert_eq!(view.total_height, 5);
    assert_eq!(view.visible_height, 10);
}

#[test]
fn second_render_draws_only_the_cursor_line() {
    let root = sample();
    let mut view = View::new();
    let cursor = [0usize, 1];
    let space = || ViewSpaceSubset { root: &root, provider: &ByName, cursor: &cursor };
    view.render_tree_range(space(), 0..10, false);
    let lines = view.render_tree_range(space(), 0..10, false);
    assert_eq!(lines, vec![None, None, None, some("|   `-- \x1b[7my"), None]);
    assert_eq!(view.cursor_line, 3);
}

#[test]
fn folding_blanks_the_lines_left_over() {
    let mut root = sample();
    let mut view = View::new();
    let cursor = [0usize, 1];
    view.render_tree_range(ViewSpaceSubset { root: &root, provider: &ByName, cursor: &cursor }, 0..10, false);
    if let Some((kids, _)) = &mut root.children {
        kids[0].folded = true;
    }
    let lines = view.render_tree_range(
        ViewSpaceSubset { root: &root, provider: &ByName, cursor: &cursor },
        0..10,
        false,
    );
    assert_eq!(lines, vec![None, None, some("`-- b"), some(""), some("")]);
    assert_eq!(paths(&view), vec![vec![], vec![0], vec![1]]);
    assert_eq!(view.total_height, 3);
    // the cursor is no longer visible: the cursor line stays
    assert_eq!(view.cursor_line, 3);
}

#[test]
fn only_the_visible_range_is_drawn() {
    let root = sample();
    let mut view = View::new();
    let cursor = [1usize];
    let lines = view.render_tree_range(
        ViewSpaceSubset { root: &root, provider: &ByName, cursor: &cursor },
        1..3,
        false,
    );
    assert_eq!(lines, vec![some("|-- a"), some("|   |-- x")]);
    assert_eq!(paths(&view), vec![vec![0], vec![0, 0]]);
    assert_eq!(view.total_height, 5);
    assert_eq!(view.visible_height, 2);
    assert_eq!(view.cursor_line, 0);
}

#[test]
fn pretty_glyphs_and_marks() {
    let mut root = sample();
    if let Some((kids, _)) = &mut root.children {
        kids[1].marked = true;
    }
    let mut view = View::new();
    let cursor = [9usize];
    let lines = view.render_tree_range(
        ViewSpaceSubset { root: &root, provider: &ByName, cursor: &cursor },
        0..5,
        true,
    );
    assert_eq!(lines[1], some("\u{251c}\u{2500}\u{2500} a"));
    assert_eq!(lines[3], some("\u{2502}   \u{2514}\u{2500}\u{2500} y"));
    assert_eq!(lines[4], some("\u{2514}\u{2500}\u{2500}  \x1b[4mb"));
}

#[test]
fn path_for_gives_the_line_path() {
    let root = sample();
    let mut view = View::new();
    assert!(view.path_for(0).is_none());
    view.render_tree_range(ViewSpaceSubset { root: &root, provider: &ByName, cursor: &[] }, 0..10, false);
    assert_eq!(view.path_for(2).map(|p: &IndexPath| p.0.clone()), Some(vec![0, 0]));
    assert!(view.path_for(5).is_none());
}

#[test]
fn jumps_by_amount() {
    let mut scroll = 0usize;
    ViewJumpBy::new_by("line").down(&mut scroll, 10, 5);
    assert_eq!(scroll, 1);
    ViewJumpBy::new_by("win").down(&mut scroll, 10, 5);
    assert_eq!(scroll, 4);
    let mut scroll = 7usize;
    ViewJumpBy::new_by("halfwin").up(&mut scroll, 10, 0);
    assert_eq!(scroll, 2);
    ViewJumpBy::new_by("mouse").up(&mut scroll, 10, 0);
    assert_eq!(scroll, 0);
}

#[test]
fn render_moves_clears_and_draws_changed_lines() {
    let root = open("root", vec![leaf("a")]);
    let mut view = View::new();
    view.update(2..6, 10, false);
    let space = || ViewSpaceSubset { root: &root, provider: &ByName, cursor: &[] };
    let out = view.render(false, space(), false);
    assert_eq!(out, "\x1b[;3H\x1b[1;3H\x1b[K\x1b[7mroot\x1b[m\x1b[2;3H\x1b[K`-- a\x1b[m");
    // nothing changed but the cursor line
    let out = view.render(false, space(), false);
    assert_eq!(out, "\x1b[;3H\x1b[1;3H\x1b[K\x1b[7mroot\x1b[m");
    // forced: everything again, cleared with spaces when the screen is shared
    view.update(2..6, 10, true);
    let out = view.render(true, space(), false);
    assert_eq!(out, "\x1b[;3H\x1b[1;3H    \x1b[7mroot\x1b[m\x1b[2;3H    `-- a\x1b[m");
}

fn strings(v: &[&str]) -> Vec<String> {
    v.iter().map(|s| s.to_string()).collect()
}

#[test]
fn message_window_with_scroll_bar_and_count() {
    let lines = strings(&["a", "b", "c", "d"]);
    let out = treest::navigate_view::message_text(&lines, 1, 2, true, false, true);
    assert_eq!(out, "% b\r\n% c\r\n-- 4 lines --\r\n");
    let lines = strings(&["a", "b", "c", "d", "e", "f", "g", "h", "i", "j"]);
    let out = treest::navigate_view::message_text(&lines, 4, 3, true, false, true);
    assert_eq!(out, ": e\r\n% f\r\n: g\r\n-- 10 lines --\r\n");
}

#[test]
fn message_window_pretty_single_line() {
    let lines = strings(&["only"]);
    let out = treest::navigate_view::message_text(&lines, 0, 5, true, true, false);
    assert_eq!(out, "\u{2503} only\r\n");
    let out = treest::navigate_view::message_text(&lines, 0, 5, false, true, true);
    assert_eq!(out, "only\r\n-- 1 line --\r\n");
}
