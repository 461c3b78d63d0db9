use treest::app::{parse_lookup, Internal, LookupObj, LookupProp, SplitDirection, ViewTree};
use treest::node::Movement;
use treest::view::{State, View};

fn leaf() -> State {
    State { unfolded: false, marked: false, children: Vec::new() }
}

fn internal() -> Internal<()> {
    let root = State { unfolded: true, marked: false, children: vec![(0, leaf()), (1, leaf())] };
    Internal { tree: (), views: ViewTree::Leaf(View::from_state(root)), focus: Vec::new(), variables: Vec::new() }
}

fn shape(t: &ViewTree) -> String {
    match t {
        ViewTree::Leaf(_) => "v".to_string(),
        ViewTree::Split(chs, d) => {
            let inner: Vec<String> = chs.iter().map(shape).collect();
            format!("{}[{}]", d, inner.join(","))
        }
    }
}

#[test]
fn split_then_split_other_way() {
    let mut app = internal();
    app.view_split(SplitDirection::Horizontal);
    assert_eq!(shape(&app.views), "0[v,v]");
    assert_eq!(app.focus, vec![1]);
    app.view_split(SplitDirection::Horizontal);
    assert_eq!(shape(&app.views), "0[v,v,v]");
    assert_eq!(app.focus, vec![2]);
    app.view_split(SplitDirection::Vertical);
    assert_eq!(shape(&app.views), "0[v,v,1[v,v]]");
    assert_eq!(app.focus, vec![2, 1]);
}

#[test]
fn split_copies_the_focused_view() {
    let mut app = internal();
    app.focused_mut().enter();
    app.view_split(SplitDirection::Vertical);
    assert_eq!(app.focused().cursor_path(), &[0]);
    app.focus_to_view_adjacent(Movement::Backward);
    assert_eq!(app.focus, vec![0]);
    assert_eq!(app.focused().cursor_path(), &[0]);
}

#[test]
fn close_in_a_group_of_three() {
    let mut app = internal();
    app.view_split(SplitDirection::Horizontal);
    app.view_split(SplitDirection::Horizontal);
    app.view_close();
    assert_eq!(shape(&app.views), "0[v,v]");
    assert_eq!(app.focus, vec![1]);
}

#[test]
fn close_in_a_pair_puts_the_other_view_back() {
    let mut app = internal();
    app.view_split(SplitDirection::Horizontal);
    app.view_split(SplitDirection::Vertical);
    assert_eq!(shape(&app.views), "0[v,1[v,v]]");
    app.view_close();
    assert_eq!(shape(&app.views), "0[v,v]");
    assert_eq!(app.focus, vec![1]);
    app.view_close();
    assert_eq!(shape(&app.views), "v");
    assert!(app.focus.is_empty());
}

#[test]
fn transpose_and_close_others() {
    let mut app = internal();
    app.view_split(SplitDirection::Horizontal);
    app.view_transpose();
    assert_eq!(shape(&app.views), "1[v,v]");
    app.view_close_other();
    assert_eq!(shape(&app.views), "v");
    assert!(app.focus.is_empty());
}

#[test]
fn focus_moves_around_the_group() {
    let mut app = internal();
    app.view_split(SplitDirection::Horizontal);
    app.view_split(SplitDirection::Horizontal);
    assert_eq!(app.focus, vec![2]);
    app.focus_to_view_adjacent(Movement::Forward);
    assert_eq!(app.focus, vec![0]);
    app.focus_to_view_adjacent(Movement::Backward);
    assert_eq!(app.focus, vec![2]);
}

#[test]
fn variables_are_declared_and_listed() {
    let mut app = internal();
    app.declare("x", &["a", "b"]);
    app.declare("y", &[]);
    app.declare("x", &["c"]);
    let mut names: Vec<String> = app.var_list().into_iter().cloned().collect();
    names.sort();
    assert_eq!(names, vec!["x".to_string(), "y".to_string()]);
}

fn view_leaf() -> ViewTree {
    ViewTree::Leaf(View::from_state(leaf()))
}

/// A, then a split of B and C laid one above the other, then D; all side by side.
fn three_groups(focus: Vec<usize>) -> Internal<()> {
    let inner = ViewTree::Split(vec![view_leaf(), view_leaf()], 1);
    let views = ViewTree::Split(vec![view_leaf(), inner, view_leaf()], 0);
    Internal { tree: (), views, focus, variables: Vec::new() }
}

#[test]
fn focus_moves_within_the_nearest_group_along() {
    let mut app = three_groups(vec![1, 0]);
    app.focus_to_view(SplitDirection::Horizontal, Movement::Forward);
    assert_eq!(app.focus, vec![1, 1]);
    // no further view that way in that group: the focus stays
    app.focus_to_view(SplitDirection::Horizontal, Movement::Forward);
    assert_eq!(app.focus, vec![1, 1]);
    app.focus_to_view(SplitDirection::Horizontal, Movement::Backward);
    assert_eq!(app.focus, vec![1, 0]);
}

#[test]
fn focus_climbs_to_a_group_along_the_move() {
    let mut app = three_groups(vec![1, 0]);
    app.focus_to_view(SplitDirection::Vertical, Movement::Forward);
    assert_eq!(app.focus, vec![2]);
    app.focus_to_view(SplitDirection::Vertical, Movement::Backward);
    assert_eq!(app.focus, vec![1, 0]);
    let mut app = three_groups(vec![0]);
    app.focus_to_view(SplitDirection::Vertical, Movement::Forward);
    assert_eq!(app.focus, vec![1, 0]);
    app.focus_to_view(SplitDirection::Vertical, Movement::Backward);
    assert_eq!(app.focus, vec![0]);
    app.focus_to_view(SplitDirection::Vertical, Movement::Backward);
    assert_eq!(app.focus, vec![0]);
}

#[test]
fn focus_on_a_single_view_stays() {
    let mut app = internal();
    app.focus_to_view(SplitDirection::Vertical, Movement::Forward);
    assert!(app.focus.is_empty());
}

fn answer(o: LookupObj, p: LookupProp) -> Vec<String> {
    let o = match o {
        LookupObj::Cursor => "cursor",
        LookupObj::Root => "root",
        LookupObj::Selection => "selection",
    };
    let p = match p {
        LookupProp::Path => "path",
        LookupProp::Relative => "relative",
        LookupProp::FileName => "file-name",
        LookupProp::Extension => "extension",
    };
    vec![format!("{o}/{p}")]
}

#[test]
fn lookups_name_nodes_or_variables() {
    let mut app = internal();
    app.declare("files", &["a.txt", "b.txt"]);
    assert_eq!(app.lookup("", &answer), vec!["cursor/path"]);
    assert_eq!(app.lookup(".file-name", &answer), vec!["cursor/file-name"]);
    assert_eq!(app.lookup("root", &answer), vec!["root/path"]);
    assert_eq!(app.lookup("root.relative", &answer), vec!["root/relative"]);
    assert_eq!(app.lookup("selection.extension", &answer), vec!["selection/extension"]);
    assert_eq!(app.lookup("files", &answer), vec!["a.txt", "b.txt"]);
    assert_eq!(app.lookup("files.", &answer), vec!["a.txt", "b.txt"]);
    assert!(app.lookup("nothing", &answer).is_empty());
    assert_eq!(parse_lookup("root.size"), None);
    assert_eq!(parse_lookup("files.size"), None);
    assert_eq!(parse_lookup("selection"), Some((LookupObj::Selection, LookupProp::Path)));
}

#[test]
fn transposing_twice_gives_the_layout_back() {
    let mut app = internal();
    app.view_split(SplitDirection::Horizontal);
    app.view_split(SplitDirection::Vertical);
    let before = shape(&app.views);
    app.view_transpose();
    assert_ne!(shape(&app.views), before);
    app.view_transpose();
    assert_eq!(shape(&app.views), before);
}

#[test]
fn closing_in_a_first_pair_replaces_that_pair() {
    let mut app = internal();
    app.view_split(SplitDirection::Horizontal);
    app.focus_to_view_adjacent(Movement::Forward);
    assert_eq!(app.focus, vec![0]);
    app.view_split(SplitDirection::Vertical);
    assert_eq!(shape(&app.views), "0[1[v,v],v]");
    assert_eq!(app.focus, vec![0, 1]);
    app.view_close();
    // the pair is replaced by the view left in it; the other view stays
    assert_eq!(shape(&app.views), "0[v,v]");
    assert_eq!(app.focus, vec![0]);
}
