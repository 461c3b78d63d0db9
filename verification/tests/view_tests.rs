use treest::structs::IndexPath;
use treest::view::{State, View};
use treest::navigate::Direction;

fn leaf() -> State {
    State { unfolded: false, marked: false, children: Vec::new() }
}

fn node(children: Vec<State>) -> State {
    State {
        unfolded: true,
        marked: false,
        children: children.into_iter().enumerate().collect(),
    }
}

fn sample() -> View {
    View::from_state(node(vec![leaf(), node(vec![leaf(), leaf()]), leaf()]))
}

#[test]
fn enter_goes_to_first_child_and_leave_comes_back() {
    let mut v = sample();
    assert!(v.cursor_path().is_empty());
    v.enter();
    assert_eq!(v.cursor_path(), &[0]);
    v.leave();
    assert!(v.cursor_path().is_empty());
    // entering again goes back where the cursor was
    v.enter();
    assert_eq!(v.cursor_path(), &[0]);
}

#[test]
fn next_and_prev_stay_among_siblings() {
    let mut v = sample();
    v.enter();
    v.next();
    assert_eq!(v.cursor_path(), &[1]);
    v.enter();
    assert_eq!(v.cursor_path(), &[1, 0]);
    v.next();
    v.next();
    assert_eq!(v.cursor_path(), &[1, 1]);
    v.leave();
    v.next();
    v.next();
    assert_eq!(v.cursor_path(), &[2]);
    v.prev();
    v.prev();
    v.prev();
    assert_eq!(v.cursor_path(), &[0]);
}

#[test]
fn enter_on_a_leaf_does_nothing() {
    let mut v = sample();
    v.enter();
    v.enter();
    assert_eq!(v.cursor_path(), &[0]);
}

#[test]
fn marks_and_folds_at_the_cursor() {
    let mut v = sample();
    v.enter();
    v.next();
    assert!(v.unfolded());
    v.fold();
    assert!(!v.unfolded());
    assert!(!v.marked());
    v.toggle_marked();
    assert!(v.marked());
    v.toggle_marked();
    assert!(!v.marked());
    v.mark();
    assert!(v.marked());
}

#[test]
fn visible_height_counts_lines() {
    let v = sample();
    // root line, three children, the middle one unfolded with two children
    assert_eq!(v.visible_height(), 6);
    let single = View::from_state(node(vec![leaf()]));
    // an unfolded node with exactly one child shares its line
    assert_eq!(single.visible_height(), 1);
    assert_eq!(View::from_state(leaf()).visible_height(), 1);
}

#[test]
fn one_based_paths_round_trip() {
    let p = IndexPath::from_one_based(vec![1, 3, 2]);
    assert_eq!(p.0, vec![0, 2, 1]);
    assert_eq!(p.to_one_based(), vec![1, 3, 2]);
}

#[test]
fn directions_wrap_and_saturate() {
    assert_eq!(Direction::Next.go_wrap(2, 3), 0);
    assert_eq!(Direction::Prev.go_wrap(0, 3), 2);
    assert_eq!(Direction::Next.go_sat(2, 3), 2);
    assert_eq!(Direction::Prev.go_sat(0, 3), 0);
    assert_eq!(Direction::Next.go(4), 5);
}

#[test]
fn unfold_loads_children_once() {
    let mut v = View::from_state(leaf());
    v.unfold_root(vec![(0, leaf()), (1, leaf())]);
    assert!(v.root.unfolded);
    assert_eq!(v.root.children.len(), 2);
    // already loaded: what is given is ignored
    v.unfold_root(vec![(7, leaf())]);
    assert_eq!(v.root.children.len(), 2);
    v.enter();
    assert!(!v.unfolded());
    v.unfold(vec![(4, leaf()), (2, leaf()), (9, leaf())]);
    assert!(v.unfolded());
    assert_eq!(v.at_cursor().children.iter().map(|c| c.0).collect::<Vec<_>>(), vec![4, 2, 9]);
    v.fold();
    v.unfold(Vec::new());
    assert_eq!(v.at_cursor().children.len(), 3);
}

#[test]
fn renew_root_starts_over() {
    let mut v = sample();
    v.enter();
    v.next();
    v.renew_root(leaf());
    assert!(v.cursor_path().is_empty());
    assert!(v.root.children.is_empty());
}

#[test]
fn toggling_the_mark_twice_and_leaving_then_entering_give_the_view_back() {
    let mut v = sample();
    v.enter();
    v.next();
    v.enter();
    v.next();
    let path = v.cursor_path().to_vec();
    let marked = v.marked();
    v.toggle_marked();
    v.toggle_marked();
    assert_eq!(v.marked(), marked);
    v.leave();
    v.enter();
    assert_eq!(v.cursor_path(), &path[..]);
}
