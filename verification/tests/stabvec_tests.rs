use treest::stabvec::StabVec;

#[test]
fn insert_fills_holes_first() {
    let mut v: StabVec<&str> = StabVec::from_vec(vec!["a", "b", "c"]);
    assert_eq!(v.remove(1), Some("b"));
    assert_eq!(v.insert("x"), 1);
    assert_eq!(*v.index(1), "x");
    assert_eq!(v.insert("y"), 3);
    assert_eq!(v.iter(), vec![&"a", &"x", &"c", &"y"]);
}

#[test]
fn removing_the_last_drops_trailing_holes() {
    let mut v: StabVec<u32> = StabVec::new();
    assert_eq!(v.insert(10), 0);
    assert_eq!(v.insert(20), 1);
    assert_eq!(v.insert(30), 2);
    assert_eq!(v.remove(1), Some(20));
    assert_eq!(v.remove(2), Some(30));
    // the hole at 1 became trailing and went away: the next key is 1
    assert_eq!(v.insert(40), 1);
    assert_eq!(v.iter_ref(), vec![(0, &10), (1, &40)]);
}

#[test]
fn keys_stay_stable_across_removals() {
    let mut v: StabVec<char> = StabVec::from_vec(vec!['p', 'q', 'r', 's']);
    assert_eq!(v.remove(0), Some('p'));
    assert_eq!(v.remove(0), None);
    assert_eq!(*v.index(3), 's');
    assert_eq!(v.iter_ref(), vec![(1, &'q'), (2, &'r'), (3, &'s')]);
}

#[test]
fn remove_undoes_insert_at_the_end() {
    let mut v: StabVec<u8> = StabVec::from_vec(vec![1, 2]);
    let k = v.insert(3);
    assert_eq!(v.remove(k), Some(3));
    assert_eq!(v.iter(), vec![&1, &2]);
    assert_eq!(v.insert(9), 2);
}

#[test]
fn replace_gives_back_the_old_item() {
    let mut v: StabVec<u8> = StabVec::from_vec(vec![1, 2]);
    assert_eq!(v.replace(0, 7), Some(1));
    assert_eq!(v.remove(1), Some(2));
    let d: StabVec<u8> = StabVec::default();
    assert!(d.iter().is_empty());
    assert_eq!(v.iter(), vec![&7]);
}

#[test]
fn insert_takes_the_first_free_key_of_the_listing() {
    let mut s = StabVec::from_vec(vec!['a', 'b', 'c']);
    assert_eq!(s.remove(1), Some('b'));
    let listed: Vec<(usize, char)> = s.iter_ref().into_iter().map(|(k, c)| (k, *c)).collect();
    assert_eq!(listed, vec![(0, 'a'), (2, 'c')]);
    assert_eq!(s.insert('d'), 1);
    let listed: Vec<(usize, char)> = s.iter_ref().into_iter().map(|(k, c)| (k, *c)).collect();
    assert_eq!(listed, vec![(0, 'a'), (1, 'd'), (2, 'c')]);
    assert_eq!(s.replace(2, 'e'), Some('c'));
    let listed: Vec<(usize, char)> = s.iter_ref().into_iter().map(|(k, c)| (k, *c)).collect();
    assert_eq!(listed, vec![(0, 'a'), (1, 'd'), (2, 'e')]);
}
