use treest::scripting::slice_search as search;

fn check(sl: &[u8], at: usize, it: u8, fw: bool, wp: bool, xp: Option<usize>) {
    assert_eq!(search(sl, at, |c| it == *c, fw, wp), xp);
}

#[test]
fn slice_search() {
    check(b"abcdefg", 4, b'f', true, false, Some(5));
    check(b"abcdefg", 4, b'b', true, false, None);
    check(b"abcdefg", 4, b'b', true, true, Some(1));
    check(b"abcdefg", 4, b'e', true, false, None);
    check(b"abcdefg", 4, b'e', true, true, None);
    check(b"abcdefg", 4, b'g', true, false, Some(6));
    check(b"abcdefg", 4, b'c', false, false, Some(2));
    check(b"abcdefg", 4, b'g', false, false, None);
    check(b"abcdefg", 4, b'g', false, true, Some(6));
    check(b"abcdefg", 4, b'e', false, false, None);
    check(b"abcdefg", 4, b'e', false, true, None);
    check(b"ooxxoxoxx", 4, b'o', false, false, Some(1));
    check(b"ooxxoxoxx", 1, b'o', false, false, Some(0));
}

#[test]
fn slice_search_empty_and_edges() {
    assert_eq!(search(b"", 0, |_c: &u8| true, true, true), None);
    // wrapping forward skips the item just before the start
    assert_eq!(search(b"abcd", 1, |c| *c == b'a', true, true), None);
    assert_eq!(search(b"abcd", 1, |c| *c == b'd', true, true), Some(3));
}
