use treest::input::{Echo, Input, InputTickResponse, PendingMouseInfo};
use treest::readline::Prompt;

type I<'a> = Input<&'static str, u8, &'a [String]>;

fn mapped(i: &I, r: InputTickResponse<u8>) -> Option<&'static str> {
    match r {
        InputTickResponse::CallbackMapping(k) => Some(i.mappings[k].1),
        _ => None,
    }
}

fn is_noop(r: &InputTickResponse<u8>) -> bool {
    matches!(r, InputTickResponse::Noop)
}

#[test]
fn sequences_run_their_mapping() {
    let mut i: I = Input::new();
    i.add_mapping(b"ab".to_vec(), "AB");
    i.add_mapping(b"ac".to_vec(), "AC");
    let (r, echo) = i.tick(Some(b'a'));
    assert!(is_noop(&r) && matches!(echo, Echo::Nothing));
    assert_eq!(i.get_pending(), b"a");
    let (r, _) = i.tick(Some(b'c'));
    assert_eq!(mapped(&i, r), Some("AC"));
    assert!(i.get_pending().is_empty());
    // a byte no mapping starts with is dropped
    let (r, _) = i.tick(Some(b'z'));
    assert!(is_noop(&r));
    assert!(i.get_pending().is_empty());
}

#[test]
fn a_shorter_mapping_runs_when_longer_ones_fail() {
    let mut i: I = Input::new();
    i.add_mapping(b"ab".to_vec(), "AB");
    i.add_mapping(b"a".to_vec(), "A");
    assert!(is_noop(&i.tick(Some(b'a')).0));
    let (r, _) = i.tick(Some(b'x'));
    assert_eq!(mapped(&i, r), Some("A"));
    assert!(i.get_pending().is_empty());
    // the byte that broke the sequence is read again
    assert!(i.has_recycle());
    assert_eq!(i.next_recycled(), Some(b'x'));
    assert_eq!(i.next_recycled(), None);
}

#[test]
fn unmatched_sequence_is_dropped() {
    let mut i: I = Input::new();
    i.add_mapping(b"abc".to_vec(), "ABC");
    assert!(is_noop(&i.tick(Some(b'a')).0));
    assert!(is_noop(&i.tick(Some(b'x')).0));
    assert!(i.get_pending().is_empty());
    assert!(!i.has_recycle());
}

#[test]
fn mouse_reports_keep_their_coordinates_aside() {
    let mut i: I = Input::new();
    i.add_mapping(vec![0x1b, b'[', b'M', b' ', b' ', b' '], "click");
    for b in [0x1b, b'[', b'M', b' ', b'!' + 5] {
        assert!(is_noop(&i.tick(Some(b)).0));
    }
    let (r, _) = i.tick(Some(b'!' + 3));
    assert_eq!(mapped(&i, r), Some("click"));
    assert!(i.get_pending_mouse_info() == PendingMouseInfo { col: 5, row: 3 });
}

#[test]
fn end_of_input() {
    let mut i: I = Input::new();
    assert!(matches!(i.tick(None).0, InputTickResponse::EndOfInput));
}

#[test]
fn mappings_can_be_read_and_removed() {
    let mut i: I = Input::new();
    i.add_mapping(Vec::new(), "ignored");
    assert!(i.mappings.is_empty());
    i.add_mapping(b"q".to_vec(), "Q");
    i.add_mapping(b"w".to_vec(), "W");
    i.add_mapping(b"e".to_vec(), "E");
    assert_eq!(i.get_mapping(b"w".to_vec()), Some(&"W"));
    assert_eq!(i.get_mapping(b"x".to_vec()), None);
    assert_eq!(i.pop_mapping(b"q".to_vec()), Some("Q"));
    // the last mapping took the place of the removed one
    assert_eq!(i.mappings[0].1, "E");
    assert_eq!(i.mappings.len(), 2);
    assert_eq!(i.pop_mapping(b"q".to_vec()), None);
    let (r, _) = i.tick(Some(b'e'));
    assert_eq!(mapped(&i, r), Some("E"));
}

#[test]
fn a_mapping_added_midway_is_reachable() {
    let mut i: I = Input::new();
    i.add_mapping(b"xy".to_vec(), "XY");
    assert!(is_noop(&i.tick(Some(b'x')).0));
    i.add_mapping(b"xz".to_vec(), "XZ");
    let (r, _) = i.tick(Some(b'z'));
    assert_eq!(mapped(&i, r), Some("XZ"));
}

#[test]
fn recycled_bytes_come_back_in_order() {
    let mut i: I = Input::new();
    i.recycle(vec![1, 2]);
    i.recycle(vec![3]);
    assert_eq!(i.next_recycled(), Some(1));
    assert_eq!(i.next_recycled(), Some(2));
    assert_eq!(i.next_recycled(), Some(3));
    assert!(!i.has_recycle());
}

#[test]
fn a_prompt_takes_the_bytes() {
    let none: Vec<String> = Vec::new();
    let mut i: I = Input::new();
    i.add_mapping(b"h".to_vec(), "H");
    i.set_prompt(Prompt::new("> ".to_string(), Vec::new(), none.as_slice()), Some(7));
    assert!(i.get_prompt().is_some());
    let (r, echo) = i.tick(Some(b'h'));
    assert!(is_noop(&r));
    match echo {
        Echo::Text(t) => assert_eq!(t, "h"),
        _ => panic!("the prompt echoes"),
    }
    i.tick(Some(b'i'));
    let (r, echo) = i.tick(Some(b'\r'));
    assert!(matches!(echo, Echo::PromptDone));
    match r {
        InputTickResponse::CallbackPrompt { ps, then, ans } => {
            assert_eq!(ps, "> ");
            assert_eq!(then, 7);
            assert_eq!(ans, "hi");
        }
        _ => panic!("the prompt's callback runs"),
    }
    assert!(i.get_prompt().is_none());
}

#[test]
fn an_aborted_prompt_runs_nothing() {
    let none: Vec<String> = Vec::new();
    let mut i: I = Input::new();
    i.set_prompt(Prompt::new("> ".to_string(), Vec::new(), none.as_slice()), Some(1));
    let (r, echo) = i.tick(Some(0x03));
    assert!(is_noop(&r));
    assert!(matches!(echo, Echo::PromptDone));
    assert!(i.get_prompt().is_none());
}
