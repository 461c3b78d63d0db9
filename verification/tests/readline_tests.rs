use treest::readline::{Prompt, PromptState};
use treest::readline::Completion;
use std::cell::RefCell;
use vstd::prelude::int;
use vstd::seq::Seq;

type P<'a> = Prompt<&'a [String]>;

/// Feed `bytes` one by one; gather what was printed, and how it ended.
fn run<'a>(mut p: P<'a>, bytes: &[u8]) -> (String, Result<P<'a>, Option<String>>) {
    let mut printed = String::new();
    for &b in bytes {
        match p.feed(b) {
            PromptState::Again(t, np) => {
                printed.push_str(&t);
                p = np;
            }
            PromptState::Abort => return (printed, Err(None)),
            PromptState::Final(line) => return (printed, Err(Some(line))),
        }
    }
    (printed, Ok(p))
}

fn prompt<'a>(history: &[&str], hints: &'a [String]) -> P<'a> {
    Prompt::new(
        "> ".to_string(),
        history.iter().map(|s| s.to_string()).collect(),
        hints,
    )
}

fn line_of(p: &P) -> String {
    p.s.iter().collect()
}

#[test]
fn typing_then_enter_gives_the_line() {
    let none: Vec<String> = Vec::new();
    let (out, end) = run(prompt(&[], &none), b"abc\r");
    assert_eq!(out, "abc");
    assert_eq!(end.err(), Some(Some("abc".to_string())));
}

#[test]
fn control_a_goes_home_and_insertion_shifts() {
    let none: Vec<String> = Vec::new();
    let (out, end) = run(prompt(&[], &none), b"abc\x01x");
    assert_eq!(out, "abc\x1b[3D\x1b[@x");
    let p = end.ok().unwrap();
    assert_eq!(line_of(&p), "xabc");
    assert_eq!(p.at, 1);
}

#[test]
fn backspace_removes_before_point() {
    let none: Vec<String> = Vec::new();
    let (out, end) = run(prompt(&[], &none), b"ab\x7f\n");
    assert_eq!(out, "ab\x08\x1b[P");
    assert_eq!(end.err(), Some(Some("a".to_string())));
}

#[test]
fn delete_or_backspace_on_empty_line_aborts() {
    let none: Vec<String> = Vec::new();
    assert_eq!(run(prompt(&[], &none), b"\x04").1.err(), Some(None));
    assert_eq!(run(prompt(&[], &none), b"\x08").1.err(), Some(None));
    assert_eq!(run(prompt(&[], &none), b"\x1b\x1b").1.err(), Some(None));
    assert_eq!(run(prompt(&[], &none), b"a\x03").1.err(), Some(None));
}

#[test]
fn arrow_keys_are_gathered_then_applied() {
    let none: Vec<String> = Vec::new();
    let (out, end) = run(prompt(&[], &none), b"ab\x1b[D");
    assert_eq!(out, "ab\x08");
    let p = end.ok().unwrap();
    assert_eq!(p.at, 1);
    let (out, end) = run(p, b"\x1b[C");
    assert_eq!(out, "b");
    assert_eq!(end.ok().unwrap().at, 2);
}

#[test]
fn word_moves_and_kills() {
    let none: Vec<String> = Vec::new();
    let (out, end) = run(prompt(&[], &none), b"foo bar\x1bb");
    assert_eq!(out, "foo bar\x1b[3D");
    let p = end.ok().unwrap();
    assert_eq!(p.at, 4);
    let (out, end) = run(p, b"\x1bd");
    assert_eq!(out, "\x1b[3P");
    let p = end.ok().unwrap();
    assert_eq!(line_of(&p), "foo ");
    let (out, end) = run(p, b"\x17");
    assert_eq!(out, "\x1b[4D\x1b[4P");
    let p = end.ok().unwrap();
    assert_eq!(line_of(&p), "");
    assert_eq!(p.at, 0);
}

#[test]
fn kill_to_end_and_to_start() {
    let none: Vec<String> = Vec::new();
    let (_, end) = run(prompt(&[], &none), b"hello\x01\x06\x06");
    let p = end.ok().unwrap();
    assert_eq!(p.at, 2);
    let (out, end) = run(p, b"\x0b");
    assert_eq!(out, "\x1b[3P");
    let p = end.ok().unwrap();
    assert_eq!(line_of(&p), "he");
    let (out, end) = run(p, b"\x15");
    assert_eq!(out, "\x1b[2D\x1b[K\x1b[K");
    assert_eq!(line_of(&end.ok().unwrap()), "");
}

#[test]
fn history_up_then_down() {
    let none: Vec<String> = Vec::new();
    let (out, end) = run(prompt(&["one", "two"], &none), b"x\x10");
    assert_eq!(out, "x\x1b[1D\x1b[K\x1b[Ktwo");
    let p = end.ok().unwrap();
    assert_eq!(line_of(&p), "two");
    let (out, end) = run(p, b"\x10\x0e\x0e");
    assert_eq!(out, "\x1b[3D\x1b[K\x1b[Kone\x1b[3D\x1b[K\x1b[Ktwo\x1b[3D\x1b[K\x1b[Kx");
    let p = end.ok().unwrap();
    assert_eq!(line_of(&p), "x");
    assert_eq!(run(p, b"\r").1.err(), Some(Some("x".to_string())));
}

#[test]
fn lead_byte_alone_is_dropped() {
    let none: Vec<String> = Vec::new();
    let (out, end) = run(prompt(&[], &none), "é".as_bytes());
    assert_eq!(out, "");
    let p = end.ok().unwrap();
    assert!(p.s.is_empty());
    assert!(p.pending.is_empty());
}

#[test]
fn utf8_bytes_after_escape_make_one_character() {
    let none: Vec<String> = Vec::new();
    let (out, end) = run(prompt(&[], &none), b"\x1b\xc3\xa9");
    assert_eq!(out, "é");
    let p = end.ok().unwrap();
    assert_eq!(p.s, vec!['é']);
    assert_eq!(p.at, 1);
}

#[test]
fn redraw_shows_prompt_and_line() {
    let none: Vec<String> = Vec::new();
    let (out, _) = run(prompt(&[], &none), b"ab\x02\x0c");
    assert_eq!(out, "ab\x08\x1b[G\x1b[K> ab\x1b[1D");
}

#[test]
fn completion_inserts_common_prefix_and_lists_hints() {
    let hints: Vec<String> = vec!["foobar".to_string(), "foo".to_string(), String::new(), "foo".to_string()];
    let (out, end) = run(prompt(&[], &hints), b"f\t");
    assert_eq!(
        out,
        "f\x1b[2@oo\r\x1b[A\x1b[K\x1b[4mfoo\x1b[m \x1b[4mfoobar\x1b[m\n\r> \x1b[3C"
    );
    let p = end.ok().unwrap();
    assert_eq!(line_of(&p), "foo");
    assert!(p.has_compl());
    let sess = p.compl.as_ref().unwrap();
    assert_eq!(sess.hints, vec!["foo".to_string(), "foobar".to_string()]);
    assert_eq!(sess.hint_pos, vec![0, 4]);
}

#[test]
fn completion_cycles_through_hints() {
    let hints: Vec<String> = vec!["ab".to_string(), "ac".to_string()];
    let (_, end) = run(prompt(&[], &hints), b"\t");
    let p = end.ok().unwrap();
    assert_eq!(line_of(&p), "a");
    let sess = p.compl.as_ref().unwrap();
    assert_eq!(sess.hints, vec!["a".to_string(), "ab".to_string(), "ac".to_string()]);
    assert_eq!(sess.hint_pos, vec![0, 2, 5]);
    let (out, end) = run(p, b"\t");
    assert_eq!(
        out,
        "\x1b[A\x1b[1G\x1b[4ma\x1b[m\x1b[3G\x1b[7mab\x1b[m\n\r> \x1b[1C\x1b[1D\x1b[1@ab"
    );
    let p = end.ok().unwrap();
    assert_eq!(line_of(&p), "ab");
    assert_eq!(p.at, 2);
    assert_eq!(p.compl.as_ref().unwrap().in_hint, 1);
    let (out, end) = run(p, b"x");
    assert_eq!(out, "x\x1b[A\x1b[2K\n");
    let p = end.ok().unwrap();
    assert!(!p.has_compl());
    assert_eq!(line_of(&p), "abx");
}

#[test]
fn completion_without_hints_rings_the_bell() {
    let none: Vec<String> = Vec::new();
    let (out, end) = run(prompt(&[], &none), b"a\t");
    assert_eq!(out, "a\x07");
    assert!(!end.ok().unwrap().has_compl());
}

#[test]
fn single_hint_completes_without_session() {
    let hints: Vec<String> = vec!["hello".to_string()];
    let (out, end) = run(prompt(&[], &hints), b"he\t");
    assert_eq!(out, "he\x1b[3@llo");
    let p = end.ok().unwrap();
    assert_eq!(line_of(&p), "hello");
    assert!(!p.has_compl());
}

#[test]
fn bell_byte_cancels_pending_escape() {
    let none: Vec<String> = Vec::new();
    let (out, end) = run(prompt(&[], &none), b"\x1b\x07a");
    assert_eq!(out, "a");
    assert_eq!(line_of(&end.ok().unwrap()), "a");
}

#[test]
fn fixed_list_gives_its_words_whatever_the_line() {
    let words = vec!["alpha".to_string(), "beta".to_string()];
    let list: &[String] = &words;
    assert_eq!(list.hints("anything", 3), words);
    assert_eq!(list.hints("", 0), words);
}

/// A completion source that gives nothing and records what it was asked.
struct Recorder {
    calls: RefCell<Vec<(String, usize)>>,
}

impl Completion for Recorder {
    // A specification item, read by Verus only; nothing runs it.
    fn gives(&self, _line: Seq<char>, _point: int, _r: Seq<Seq<char>>) -> bool {
        unreachable!()
    }

    fn ready(&self) -> bool {
        unreachable!()
    }

    fn hints(&self, line: &str, point: usize) -> Vec<String> {
        self.calls.borrow_mut().push((line.to_string(), point));
        Vec::new()
    }
}

#[test]
fn tab_asks_the_source_with_the_line_and_point() {
    let mut p = Prompt::new(">".to_string(), Vec::new(), Recorder { calls: RefCell::new(Vec::new()) });
    for b in [b'a', b'b', 0x02] {
        p = match p.feed(b) {
            PromptState::Again(_, np) => np,
            _ => panic!("the prompt ended early"),
        };
    }
    let p = match p.feed(0x09) {
        PromptState::Again(out, np) => {
            assert_eq!(out, "\x07");
            np
        }
        _ => panic!("the prompt ended early"),
    };
    assert_eq!(*p.complete.calls.borrow(), vec![("ab".to_string(), 1)]);
    match p.feed(b'\r') {
        PromptState::Final(line) => assert_eq!(line, "ab"),
        _ => panic!("enter gives the line"),
    }
}

#[test]
fn a_function_of_the_line_and_point_completes() {
    let source = |line: &str, point: usize| -> Vec<String> {
        if point == line.chars().count() { vec![format!("{line}ple"), format!("{line}ricot")] } else { Vec::new() }
    };
    let mut p = Prompt::new(">".to_string(), Vec::new(), source);
    for b in [b'a', b'p'] {
        p = match p.feed(b) {
            PromptState::Again(_, np) => np,
            _ => panic!("the prompt ended early"),
        };
    }
    let p = match p.feed(0x09) {
        PromptState::Again(_, np) => np,
        _ => panic!("the prompt ended early"),
    };
    // the common prefix of the hints is inserted
    assert_eq!(p.s.iter().collect::<String>(), "ap");
    assert!(p.compl.is_some());
}
