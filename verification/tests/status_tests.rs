use vstd::prelude::int;
use vstd::seq::Seq;
use treest::keys::{Key, KeyCode};
use treest::line::Message;
use treest::status::{ActionComplete, Event, KeyEvent, Status, TextBlock};

/// An action that offers a fixed list of candidates, whatever is typed.
#[derive(Clone, Debug, PartialEq)]
struct Offer(Vec<&'static str>);

impl ActionComplete for Offer {
    // A specification item, read by Verus only; nothing runs it.
    fn offers(&self, _args: Seq<Seq<char>>, _arg_idx: int, _ch_idx: int, _r: Seq<Seq<char>>) -> bool {
        unreachable!()
    }

    fn get_comp<F: Fn(&str) -> Vec<String>>(
        &self,
        _args: &[&str],
        _arg_idx: usize,
        _ch_idx: usize,
        _lookup: &F,
    ) -> Vec<String> {
        self.0.iter().map(|s| s.to_string()).collect()
    }
}

fn no_lookup(_name: &str) -> Vec<String> {
    Vec::new()
}

fn key(code: KeyCode, ctrl: bool, alt: bool) -> Event {
    Event::Key(KeyEvent { code, ctrl, alt })
}

fn ch(c: char) -> Event {
    key(KeyCode::Char(c), false, false)
}

fn ctrl(c: char) -> Event {
    key(KeyCode::Char(c), true, false)
}

fn alt(c: char) -> Event {
    key(KeyCode::Char(c), false, true)
}

fn open(status: &mut Status<Offer>, initial: Option<&str>, offer: Vec<&'static str>) {
    status.prompt(":".to_string(), Offer(offer), initial);
}

fn send(status: &mut Status<Offer>, ev: Event) -> (Option<(Offer, Vec<String>)>, bool, bool) {
    status.do_event(&ev, &no_lookup)
}

fn line(status: &Status<Offer>) -> (String, usize) {
    let p = status.input.as_ref().unwrap();
    (p.content.clone(), p.cursor)
}

#[test]
fn typing_inserts_at_the_cursor() {
    let mut s: Status<Offer> = Status::default();
    open(&mut s, None, vec![]);
    for c in "abc".chars() {
        assert_eq!(send(&mut s, ch(c)).1, true);
    }
    assert_eq!(line(&s), ("abc".to_string(), 3));
    send(&mut s, ctrl('a'));
    send(&mut s, ch('x'));
    assert_eq!(line(&s), ("xabc".to_string(), 1));
    send(&mut s, ctrl('e'));
    assert_eq!(line(&s), ("xabc".to_string(), 4));
    send(&mut s, key(KeyCode::Home, false, false));
    send(&mut s, key(KeyCode::Delete, false, false));
    assert_eq!(line(&s), ("abc".to_string(), 0));
}

#[test]
fn kill_and_yank() {
    let mut s: Status<Offer> = Status::default();
    open(&mut s, Some("foo bar"), vec![]);
    assert_eq!(line(&s), ("foo bar".to_string(), 7));
    send(&mut s, ctrl('w'));
    assert_eq!(line(&s), ("foo ".to_string(), 4));
    assert_eq!(s.input.as_ref().unwrap().kill_ring, "bar");
    send(&mut s, ctrl('a'));
    send(&mut s, ctrl('y'));
    assert_eq!(line(&s), ("barfoo ".to_string(), 3));
    send(&mut s, ctrl('k'));
    assert_eq!(line(&s), ("bar".to_string(), 3));
    assert_eq!(s.input.as_ref().unwrap().kill_ring, "barfoo ");
    send(&mut s, key(KeyCode::Backspace, false, false));
    assert_eq!(line(&s), ("ba".to_string(), 2));
    assert_eq!(s.input.as_ref().unwrap().kill_ring, "rbarfoo ");
}

#[test]
fn word_motions() {
    let mut s: Status<Offer> = Status::default();
    open(&mut s, Some("one two-three"), vec![]);
    send(&mut s, key(KeyCode::Left, true, false));
    assert_eq!(line(&s).1, 8);
    send(&mut s, alt('b'));
    assert_eq!(line(&s).1, 4);
    send(&mut s, key(KeyCode::Char('b'), true, true));
    assert_eq!(line(&s).1, 0);
    send(&mut s, alt('f'));
    assert_eq!(line(&s).1, 3);
    send(&mut s, key(KeyCode::Char('f'), true, true));
    assert_eq!(line(&s).1, 13);
}

#[test]
fn case_changes() {
    let mut s: Status<Offer> = Status::default();
    open(&mut s, Some("hello wORLD"), vec![]);
    send(&mut s, ctrl('a'));
    send(&mut s, alt('c'));
    assert_eq!(line(&s), ("Hello wORLD".to_string(), 5));
    send(&mut s, alt('u'));
    assert_eq!(line(&s), ("Hello WORLD".to_string(), 11));
    send(&mut s, ctrl('a'));
    send(&mut s, alt('l'));
    assert_eq!(line(&s), ("hello WORLD".to_string(), 5));
    send(&mut s, alt('c'));
    assert_eq!(line(&s), ("hello World".to_string(), 11));
}

#[test]
fn transpose_chars() {
    let mut s: Status<Offer> = Status::default();
    open(&mut s, Some("abcd"), vec![]);
    send(&mut s, ctrl('a'));
    send(&mut s, ctrl('f'));
    send(&mut s, ctrl('t'));
    assert_eq!(line(&s), ("bacd".to_string(), 2));
}

#[test]
fn accept_splits_and_records_history() {
    let mut s: Status<Offer> = Status::default();
    s.message(Message::Info("hi".to_string()));
    open(&mut s, Some("foo 'b c' d"), vec!["x"]);
    let (acc, taken, bell) = send(&mut s, key(KeyCode::Enter, false, false));
    assert!(taken && !bell);
    let (action, args) = acc.unwrap();
    assert_eq!(action, Offer(vec!["x"]));
    assert_eq!(args, vec!["foo", "b c", "d"]);
    assert!(s.input.is_none());
    assert!(s.message.is_none());
    assert_eq!(s.history, vec!["foo 'b c' d"]);
    assert_eq!(s.history_location, 1);
    // with no prompt open, events are not taken
    let (acc, taken, bell) = send(&mut s, ch('a'));
    assert!(acc.is_none() && !taken && !bell);
}

#[test]
fn history_walk() {
    let mut s: Status<Offer> = Status::default();
    for entry in ["first", "second"] {
        open(&mut s, Some(entry), vec![]);
        send(&mut s, ctrl('m'));
    }
    assert_eq!(s.history_location, 2);
    open(&mut s, None, vec![]);
    assert_eq!(line(&s), (String::new(), 0));
    send(&mut s, key(KeyCode::Up, false, false));
    assert_eq!(line(&s), ("second".to_string(), 6));
    send(&mut s, ctrl('p'));
    assert_eq!(line(&s), ("first".to_string(), 5));
    send(&mut s, ctrl('p'));
    assert_eq!(s.history_location, 0);
    send(&mut s, key(KeyCode::Down, false, false));
    assert_eq!(line(&s), ("second".to_string(), 6));
    send(&mut s, alt('<'));
    assert_eq!(line(&s), ("first".to_string(), 5));
    send(&mut s, alt('>'));
    assert_eq!(line(&s), (String::new(), 0));
    assert_eq!(s.history_location, 2);
}

#[test]
fn accept_keeping_history_place() {
    let mut s: Status<Offer> = Status::default();
    for entry in ["a", "b"] {
        open(&mut s, Some(entry), vec![]);
        send(&mut s, key(KeyCode::Enter, false, false));
    }
    open(&mut s, None, vec![]);
    send(&mut s, key(KeyCode::Up, false, false));
    send(&mut s, key(KeyCode::Up, false, false));
    assert_eq!(s.history_location, 0);
    let (acc, _, _) = send(&mut s, ctrl('o'));
    assert_eq!(acc.unwrap().1, vec!["a"]);
    assert_eq!(s.history, vec!["a", "b", "a"]);
    assert_eq!(s.history_location, 1);
    open(&mut s, None, vec![]);
    assert_eq!(line(&s), ("b".to_string(), 1));
}

#[test]
fn abort_closes_the_prompt() {
    let mut s: Status<Offer> = Status::default();
    open(&mut s, Some("x"), vec![]);
    s.message(Message::Warning("w".to_string()));
    let (acc, taken, bell) = send(&mut s, ctrl('g'));
    assert!(acc.is_none() && taken && !bell);
    assert!(s.input.is_none() && s.message.is_none());
    assert!(s.history.is_empty());
    open(&mut s, Some("x"), vec![]);
    send(&mut s, key(KeyCode::Esc, false, false));
    assert!(s.input.is_none());
}

#[test]
fn completion_with_a_common_part() {
    let mut s: Status<Offer> = Status::default();
    open(&mut s, Some("f"), vec!["foo", "foobar"]);
    let (acc, taken, bell) = send(&mut s, key(KeyCode::Tab, false, false));
    assert!(acc.is_none() && taken && !bell);
    assert_eq!(line(&s), ("foo".to_string(), 3));
    assert_eq!(
        s.input.as_ref().unwrap().hints,
        Some(vec!["foo".to_string(), "foobar".to_string()])
    );
    // any other key clears the hints
    send(&mut s, key(KeyCode::End, false, false));
    assert_eq!(s.input.as_ref().unwrap().hints, None);
}

#[test]
fn completion_with_one_candidate() {
    let mut s: Status<Offer> = Status::default();
    open(&mut s, Some("do th"), vec!["thing "]);
    send(&mut s, ctrl('i'));
    assert_eq!(line(&s), ("do thing ".to_string(), 9));
    assert_eq!(s.input.as_ref().unwrap().hints, None);
}

#[test]
fn completion_without_candidates_rings() {
    let mut s: Status<Offer> = Status::default();
    open(&mut s, Some("zz"), vec![]);
    let (_, _, bell) = send(&mut s, key(KeyCode::Esc, false, true));
    assert!(bell);
    assert_eq!(line(&s), ("zz".to_string(), 2));
}

#[test]
fn completion_in_interpolations() {
    let mut s: Status<Offer> = Status::default();
    open(&mut s, Some("echo {ro"), vec!["never"]);
    send(&mut s, key(KeyCode::Tab, false, false));
    assert_eq!(line(&s), ("echo {root".to_string(), 10));
    open(&mut s, Some("echo {root.e"), vec!["never"]);
    send(&mut s, key(KeyCode::Tab, false, false));
    assert_eq!(line(&s), ("echo {root.extension".to_string(), 20));
    open(&mut s, Some("{selection."), vec![]);
    send(&mut s, key(KeyCode::Tab, false, false));
    assert_eq!(line(&s), ("{selection.".to_string(), 11));
    assert_eq!(
        s.input.as_ref().unwrap().hints,
        Some(vec!["file_name".to_string(), "extension".to_string()])
    );
}

#[test]
fn other_events_clear_hints_only() {
    let mut s: Status<Offer> = Status::default();
    open(&mut s, Some("f"), vec!["foo", "fab"]);
    send(&mut s, key(KeyCode::Tab, false, false));
    assert!(s.input.as_ref().unwrap().hints.is_some());
    let (acc, taken, bell) = send(&mut s, Event::Other);
    assert!(acc.is_none() && taken && !bell);
    assert_eq!(line(&s), ("f".to_string(), 1));
    assert_eq!(s.input.as_ref().unwrap().hints, None);
}

#[test]
fn pending_keys_and_messages() {
    let mut s: Status<Offer> = Status::default();
    let k: Key = 'a'.into();
    s.push_pending(k);
    s.push_pending('b'.into());
    assert_eq!(s.get_pending().len(), 2);
    assert!(s.get_pending()[0] == k);
    s.clear_pending();
    assert!(s.get_pending().is_empty());
    assert!(s.long_message().is_none());
    s.message_tb = Some(TextBlock::raw(vec!["one".to_string(), "two".to_string()]));
    assert_eq!(s.long_message().unwrap().height(), 2);
    s.clear_message();
    assert!(s.long_message().is_none());
}

#[test]
fn cursor_shift_counts_the_prompt() {
    let mut s: Status<Offer> = Status::default();
    assert_eq!(s.cursor_shift(), None);
    s.prompt("run: ".to_string(), Offer(vec![]), Some("abc"));
    assert_eq!(s.cursor_shift(), Some(10));
}

fn spans(v: Vec<(String, bool)>) -> Vec<(&'static str, bool)> {
    v.into_iter().map(|(s, d)| (&*Box::leak(s.into_boxed_str()), d)).collect()
}

fn prompt_with(content: &str, cursor: usize, hints: Option<Vec<&str>>) -> treest::status::Prompt<Offer> {
    treest::status::Prompt {
        prompt: ": ".to_string(),
        cursor,
        content: content.to_string(),
        action: Offer(vec![]),
        render_shift: 0,
        kill_ring: String::new(),
        hints: hints.map(|h| h.iter().map(|s| s.to_string()).collect()),
    }
}

#[test]
fn layout_of_a_short_line() {
    let mut p = prompt_with("abcd", 2, None);
    assert_eq!(spans(p.layout(20)), vec![(": ", true), ("ab", false), ("cd", false)]);
    let mut p = prompt_with("abcd", 2, Some(vec!["foo", "bar "]));
    assert_eq!(
        spans(p.layout(20)),
        vec![
            (": ", true),
            ("ab", false),
            (" ", false),
            ("foo", true),
            (" ", false),
            ("bar ", true),
            ("cd", false)
        ]
    );
}

#[test]
fn layout_of_a_long_line_scrolls() {
    let mut p = prompt_with("abcdefghij", 8, None);
    assert_eq!(
        spans(p.layout(12)),
        vec![(": ", true), ("\u{2026}", false), ("efgh", false), ("i", false), ("\u{2026}", false)]
    );
    assert_eq!(p.render_shift, 3);
    p.cursor = 0;
    assert_eq!(spans(p.layout(12)), vec![(": ", true), ("", false), ("abcde", false), ("\u{2026}", false)]);
    assert_eq!(p.render_shift, 0);
}

#[test]
fn wrapped_text() {
    let tb = TextBlock::wrapped("hello world\n  indented line here\r\nx", 8);
    assert_eq!(
        tb.text,
        vec!["hello wo", "\u{21aa} rld", "  indent", "  \u{21aa} ed l", "  \u{21aa} ine ", "  \u{21aa} here", "x"]
    );
    assert_eq!(tb.height(), 7);
    assert_eq!(TextBlock::wrapped("a\n", 4).text, vec!["a"]);
    assert_eq!(TextBlock::wrapped("\n\n", 4).text, vec!["", ""]);
    assert!(TextBlock::wrapped("", 4).text.is_empty());
}

#[test]
fn pending_keys_as_text() {
    let mut s: Status<Offer> = Status::default();
    s.push_pending('g'.into());
    s.push_pending('x'.into());
    assert_eq!(s.pending_text(), "gx");
}

#[test]
fn events_that_do_not_fit_leave_the_prompt_alone() {
    let mut s: Status<Offer> = Status::default();
    // the cursor starts at character 1, inside the two bytes of 'é'
    open(&mut s, Some("é"), vec![]);
    let before = line(&s);
    assert_eq!(before, ("é".to_string(), 1));
    assert!(!s.event_fits(&ch('x'), &no_lookup));
    assert_eq!(s.handle_event(&ch('x'), &no_lookup), (None, false, false));
    assert_eq!(line(&s), before);
    // ctrl-r is never taken
    assert!(!s.event_fits(&ctrl('r'), &no_lookup));
    // a fitting key is handled as do_event does
    assert!(s.event_fits(&ctrl('a'), &no_lookup));
    s.handle_event(&ctrl('a'), &no_lookup);
    assert!(s.event_fits(&ch('y'), &no_lookup));
    assert_eq!(s.handle_event(&ch('y'), &no_lookup).1, true);
    assert_eq!(line(&s), ("yé".to_string(), 1));
    // with no prompt open every event fits, and none is taken
    let mut closed: Status<Offer> = Status::default();
    assert!(closed.event_fits(&ctrl('r'), &no_lookup));
    assert_eq!(closed.handle_event(&ctrl('r'), &no_lookup), (None, false, false));
}
