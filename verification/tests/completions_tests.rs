use treest::completions::{Action, Command, Completer, Completing};
use treest::status::ActionComplete;
use treest::completions::{complete_file_entries, complete_program_entries, complete_words, typed_part, DirEntry};

fn entry(name: &str, is_dir: bool, exec_like: bool) -> DirEntry {
    DirEntry { name: name.to_string(), is_dir, exec_like }
}

#[test]
fn the_typed_part() {
    assert_eq!(typed_part("hello", 3), vec!['h', 'e', 'l']);
    assert_eq!(typed_part("hé", 9), vec!['h', 'é']);
    assert!(typed_part("abc", 0).is_empty());
}

#[test]
fn words_sorted_with_a_space() {
    let words: Vec<String> = ["quit", "query", "open", "quit"].iter().map(|s| s.to_string()).collect();
    let r = complete_words(&words, &["cmd", "quxx"], 1, 2);
    assert_eq!(r, vec!["query ", "quit ", "quit "]);
    let r = complete_words(&words, &["o"], 0, 1);
    assert_eq!(r, vec!["open "]);
    assert!(complete_words(&words, &["z"], 0, 1).is_empty());
}

#[test]
fn file_names() {
    let es = vec![
        entry("src", true, true),
        entry("setup.sh", false, true),
        entry("Cargo.toml", false, false),
        entry("setup.sh", false, true),
    ];
    let r = complete_file_entries(&es, "s", false, "s", false);
    assert_eq!(r, vec!["setup.sh ", "src/"]);
    let r = complete_file_entries(&es, "dir", true, "", false);
    assert_eq!(r, vec!["dir/Cargo.toml ", "dir/setup.sh ", "dir/src/"]);
    let r = complete_file_entries(&es, "", false, "", true);
    assert_eq!(r, vec!["setup.sh ", "src/"]);
}

#[test]
fn programs() {
    let es = vec![
        entry("ls", false, true),
        entry("less", false, true),
        entry("lib", true, true),
        entry("lsblk", false, false),
        entry("ls", false, true),
    ];
    assert_eq!(complete_program_entries(&es, "l"), vec!["less ", "ls "]);
    assert!(complete_program_entries(&es, "x").is_empty());
}

fn no_lookup(_: &str) -> Vec<String> {
    Vec::new()
}

fn echo_files(w: &str, from: &str, exec: bool) -> Vec<String> {
    vec![format!("{w}|{from}|{exec}")]
}

/// The entries of two directories of the search path (`ls` is in both).
fn echo_programs() -> Vec<DirEntry> {
    vec![
        entry("lsof", false, true),
        entry("ls", false, true),
        entry("lib", true, true),
        entry("ls", false, true),
        entry("lsnote", false, false),
        entry("cat", false, true),
    ]
}

fn root_lookup(key: &str) -> Vec<String> {
    if key == "root" {
        vec!["/r".to_string()]
    } else {
        Vec::new()
    }
}

#[test]
fn completer_words_and_positions() {
    let words = Completer::Words(vec!["foo".to_string(), "bar".to_string(), "fob".to_string()]);
    let args = ["cmd", "fox"];
    let r = words.get_comp(&args, 1, 2, &no_lookup, &echo_files, &echo_programs);
    assert_eq!(r, vec!["fob ".to_string(), "foo ".to_string()]);
    let nth = Completer::Nth(vec![Completer::Nothing, words]);
    let r = nth.get_comp(&args, 1, 2, &no_lookup, &echo_files, &echo_programs);
    assert_eq!(r, vec!["fob ".to_string(), "foo ".to_string()]);
    let args = ["cmd", "x", "y", "b"];
    let r = nth.get_comp(&args, 3, 1, &no_lookup, &echo_files, &echo_programs);
    assert_eq!(r, vec!["bar ".to_string()]);
    assert!(nth.get_comp(&args, 0, 0, &no_lookup, &echo_files, &echo_programs).is_empty());
    assert!(Completer::Nth(Vec::new()).get_comp(&args, 0, 0, &no_lookup, &echo_files, &echo_programs).is_empty());
}

#[test]
fn completer_paths_and_programs() {
    let c = Completer::PathLookup;
    let r = c.get_comp(&["/usr"], 0, 3, &root_lookup, &echo_files, &echo_programs);
    assert_eq!(r, vec!["/us|/|true".to_string()]);
    let r = c.get_comp(&["a/b"], 0, 9, &root_lookup, &echo_files, &echo_programs);
    assert_eq!(r, vec!["a/b|/r|true".to_string()]);
    // programs of the search path: sorted, each once, no directory, only
    // what looks executable
    let r = c.get_comp(&["ls"], 0, 9, &root_lookup, &echo_files, &echo_programs);
    assert_eq!(r, vec!["ls ".to_string(), "lsof ".to_string()]);
    let r = Completer::FileFromRoot.get_comp(&["sr"], 0, 2, &root_lookup, &echo_files, &echo_programs);
    assert_eq!(r, vec!["sr|/r|false".to_string()]);
    // the cursor path is not known here: nothing to complete from
    let r = Completer::FileFromCursor.get_comp(&["sr"], 0, 2, &root_lookup, &echo_files, &echo_programs);
    assert!(r.is_empty());
}

fn command(comp: Completer) -> Command {
    Command { name: "cmd".to_string(), doc: String::new(), comp }
}

fn by_position() -> Completer {
    Completer::Nth(vec![
        Completer::Words(vec!["one".to_string(), "other".to_string()]),
        Completer::Words(vec!["two".to_string(), "twice".to_string()]),
    ])
}

#[test]
fn actions_complete_through_their_command() {
    let plain = Completing::new(Action::Fn(command(by_position())), echo_files, echo_programs);
    assert_eq!(plain.get_comp(&["o"], 0, 1, &no_lookup), vec!["one ".to_string(), "other ".to_string()]);
    // a bound argument comes first: the typed argument is the second one
    let bound = Completing::new(
        Action::Bind(command(by_position()), vec!["x".to_string()]),
        echo_files,
        echo_programs,
    );
    assert_eq!(bound.get_comp(&["tw"], 0, 2, &no_lookup), vec!["twice ".to_string(), "two ".to_string()]);
    // a chain completes as its first action
    let chain = Completing::new(
        Action::Chain(vec![Action::Fn(command(Completer::FileFromRoot)), Action::Fn(command(Completer::Nothing))]),
        echo_files,
        echo_programs,
    );
    assert_eq!(chain.get_comp(&["sr"], 0, 2, &root_lookup), vec!["sr|/r|false".to_string()]);
    let empty = Completing::new(Action::Chain(Vec::new()), echo_files, echo_programs);
    assert!(empty.get_comp(&["a"], 0, 1, &no_lookup).is_empty());
    // no argument under the cursor: nothing
    assert!(plain.get_comp(&["a"], 3, 0, &no_lookup).is_empty());
}

#[test]
fn completer_of_a_command_skips_the_arguments_before_it() {
    let of = Completer::Of(Box::new(command(by_position())), 1);
    let r = of.get_comp(&["bind", "o"], 1, 1, &no_lookup, &echo_files, &echo_programs);
    assert_eq!(r, vec!["one ".to_string(), "other ".to_string()]);
    let r = of.get_comp(&["bind", "x", "tw"], 2, 2, &no_lookup, &echo_files, &echo_programs);
    assert_eq!(r, vec!["twice ".to_string(), "two ".to_string()]);
    // the argument is before the command's own ones: nothing
    assert!(of.get_comp(&["o"], 0, 1, &no_lookup, &echo_files, &echo_programs).is_empty());
}
