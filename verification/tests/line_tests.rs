use treest::line::{split_line_args, split_line_args_cursor_indices, str_char_slice};

fn lu(name: &str) -> Vec<String> {
    vec![if name.is_empty() {
        "[file_path]".to_string()
    } else {
        format!("name:{name}")
    }]
}

fn s(c: &str) -> Vec<String> {
    split_line_args(c, &lu)
}

#[test]
fn test_split_args() {
    assert!(s("").is_empty());
    assert!(s(" ").is_empty());

    assert_eq!(s(r#" a "#), ["a"]);
    assert_eq!(s(r#"a b c d"#), ["a", "b", "c", "d"]);
    assert_eq!(s(r#"a 'b c' d"#), ["a", "b c", "d"]);
    assert_eq!(s(r#"a "b c" d"#), ["a", "b c", "d"]);
    assert_eq!(s(r#"a {w} d"#), ["a", "name:w", "d"]);
    assert_eq!(s(r#"a '{w}' d"#), ["a", "{w}", "d"]);
    assert_eq!(s(r#"a "{w}" d"#), ["a", "name:w", "d"]);
    assert_eq!(s(r#"a \{w} d"#), ["a", "{w}", "d"]);
    assert_eq!(s(r#"a \n d"#), ["a", "n", "d"]);
    assert_eq!(s(r#"a '\n' d"#), ["a", "\\n", "d"]);
    assert_eq!(s(r#"a "\n" d"#), ["a", "\\n", "d"]);
    assert_eq!(
        s(r#"bind e expand shell_wait 'sh -c "$EDITOR {}"'"#),
        ["bind", "e", "expand", "shell_wait", "sh -c \"$EDITOR {}\""]
    );
    assert_eq!(
        s(r#"bind a expand prompt_init '-> {} shell mv {}'"#),
        ["bind", "a", "expand", "prompt_init", "-> {} shell mv {}"]
    );
}

fn many(name: &str) -> Vec<String> {
    vec![format!("{name}1"), format!("{name}2"), format!("{name}3")]
}

#[test]
fn split_args_lookup_spreads_values() {
    assert_eq!(split_line_args("x{v}y z", &many), ["xv1", "v2", "v3y", "z"]);
    assert_eq!(split_line_args("\"x{v}y\" z", &many), ["xv1 v2 v3y", "z"]);
    assert_eq!(split_line_args("a #b c", &many), ["a"]);
    assert_eq!(split_line_args("a b#c", &many), ["a", "b#c"]);
}

#[test]
fn split_args_cursor_positions() {
    // cursor inside "two" at its second character (byte 1)
    assert_eq!(
        split_line_args_cursor_indices("one two", &lu, 5, true),
        (vec!["one".to_string(), "two".to_string()], 1, 1)
    );
    // cursor on blank between words gets a phantom argument
    assert_eq!(
        split_line_args_cursor_indices("one  two", &lu, 4, true),
        (vec!["one".to_string(), "".to_string(), "two".to_string()], 1, 0)
    );
    // cursor past the end after a blank: a phantom argument at the end
    assert_eq!(
        split_line_args_cursor_indices("one ", &lu, 4, true),
        (vec!["one".to_string(), "".to_string()], 1, 0)
    );
    // lookups are skipped with the phantom flag
    assert_eq!(
        split_line_args_cursor_indices("{w}", &lu, 9, true),
        (vec!["{w}".to_string(), "".to_string()], 1, 0)
    );
}

#[test]
fn char_slice_counts_characters() {
    assert_eq!(str_char_slice("héllo", 1, 3), "él");
    assert_eq!(str_char_slice("héllo", 3, 1), "");
    assert_eq!(str_char_slice("héllo", 9, 12), "");
    assert_eq!(str_char_slice("héllo", 2, 99), "llo");
}
