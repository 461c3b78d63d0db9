use treest::lua_tokens::{lua_tokens_split, lua_tokens_try_split};
use treest::prompt::shell_like_split;

fn shell_parts(line: &str) -> Vec<String> {
    shell_like_split(line, None).parts
}

fn lua_parts(line: &str) -> Vec<String> {
    lua_tokens_split(line, None).parts
}

fn check_shell(line: &str, point: usize, parts: &[&str], in_part: usize) {
    let r = shell_like_split(line, Some(point));
    assert_eq!(r.parts, parts, "shell_like_split({line:?}, {point})");
    assert_eq!(r.in_part, Some(in_part), "shell_like_split({line:?}, {point})");
}

fn check_lua(line: &str, point: usize, parts: &[&str], in_part: usize) {
    let r = lua_tokens_split(line, Some(point));
    assert_eq!(r.parts, parts, "lua_tokens_split({line:?}, {point})");
    assert_eq!(r.in_part, Some(in_part), "lua_tokens_split({line:?}, {point})");
}

#[test]
fn test_split() {
    assert_eq!(shell_parts(""), [""]);
    assert_eq!(shell_parts(" "), [""]);
    assert_eq!(shell_parts("coucou "), ["coucou"]);
    assert_eq!(shell_parts(" this\tis\ntest    text"), ["this", "is", "test", "text"]);
    assert_eq!(
        shell_parts(r#" 'quo'ted and dis"joi'\n"'\t"' ye"\""y   "#),
        ["quoted", "and", "disjoi'\n\\t\"", "ye\"y"],
    );
    assert_eq!(shell_parts("it's fine"), ["its fine"]);
    check_shell("  ", 1, &[""], 0);
    check_shell("one two", 0, &["one", "two"], 0);
    check_shell("one two", 3, &["one", "two"], 0);
    check_shell("one two", 4, &["one", "two"], 1);
    check_shell("one two", 6, &["one", "two"], 1);
    check_shell("one two", 7, &["one", "two"], 1);
    check_shell(" one two", 0, &["", "one", "two"], 0);
    check_shell("one  two", 4, &["one", "", "two"], 1);
    check_shell("one two ", 8, &["one", "two", ""], 2);

    assert_eq!(lua_parts(""), [""; 0]);
    assert_eq!(
        lua_parts("function len(t) return t.n or #t end"),
        ["function", "len", "(", "t", ")", "return", "t", ".", "n", "or", "#", "t", "end"],
    );
    assert_eq!(
        lua_parts(
            r#"
 -- hello
--[[
hi]]
     --[==> swurd!
[[a]]--[=halo=]
--[===[ uuu ]] ]==] ]===]
        "#
        ),
        [
            "-- hello\n",
            "--[[\nhi]]",
            "--[==> swurd!\n",
            "[[a]]",
            "--[=halo=]\n",
            "--[===[ uuu ]] ]==] ]===]"
        ],
    );
    assert_eq!(
        lua_parts(".5 ..5 ...5 3.0 53e6 1.4e-2-0xabc+1"),
        [".5", "..", "5", "...", "5", "3.0", "53e6", "1.4e-2", "-", "0xabc", "+", "1"],
    );
    check_lua("  ", 1, &[""], 0);
    check_lua("one two", 0, &["one", "two"], 0);
    check_lua("one two", 3, &["one", "two"], 0);
    check_lua("one two", 4, &["one", "two"], 1);
    check_lua("one two", 6, &["one", "two"], 1);
    check_lua("one two", 7, &["one", "two"], 1);
    check_lua(" one two", 0, &["", "one", "two"], 0);
    check_lua("one  two", 4, &["one", "", "two"], 1);
    check_lua("one two ", 8, &["one", "two", ""], 2);
}

#[test]
fn lua_split_finishes_on_unclosed_long_brackets() {
    assert!(lua_tokens_try_split("a ~ b", None).is_some());
    assert!(lua_tokens_try_split("x = [[never closed", None).is_some());
    assert_eq!(lua_parts("x = [[never closed"), vec!["x", "=", "[[never closed"]);
    assert_eq!(lua_parts("a --[==[ open ]] comment"), vec!["a", "--[==[ open ]] comment"]);
    assert_eq!(lua_parts("x = [[closed]] y"), vec!["x", "=", "[[closed]]", "y"]);
}

#[test]
fn lua_split_counts_point_in_bytes() {
    // 'é' takes two bytes: byte 3 is right after "aé"
    let r = lua_tokens_split("aé b", Some(3));
    assert_eq!(r.parts, ["aé", "b"]);
    assert_eq!(r.in_part, Some(0));
    let r = lua_tokens_split("aé b", Some(4));
    assert_eq!(r.in_part, Some(1));
}

#[test]
fn shell_split_escapes_in_double_quotes() {
    assert_eq!(shell_parts(r#""a\tb\ec""#), ["a\tb\x1bc"]);
    assert_eq!(shell_parts(r#"x\ y"#), ["x y"]);
}

#[test]
fn lua_strings_keep_their_quotes() {
    assert_eq!(lua_parts("s = \"a b\""), vec!["s", "=", "\"a b\""]);
    assert_eq!(lua_parts("x('it''s', \"q\\\"d\")"), vec!["x", "(", "'it'", "'s'", ",", "\"q\\\"d\"", ")"]);
    // an unclosed string runs to the end of the line
    assert_eq!(lua_parts("print('open"), vec!["print", "(", "'open"]);
}

#[test]
fn lua_tilde_runs_are_tokens() {
    assert_eq!(lua_parts("a ~= b"), vec!["a", "~=", "b"]);
    assert_eq!(lua_parts("~"), vec!["~"]);
    // a run of unexpected characters goes on to the next letter, digit or
    // Lua punctuation, white space included
    assert_eq!(lua_parts("a ~ b"), vec!["a", "~ ", "b"]);
    assert_eq!(lua_parts("@ x"), vec!["@ ", "x"]);
}

#[test]
fn lua_split_point_and_blank() {
    assert!(lua_parts("").is_empty());
    assert!(lua_parts("  \t ").is_empty());
    let r = lua_tokens_split("a ~= b", Some(3));
    assert_eq!(r.in_part, Some(1));
    assert!(lua_tokens_split("a b", None).in_part.is_none());
}
