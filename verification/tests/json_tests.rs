use treest::json::{lex, Index, Json2, Value};

fn show(v: &Value) -> String {
    match v {
        Value::Null => "null".to_string(),
        Value::Boolean(b) => b.to_string(),
        Value::Number(n) => format!("#{n}"),
        Value::String(s) => format!("'{s}'"),
        Value::Array(a) => format!("[{}]", a.iter().map(show).collect::<Vec<_>>().join(",")),
        Value::Object(o) => format!(
            "{{{}}}",
            o.iter().map(|(k, v)| format!("{k}={}", show(v))).collect::<Vec<_>>().join(",")
        ),
    }
}

fn read(text: &str) -> Result<String, usize> {
    Json2::new(text.as_bytes()).map(|j| show(&j.0))
}

#[test]
fn reads_nested_values() {
    assert_eq!(
        read(r#"{"a": [1, true, null], "b": "x\"y", "c": {}}"#),
        Ok(r#"{a=[#1,true,null],b='x\"y',c={}}"#.to_string())
    );
    assert_eq!(read(" [ ] "), Ok("[]".to_string()));
    assert_eq!(read("false"), Ok("false".to_string()));
}

#[test]
fn reports_where_it_went_wrong() {
    assert_eq!(read("[1 2]"), Err(3));
    assert_eq!(read("{\"k\" 1}"), Err(5));
    assert_eq!(read("{,}"), Err(1));
    assert_eq!(read("[1,"), Err(usize::MAX));
    assert_eq!(read(""), Err(usize::MAX));
    assert_eq!(read("]"), Err(0));
    assert_eq!(read("{\"a\":1,}"), Err(7));
}

#[test]
fn keywords_cut_short_by_the_end_still_count() {
    assert_eq!(read("nul"), Ok("null".to_string()));
    assert_eq!(read("tx"), Err(0));
    assert_eq!(read("1 junk"), Ok("#1".to_string()));
}

#[test]
fn tokens_and_positions() {
    let toks = lex(b" {\"k\":12}");
    let kinds: Vec<String> = toks.iter().map(|(p, t)| format!("{p}:{t:?}")).collect();
    assert_eq!(
        kinds,
        vec!["1:OpenBrace", "2:Str([107])", "5:Colon", "6:Number([49, 50])", "8:CloseBrace"]
    );
}

#[test]
fn strings_that_are_not_utf8_stop_the_reading() {
    assert!(Json2::try_new(b"[\"\xff\"]").is_none());
    assert!(Json2::try_new(b"[1] \"\xff\"").is_some());
    // the bad string is read even where it does not fit
    assert!(Json2::try_new(b"[1 \"\xff\"]").is_none());
    assert_eq!(Json2::try_new(b"[1 x \"\xff\"]").map(|r| r.map(|j| show(&j.0))), Some(Err(3)));
}

#[test]
fn children_and_index_names() {
    let doc = Json2::new(br#"{"a b": [7], "ok_1": null}"#).ok().unwrap();
    let ch = doc.0.children();
    let names: Vec<String> = ch.iter().map(|(ix, _)| ix.to_string()).collect();
    assert_eq!(names, vec!["['a b']".to_string(), ".ok_1".to_string()]);
    let items = ch[0].1.children();
    assert_eq!(items[0].0.to_string(), "[0]");
    assert_eq!(Index::Root.to_string(), "$");
    assert_eq!(Index::Key("9x".to_string()).to_string(), "['9x']");
}
