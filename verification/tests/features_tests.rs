use treest::features::Options;

fn msg(r: (Option<String>, Option<String>)) -> Option<String> {
    assert!(r.1.is_none());
    r.0
}

#[test]
fn options_start_on() {
    let o = Options::default();
    assert!(o.mouse && o.altscreen && o.pretty && o.onlychild);
}

#[test]
fn query_set_and_toggle() {
    let mut o = Options::default();
    assert_eq!(msg(o.update("mouse?")), Some("mouse".to_string()));
    assert_eq!(o.update("nomouse"), (None, Some("\x1b[?1000l".to_string())));
    assert!(!o.mouse);
    assert_eq!(msg(o.update("mouse?")), Some("nomouse".to_string()));
    // already unset: nothing happens
    assert_eq!(o.update("nomouse"), (None, None));
    assert_eq!(o.update("mouse!"), (None, Some("\x1b[?1000h".to_string())));
    assert!(o.mouse);
    assert_eq!(o.update("alts!"), (None, Some("\x1b[?1049l".to_string())));
    assert!(!o.altscreen);
    assert_eq!(o.update("altscreen"), (None, Some("\x1b[?1049h".to_string())));
    assert_eq!(msg(o.update("noalts?")), Some("altscreen".to_string()));
}

#[test]
fn unimplemented_and_unknown() {
    let mut o = Options::default();
    assert_eq!(o.update("pretty"), (None, None));
    assert_eq!(msg(o.update("nopretty")), Some("NIY: pretty".to_string()));
    assert!(!o.pretty);
    assert_eq!(msg(o.update("onchl!")), Some("NIY: onlychild".to_string()));
    assert!(!o.onlychild);
    assert_eq!(msg(o.update("foo=1")), Some("unknown option: foo".to_string()));
    assert_eq!(msg(o.update("nobar?")), Some("unknown option: bar".to_string()));
}
