use treest::options::{guess, is_provider, ArgParse, Options, OptionsError, ParseAction};

fn defaults() -> Options {
    Options {
        provider_arg: ".".to_string(),
        provider_name: "fs".to_string(),
        user_script: None,
    }
}

fn feed_all(p: &mut ArgParse, args: &[&str]) -> Vec<ParseAction> {
    args.iter().map(|a| p.feed(a.to_string())).collect()
}

#[test]
fn providers_and_guesses() {
    assert!(is_provider("fs") && is_provider("json") && is_provider("scratch"));
    assert!(!is_provider("sql"));
    assert_eq!(guess("some/dir", true), Some("fs".to_string()));
    assert_eq!(guess("data.json", false), Some("json".to_string()));
    assert_eq!(guess("data.txt", false), None);
}

#[test]
fn positional_arguments() {
    let mut p = ArgParse::new(defaults());
    let acts = feed_all(&mut p, &["thing.json"]);
    assert!(matches!(acts[0], ParseAction::Next));
    assert!(matches!(p.end_of_args(), ParseAction::Next));
    let o = p.finish(false).ok().unwrap();
    assert_eq!(o.provider_arg, "thing.json");
    assert_eq!(o.provider_name, "json");

    let mut p = ArgParse::new(defaults());
    feed_all(&mut p, &["x", "scratch"]);
    let o = p.finish(false).ok().unwrap();
    assert_eq!((o.provider_arg.as_str(), o.provider_name.as_str()), ("x", "scratch"));

    let mut p = ArgParse::new(defaults());
    feed_all(&mut p, &["x"]);
    assert!(matches!(p.finish(false), Err(OptionsError::ProviderNeeded)));

    // no positional argument: the defaults stay
    let p = ArgParse::new(defaults());
    let o = p.finish(false).ok().unwrap();
    assert_eq!((o.provider_arg.as_str(), o.provider_name.as_str()), (".", "fs"));
}

#[test]
fn dashes() {
    let mut p = ArgParse::new(defaults());
    feed_all(&mut p, &["-", "scratch"]);
    let o = p.finish(false).ok().unwrap();
    assert_eq!(o.provider_arg, "");

    let mut p = ArgParse::new(defaults());
    feed_all(&mut p, &["--", "--help", "scratch"]);
    let o = p.finish(false).ok().unwrap();
    assert_eq!(o.provider_arg, "--help");

    let mut p = ArgParse::new(defaults());
    feed_all(&mut p, &["--"]);
    assert!(matches!(p.end_of_args(), ParseAction::Next));
    assert_eq!(p.options.provider_arg, "");
}

#[test]
fn refusals() {
    let mut p = ArgParse::new(defaults());
    let acts = feed_all(&mut p, &["x", "nope"]);
    assert!(matches!(&acts[1], ParseAction::Fail(OptionsError::NotProvider(n)) if n == "nope"));

    let mut p = ArgParse::new(defaults());
    let acts = feed_all(&mut p, &["x", "fs", "more"]);
    assert!(matches!(&acts[2], ParseAction::Fail(OptionsError::UnexpectedArg(a)) if a == "more"));

    let mut p = ArgParse::new(defaults());
    feed_all(&mut p, &["--user"]);
    assert!(matches!(p.end_of_args(), ParseAction::Fail(OptionsError::UserArgMissing)));
}

#[test]
fn actions() {
    let mut p = ArgParse::new(defaults());
    assert!(matches!(p.feed("-h".to_string()), ParseAction::Help));
    assert!(matches!(p.feed("--list".to_string()), ParseAction::List));
    assert!(matches!(p.feed("--lua-meta".to_string()), ParseAction::Next));
    assert!(matches!(p.end_of_args(), ParseAction::LuaMeta(f) if f == "-"));

    let mut p = ArgParse::new(defaults());
    feed_all(&mut p, &["--defaults"]);
    assert!(matches!(p.feed("out.lua".to_string()), ParseAction::Defaults(f) if f == "out.lua"));

    let mut p = ArgParse::new(defaults());
    let acts = feed_all(&mut p, &["-u", "conf.lua"]);
    let user = match &acts[1] {
        ParseAction::CheckUser(u) => u.clone(),
        _ => panic!("the user script is to be checked"),
    };
    assert_eq!(user, "conf.lua");
    assert!(matches!(p.user_checked("missing.lua".to_string(), false), Some(OptionsError::UserNotFile(f)) if f == "missing.lua"));
    assert!(p.user_checked(user, true).is_none());
    assert_eq!(p.options.user_script, Some("conf.lua".to_string()));
}
