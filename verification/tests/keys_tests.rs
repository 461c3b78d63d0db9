use treest::keys::{Key, KeyCode, Mods};

fn mods(shift: bool, alt: bool, control: bool) -> Mods {
    Mods { shift, alt, control }
}

fn key(kch: KeyCode, kmod: Mods) -> Key {
    Key { kch, kmod }
}

#[test]
fn plain_characters() {
    assert_eq!(Key::from_str("a"), Ok(key(KeyCode::Char('a'), mods(false, false, false))));
    assert_eq!(Key::from_str("A"), Ok(key(KeyCode::Char('A'), mods(true, false, false))));
    assert_eq!(Key::from_str("abc"), Ok(Key::from('a')));
    assert_eq!(Key::from('Z').kmod, mods(true, false, false));
    assert_eq!(Key::from('z').kmod, mods(false, false, false));
}

#[test]
fn bracketed_names_and_modifiers() {
    assert_eq!(Key::from_str("<C-a>"), Ok(key(KeyCode::Char('a'), mods(false, false, true))));
    assert_eq!(Key::from_str("<S-A-tab>"), Ok(key(KeyCode::Tab, mods(true, true, false))));
    assert_eq!(Key::from_str("<space>"), Ok(key(KeyCode::Char(' '), mods(false, false, false))));
    assert_eq!(Key::from_str("<lt>"), Ok(key(KeyCode::Char('<'), mods(false, false, false))));
    assert_eq!(Key::from_str("<C-gt>"), Ok(key(KeyCode::Char('>'), mods(false, false, true))));
    assert_eq!(Key::from_str("<pagedown"), Ok(key(KeyCode::PageDown, mods(false, false, false))));
    assert_eq!(Key::from_str("<C-F12>"), Ok(key(KeyCode::F(12), mods(false, false, true))));
}

#[test]
fn function_keys() {
    assert_eq!(Key::from_str("F5"), Ok(key(KeyCode::F(5), mods(false, false, false))));
    assert_eq!(Key::from_str("F+7"), Ok(key(KeyCode::F(7), mods(false, false, false))));
    assert_eq!(Key::from_str("F"), Ok(key(KeyCode::Char('F'), mods(true, false, false))));
}

#[test]
fn refused_names() {
    assert_eq!(Key::from_str(""), Err(()));
    assert_eq!(Key::from_str("<foo>"), Err(()));
    assert_eq!(Key::from_str("<C>"), Err(()));
    assert_eq!(Key::from_str("<C-S>"), Err(()));
    assert_eq!(Key::from_str("<>"), Err(()));
}

#[test]
fn written_forms() {
    assert_eq!(key(KeyCode::Char('a'), mods(false, false, false)).to_string(), "a");
    assert_eq!(key(KeyCode::Char('A'), mods(true, false, false)).to_string(), "A");
    assert_eq!(key(KeyCode::Char('a'), mods(true, true, true)).to_string(), "<S-A-C-a>");
    assert_eq!(key(KeyCode::Char(' '), mods(false, false, false)).to_string(), "<space>");
    assert_eq!(key(KeyCode::F(10), mods(false, false, false)).to_string(), "F10");
    assert_eq!(key(KeyCode::F(3), mods(false, true, false)).to_string(), "<A-F3>");
    assert_eq!(key(KeyCode::Enter, mods(false, false, false)).to_string(), "<enter>");
    assert_eq!(key(KeyCode::Esc, mods(false, false, true)).to_string(), "<C->");
    assert_eq!(key(KeyCode::Char('S'), mods(true, false, true)).to_string(), "<C-S>");
}

#[test]
fn written_keys_read_back() {
    let keys = [
        key(KeyCode::Char('q'), mods(false, false, false)),
        key(KeyCode::Char('Q'), mods(true, false, false)),
        key(KeyCode::Char('x'), mods(false, true, true)),
        key(KeyCode::Char('<'), mods(false, false, false)),
        key(KeyCode::Char('é'), mods(false, false, false)),
        key(KeyCode::F(255), mods(false, false, false)),
        key(KeyCode::F(0), mods(true, false, true)),
        key(KeyCode::Backspace, mods(false, false, false)),
        key(KeyCode::Home, mods(true, true, true)),
        key(KeyCode::Insert, mods(false, true, false)),
    ];
    for k in keys {
        assert_eq!(Key::from_str(&k.to_string()), Ok(k), "{k:?}");
    }
}
