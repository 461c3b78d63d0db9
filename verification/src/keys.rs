use vstd::prelude::*;
use crate::readline::{blen, dec, digit, push_dec, same_chars};
use crate::text::{chars_of, string_of};

verus! {

/// A key, as the terminal reports it.
#[derive(Clone, Copy, PartialEq, Eq, Structural, Debug)]
pub enum KeyCode {
    Backspace,
    Enter,
    Left,
    Right,
    Up,
    Down,
    Home,
    End,
    PageUp,
    PageDown,
    Tab,
    BackTab,
    Delete,
    Insert,
    F(u8),
    Char(char),
    Null,
    Esc,
    CapsLock,
    ScrollLock,
    NumLock,
    PrintScreen,
    Pause,
    Menu,
    KeypadBegin,
}

/// The modifiers held with a key.
#[derive(Clone, Copy, PartialEq, Eq, Structural, Debug)]
pub struct Mods {
    pub shift: bool,
    pub alt: bool,
    pub control: bool,
}

/// A key with its modifiers, as bindings name them.
#[derive(Clone, Copy, PartialEq, Eq, Structural, Debug)]
pub struct Key {
    pub kch: KeyCode,
    pub kmod: Mods,
}

/// No modifier.
pub open spec fn no_mods() -> Mods {
    Mods { shift: false, alt: false, control: false }
}

/// An ASCII capital letter.
pub open spec fn is_upper(c: char) -> bool {
    'A' <= c && c <= 'Z'
}

/// The key that types `c`: with shift for a capital letter.
pub open spec fn key_of_char(c: char) -> Key {
    Key { kch: KeyCode::Char(c), kmod: Mods { shift: is_upper(c), alt: false, control: false } }
}

impl From<char> for Key {
    fn from(c: char) -> (k: Key) {
        Key {
            kch: KeyCode::Char(c),
            kmod: Mods { shift: 'A' <= c && c <= 'Z', alt: false, control: false },
        }
    }
}

impl vstd::std_specs::convert::FromSpecImpl<char> for Key {
    open spec fn obeys_from_spec() -> bool {
        true
    }

    open spec fn from_spec(c: char) -> Key {
        key_of_char(c)
    }
}

/// The name of a key in a binding: a few characters by name, an F key by
/// its number, the other keys by name (none for the keys not named).
pub open spec fn name_text(kc: KeyCode) -> Seq<char> {
    match kc {
        KeyCode::Char(c) => if c == ' ' {
            seq!['s', 'p', 'a', 'c', 'e']
        } else if c == '<' {
            seq!['l', 't']
        } else if c == '>' {
            seq!['g', 't']
        } else {
            seq![c]
        },
        KeyCode::F(n) => seq!['F'] + dec(n as nat),
        KeyCode::Backspace => seq!['b', 'a', 'c', 'k', 's', 'p', 'a', 'c', 'e'],
        KeyCode::Enter => seq!['e', 'n', 't', 'e', 'r'],
        KeyCode::Left => seq!['l', 'e', 'f', 't'],
        KeyCode::Right => seq!['r', 'i', 'g', 'h', 't'],
        KeyCode::Up => seq!['u', 'p'],
        KeyCode::Down => seq!['d', 'o', 'w', 'n'],
        KeyCode::Home => seq!['h', 'o', 'm', 'e'],
        KeyCode::End => seq!['e', 'n', 'd'],
        KeyCode::PageUp => seq!['p', 'a', 'g', 'e', 'u', 'p'],
        KeyCode::PageDown => seq!['p', 'a', 'g', 'e', 'd', 'o', 'w', 'n'],
        KeyCode::Tab => seq!['t', 'a', 'b'],
        KeyCode::Delete => seq!['d', 'e', 'l', 'e', 't', 'e'],
        KeyCode::Insert => seq!['i', 'n', 's', 'e', 'r', 't'],
        _ => Seq::empty(),
    }
}

/// The shift is written: held, and not already told by a capital letter.
pub open spec fn shift_shown(k: Key) -> bool {
    k.kmod.shift && !(k.kch matches KeyCode::Char(c) && is_upper(c))
}

/// The modifiers as written: `S-`, `A-`, `C-`, in that order.
pub open spec fn mods_text(k: Key) -> Seq<char> {
    (if shift_shown(k) {
        seq!['S', '-']
    } else {
        Seq::empty()
    }) + (if k.kmod.alt {
        seq!['A', '-']
    } else {
        Seq::empty()
    }) + (if k.kmod.control {
        seq!['C', '-']
    } else {
        Seq::empty()
    })
}

/// Whether the key is written between `<` and `>`: with a modifier written,
/// or when named rather than typed (space, `<`, `>`, keys other than
/// characters and F keys).
pub open spec fn bracketed(k: Key) -> bool {
    ||| shift_shown(k)
    ||| k.kmod.alt
    ||| k.kmod.control
    ||| !(k.kch is Char || k.kch is F)
    ||| (k.kch matches KeyCode::Char(c) && (c == ' ' || c == '<' || c == '>'))
}

/// How a key is written in bindings.
pub open spec fn key_text(k: Key) -> Seq<char> {
    if bracketed(k) {
        seq!['<'] + mods_text(k) + name_text(k.kch) + seq!['>']
    } else {
        name_text(k.kch)
    }
}

/// Append `name_text(kc)` to `out`.
fn push_name(out: &mut Vec<char>, kc: KeyCode)
    ensures
        final(out)@ == old(out)@ + name_text(kc),
{
    let ghost before = out@;
    match kc {
        KeyCode::Char(c) => {
            if c == ' ' {
                out.push('s');
                out.push('p');
                out.push('a');
                out.push('c');
                out.push('e');
            } else if c == '<' {
                out.push('l');
                out.push('t');
            } else if c == '>' {
                out.push('g');
                out.push('t');
            } else {
                out.push(c);
            }
        },
        KeyCode::F(n) => {
            out.push('F');
            push_dec(out, n as usize);
        },
        KeyCode::Backspace => {
            out.push('b');
            out.push('a');
            out.push('c');
            out.push('k');
            out.push('s');
            out.push('p');
            out.push('a');
            out.push('c');
            out.push('e');
        },
        KeyCode::Enter => {
            out.push('e');
            out.push('n');
            out.push('t');
            out.push('e');
            out.push('r');
        },
        KeyCode::Left => {
            out.push('l');
            out.push('e');
            out.push('f');
            out.push('t');
        },
        KeyCode::Right => {
            out.push('r');
            out.push('i');
            out.push('g');
            out.push('h');
            out.push('t');
        },
        KeyCode::Up => {
            out.push('u');
            out.push('p');
        },
        KeyCode::Down => {
            out.push('d');
            out.push('o');
            out.push('w');
            out.push('n');
        },
        KeyCode::Home => {
            out.push('h');
            out.push('o');
            out.push('m');
            out.push('e');
        },
        KeyCode::End => {
            out.push('e');
            out.push('n');
            out.push('d');
        },
        KeyCode::PageUp => {
            out.push('p');
            out.push('a');
            out.push('g');
            out.push('e');
            out.push('u');
            out.push('p');
        },
        KeyCode::PageDown => {
            out.push('p');
            out.push('a');
            out.push('g');
            out.push('e');
            out.push('d');
            out.push('o');
            out.push('w');
            out.push('n');
        },
        KeyCode::Tab => {
            out.push('t');
            out.push('a');
            out.push('b');
        },
        KeyCode::Delete => {
            out.push('d');
            out.push('e');
            out.push('l');
            out.push('e');
            out.push('t');
            out.push('e');
        },
        KeyCode::Insert => {
            out.push('i');
            out.push('n');
            out.push('s');
            out.push('e');
            out.push('r');
            out.push('t');
        },
        _ => {},
    }
    assert(out@ =~= before + name_text(kc));
}

impl Key {
    /// How the key is written in bindings (see `key_text`), for instance
    /// `a`, `A`, `F5`, `<C-x>`, `<S-A-tab>` or `<space>`.
    pub fn to_string(&self) -> (s: String)
        ensures
            s@ == key_text(*self),
    {
        let k = *self;
        let mut out: Vec<char> = Vec::new();
        let upper_char = match k.kch {
            KeyCode::Char(c) => 'A' <= c && c <= 'Z',
            _ => false,
        };
        let shift = k.kmod.shift && !upper_char;
        let named = match k.kch {
            KeyCode::Char(c) => c == ' ' || c == '<' || c == '>',
            KeyCode::F(_) => false,
            _ => true,
        };
        let br = shift || k.kmod.alt || k.kmod.control || named;
        if br {
            out.push('<');
            if shift {
                out.push('S');
                out.push('-');
            }
            if k.kmod.alt {
                out.push('A');
                out.push('-');
            }
            if k.kmod.control {
                out.push('C');
                out.push('-');
            }
        }
        let ghost head = out@;
        push_name(&mut out, k.kch);
        if br {
            out.push('>');
        }
        proof {
            if br {
                assert(head =~= seq!['<'] + mods_text(k));
                assert(out@ =~= seq!['<'] + mods_text(k) + name_text(k.kch) + seq!['>']);
            } else {
                assert(out@ =~= name_text(k.kch));
            }
        }
        string_of(out.as_slice())
    }
}


/// The value of the decimal digits `t`.
pub open spec fn digits_value(t: Seq<char>) -> int
    decreases t.len(),
{
    if t.len() == 0 {
        0
    } else {
        digits_value(t.drop_last()) * 10 + (t.last() as int - 48)
    }
}

/// Every character of `t` is an ASCII digit.
pub open spec fn all_digits(t: Seq<char>) -> bool {
    forall|i: int| 0 <= i < t.len() ==> '0' <= #[trigger] t[i] && t[i] <= '9'
}

/// What `u8::from_str` makes of `t`: an optional `+`, then at least one
/// digit, the value at most 255.
pub open spec fn u8_of(t: Seq<char>) -> Option<u8> {
    let d = if t.len() > 0 && t[0] == '+' {
        t.drop_first()
    } else {
        t
    };
    if d.len() > 0 && all_digits(d) && digits_value(d) <= 255 {
        Some(digits_value(d) as u8)
    } else {
        None
    }
}

proof fn lemma_digits_value_nonneg(t: Seq<char>)
    requires
        all_digits(t),
    ensures
        digits_value(t) >= 0,
    decreases t.len(),
{
    if t.len() > 0 {
        assert(all_digits(t.drop_last()));
        lemma_digits_value_nonneg(t.drop_last());
        assert('0' <= t[t.len() - 1]);
    }
}

/// `u8_of` computed.
fn parse_u8(t: &[char]) -> (r: Option<u8>)
    ensures
        r == u8_of(t@),
{
    let mut i: usize = 0;
    if t.len() > 0 && t[0] == '+' {
        i = 1;
    }
    let ghost d = if t@.len() > 0 && t@[0] == '+' {
        t@.drop_first()
    } else {
        t@
    };
    assert(d =~= t@.subrange(i as int, t@.len() as int));
    if i >= t.len() {
        return None;
    }
    let mut acc: u32 = 0;
    let mut big = false;
    let start = i;
    while i < t.len()
        invariant
            start <= i <= t@.len(),
            d == t@.subrange(start as int, t@.len() as int),
            d == (if t@.len() > 0 && t@[0] == '+' {
                t@.drop_first()
            } else {
                t@
            }),
            all_digits(t@.subrange(start as int, i as int)),
            big ==> digits_value(t@.subrange(start as int, i as int)) > 255,
            !big ==> acc == digits_value(t@.subrange(start as int, i as int)) && acc <= 255,
        decreases t@.len() - i,
    {
        let c = t[i];
        if !('0' <= c && c <= '9') {
            assert(!all_digits(d)) by {
                assert(d[i - start] == c);
            }
            return None;
        }
        let ghost pre = t@.subrange(start as int, i as int);
        let ghost next = t@.subrange(start as int, i + 1);
        assert(next.drop_last() =~= pre);
        assert(all_digits(next));
        proof {
            lemma_digits_value_nonneg(pre);
        }
        let v: u32 = (c as u32) - 48;
        if !big {
            let n = acc * 10 + v;
            if n > 255 {
                big = true;
            } else {
                acc = n;
            }
        }
        i += 1;
    }
    assert(t@.subrange(start as int, i as int) =~= d);
    if big {
        None
    } else {
        Some(acc as u8)
    }
}

/// `m` with the modifier that `c` (`S`, `A` or `C`) names.
pub open spec fn with_mod(m: Mods, c: char) -> Mods {
    if c == 'S' {
        Mods { shift: true, ..m }
    } else if c == 'A' {
        Mods { alt: true, ..m }
    } else {
        Mods { control: true, ..m }
    }
}

/// Read modifiers `S-`, `A-`, `C-` at the start of `t` on top of `m`: the
/// modifiers and what follows them, or nothing when a modifier letter is
/// not followed by `-`.
pub open spec fn mods_of(t: Seq<char>, m: Mods) -> Option<(Mods, Seq<char>)>
    decreases t.len(),
{
    if t.len() > 0 && (t[0] == 'S' || t[0] == 'A' || t[0] == 'C') {
        if t.len() > 1 && t[1] == '-' {
            mods_of(t.subrange(2, t.len() as int), with_mod(m, t[0]))
        } else {
            None
        }
    } else {
        Some((m, t))
    }
}

/// `t` up to its first `>`.
pub open spec fn until_gt(t: Seq<char>) -> Seq<char>
    decreases t.len(),
{
    if t.len() == 0 || t[0] == '>' {
        Seq::empty()
    } else {
        seq![t[0]] + until_gt(t.drop_first())
    }
}

/// The key a name between `<` and `>` stands for: one byte is that
/// character; `F` and more is an F key (the rest its number); else one of
/// the names of `name_text`.
pub open spec fn name_key(h: Seq<char>) -> Option<KeyCode> {
    if blen(h) == 1 {
        Some(KeyCode::Char(h[0]))
    } else if blen(h) > 1 && h[0] == 'F' {
        Some(KeyCode::F(u8_of(h.drop_first())->0))
    } else if exists|kc: KeyCode| is_named(kc) && #[trigger] name_text(kc) == h {
        Some(choose|kc: KeyCode| is_named(kc) && #[trigger] name_text(kc) == h)
    } else {
        None
    }
}

/// The keys read back by name: space, `<`, `>`, and the keys that are not
/// characters, F keys or unnamed.
pub open spec fn is_named(kc: KeyCode) -> bool {
    match kc {
        KeyCode::Char(c) => c == ' ' || c == '<' || c == '>',
        KeyCode::F(_) => false,
        _ => name_text(kc).len() > 0,
    }
}

/// The key that `s` names in a binding: `<`, modifiers and a name (up to
/// `>`); `F` and a number, or `F` alone; else its first character.
pub open spec fn key_of(s: Seq<char>) -> Option<Key> {
    if s.len() == 0 {
        None
    } else if s[0] == '<' {
        match mods_of(s.drop_first(), no_mods()) {
            Some((m, rest)) => match name_key(until_gt(rest)) {
                Some(kc) => Some(Key { kch: kc, kmod: m }),
                None => None,
            },
            None => None,
        }
    } else if s[0] == 'F' {
        if s.len() == 1 {
            Some(key_of_char('F'))
        } else {
            Some(Key { kch: KeyCode::F(u8_of(s.drop_first())->0), kmod: no_mods() })
        }
    } else {
        Some(key_of_char(s[0]))
    }
}

/// Reading `s` would stop on an F key number that is not one (a panic).
pub open spec fn key_parse_panics(s: Seq<char>) -> bool {
    ||| (s.len() > 0 && s[0] == '<' && (mods_of(s.drop_first(), no_mods()) matches Some((m, rest)) && {
        let h = until_gt(rest);
        blen(h) > 1 && h[0] == 'F' && u8_of(h.drop_first()) is None
    }))
    ||| (s.len() > 1 && s[0] == 'F' && u8_of(s.drop_first()) is None)
}

proof fn lemma_until_gt(t: Seq<char>, j: int)
    requires
        0 <= j <= t.len(),
        forall|k: int| 0 <= k < j ==> t[k] != '>',
        j == t.len() || t[j] == '>',
    ensures
        until_gt(t) == t.subrange(0, j),
    decreases j,
{
    if j > 0 {
        lemma_until_gt(t.drop_first(), j - 1);
        assert(t.subrange(0, j) =~= seq![t[0]] + t.drop_first().subrange(0, j - 1));
    } else {
        assert(t.subrange(0, j) =~= Seq::<char>::empty());
    }
}

/// The keys that `name_key` reads back by name, in turn.
fn named_key(h: &[char]) -> (r: Option<KeyCode>)
    ensures
        r matches Some(kc) ==> is_named(kc) && name_text(kc) == h@,
        r is None ==> !exists|kc: KeyCode| is_named(kc) && #[trigger] name_text(kc) == h@,
{
    let all = [
        KeyCode::Char(' '),
        KeyCode::Char('<'),
        KeyCode::Char('>'),
        KeyCode::Backspace,
        KeyCode::Enter,
        KeyCode::Left,
        KeyCode::Right,
        KeyCode::Up,
        KeyCode::Down,
        KeyCode::Home,
        KeyCode::End,
        KeyCode::PageUp,
        KeyCode::PageDown,
        KeyCode::Tab,
        KeyCode::Delete,
        KeyCode::Insert,
    ];
    let mut i: usize = 0;
    while i < 16
        invariant
            0 <= i <= 16,
            all@.len() == 16,
            forall|k: int| 0 <= k < 16 ==> is_named(#[trigger] all@[k]),
            forall|k: int| 0 <= k < i ==> name_text(#[trigger] all@[k]) != h@,
        decreases 16 - i,
    {
        let mut w: Vec<char> = Vec::new();
        push_name(&mut w, all[i]);
        assert(w@ =~= name_text(all@[i as int]));
        if same_chars(w.as_slice(), h) {
            return Some(all[i]);
        }
        i += 1;
    }
    proof {
        assert forall|kc: KeyCode| is_named(kc) implies #[trigger] name_text(kc) != h@ by {
            let k: int = match kc {
                KeyCode::Char(c) => if c == ' ' { 0 } else if c == '<' { 1 } else { 2 },
                KeyCode::Backspace => 3,
                KeyCode::Enter => 4,
                KeyCode::Left => 5,
                KeyCode::Right => 6,
                KeyCode::Up => 7,
                KeyCode::Down => 8,
                KeyCode::Home => 9,
                KeyCode::End => 10,
                KeyCode::PageUp => 11,
                KeyCode::PageDown => 12,
                KeyCode::Tab => 13,
                KeyCode::Delete => 14,
                _ => 15,
            };
            assert(all@[k] == kc);
        }
    }
    None
}

impl Key {
    /// Read the key that `s` names in a binding (see `key_of`).
    pub fn from_str(s: &str) -> (r: Result<Key, ()>)
        requires
            !key_parse_panics(s@),
        ensures
            match key_of(s@) {
                Some(k) => r == Ok::<Key, ()>(k),
                None => r is Err,
            },
    {
        let cs = chars_of(s);
        let n = cs.len();
        if n == 0 {
            return Err(());
        }
        if cs[0] == '<' {
            let mut m = Mods { shift: false, alt: false, control: false };
            let mut i: usize = 1;
            assert(cs@.subrange(1, n as int) =~= cs@.drop_first());
            while i < n && (cs[i] == 'S' || cs[i] == 'A' || cs[i] == 'C')
                invariant
                    1 <= i <= n,
                    n == cs@.len(),
                    cs@ == s@,
                    cs@[0] == '<',
                    mods_of(cs@.drop_first(), no_mods()) == mods_of(cs@.subrange(i as int, n as int), m),
                decreases n - i,
            {
                let ghost t = cs@.subrange(i as int, n as int);
                if i + 1 < n && cs[i + 1] == '-' {
                    m = if cs[i] == 'S' {
                        Mods { shift: true, ..m }
                    } else if cs[i] == 'A' {
                        Mods { alt: true, ..m }
                    } else {
                        Mods { control: true, ..m }
                    };
                    assert(t.subrange(2, t.len() as int) =~= cs@.subrange(i + 2, n as int));
                    i += 2;
                } else {
                    proof {
                        assert(t[0] == cs@[i as int]);
                        assert(t.len() > 1 ==> t[1] == cs@[i + 1]);
                        assert(mods_of(t, m) is None);
                    }
                    return Err(());
                }
            }
            let mut j: usize = i;
            while j < n && cs[j] != '>'
                invariant
                    i <= j <= n,
                    n == cs@.len(),
                    forall|k: int| i <= k < j ==> cs@[k] != '>',
                decreases n - j,
            {
                j += 1;
            }
            let name = cs.as_slice().split_at(j).0.split_at(i).1;
            proof {
                let rest = cs@.subrange(i as int, n as int);
                lemma_until_gt(rest, j - i);
                assert(name@ =~= rest.subrange(0, j - i));
            }
            let b = string_of(name).as_str().as_bytes().len();
            let kc = if b == 1 {
                KeyCode::Char(name[0])
            } else if b > 1 && name[0] == 'F' {
                let rest = name.split_at(1).1;
                assert(rest@ =~= name@.drop_first());
                match parse_u8(rest) {
                    Some(v) => KeyCode::F(v),
                    None => vstd::pervasive::unreached(),
                }
            } else {
                match named_key(name) {
                    Some(kc) => kc,
                    None => {
                        proof {
                            let rest = cs@.subrange(i as int, n as int);
                            assert(mods_of(rest, m) == Some((m, rest)));
                            assert(mods_of(s@.drop_first(), no_mods()) == Some((m, rest)));
                            assert(until_gt(rest) == name@);
                            assert(b == blen(name@));
                            assert(name_key(name@) is None);
                        }
                        return Err(());
                    },
                }
            };
            proof {
                if b != 1 && !(b > 1 && name@[0] == 'F') {
                    let w = choose|w: KeyCode| is_named(w) && #[trigger] name_text(w) == name@;
                    assert(is_named(kc) && name_text(kc) == name@);
                    assert(name_text(w) == name_text(kc));
                    assert(w == kc) by {
                        lemma_name_text_injective(w, kc);
                    }
                }
            }
            return Ok(Key { kch: kc, kmod: m });
        }
        if cs[0] == 'F' {
            if n == 1 {
                return Ok(Key::from('F'));
            }
            let rest = cs.as_slice().split_at(1).1;
            assert(rest@ =~= cs@.drop_first());
            return match parse_u8(rest) {
                Some(v) => Ok(Key { kch: KeyCode::F(v), kmod: Mods { shift: false, alt: false, control: false } }),
                None => vstd::pervasive::unreached(),
            };
        }
        Ok(Key::from(cs[0]))
    }
}

/// Two named keys with the same name are the same key.
proof fn lemma_name_text_injective(a: KeyCode, b: KeyCode)
    requires
        is_named(a),
        is_named(b),
        name_text(a) == name_text(b),
    ensures
        a == b,
{
    let ta = name_text(a);
    let tb = name_text(b);
    assert(ta.len() == tb.len());
    if ta.len() > 0 {
        assert(ta[0] == tb[0]);
    }
    if ta.len() > 1 {
        assert(ta[1] == tb[1]);
    }
    if ta.len() > 4 {
        assert(ta[4] == tb[4]);
    }
}


/// The keys whose written form reads back as themselves: F keys, named
/// keys, capital letters with shift alone, and other characters without a
/// modifier, named by `name_text`, or ASCII.
pub open spec fn round_trips(k: Key) -> bool {
    match k.kch {
        KeyCode::Char(c) => if is_upper(c) {
            k.kmod == Mods { shift: true, alt: false, control: false }
        } else {
            !(k.kmod.shift || k.kmod.alt || k.kmod.control) || c == ' ' || c == '<' || c == '>' || (c as u32)
                < 0x80
        },
        KeyCode::F(_) => true,
        _ => is_named(k.kch),
    }
}

proof fn lemma_dec_digits(n: nat)
    ensures
        dec(n).len() > 0,
        all_digits(dec(n)),
        digits_value(dec(n)) == n,
    decreases n,
{
    assert(digit(n % 10) as int == 48 + n % 10);
    let t = dec(n);
    if n >= 10 {
        lemma_dec_digits(n / 10);
        assert((n / 10) * 10 + n % 10 == n);
        assert(t.drop_last() =~= dec(n / 10));
        assert(t.last() == digit(n % 10));
        assert(digits_value(t) == digits_value(t.drop_last()) * 10 + (t.last() as int - 48));
        assert(all_digits(t)) by {
            assert forall|i: int| 0 <= i < t.len() implies '0' <= #[trigger] t[i] && t[i] <= '9' by {
                if i < t.len() - 1 {
                    assert(t[i] == dec(n / 10)[i]);
                }
            }
        }
    } else {
        assert(t.drop_last() =~= Seq::<char>::empty());
        assert(digits_value(t) == digits_value(t.drop_last()) * 10 + (t.last() as int - 48));
    }
}

proof fn lemma_u8_of_dec(n: u8)
    ensures
        u8_of(dec(n as nat)) == Some(n),
        forall|i: int| 0 <= i < dec(n as nat).len() ==> #[trigger] dec(n as nat)[i] != '>',
{
    lemma_dec_digits(n as nat);
    let t = dec(n as nat);
    assert(t[0] != '+') by {
        assert('0' <= t[0]);
    }
    assert forall|i: int| 0 <= i < t.len() implies #[trigger] t[i] != '>' by {
        assert(t[i] <= '9');
    }
}

proof fn lemma_mods_text(k: Key, rest: Seq<char>)
    requires
        rest.len() == 0 || !(rest[0] == 'S' || rest[0] == 'A' || rest[0] == 'C'),
    ensures
        mods_of(mods_text(k) + rest, no_mods()) == Some(
            (Mods { shift: shift_shown(k), alt: k.kmod.alt, control: k.kmod.control }, rest),
        ),
{
    let m0 = no_mods();
    let m1 = if shift_shown(k) { with_mod(m0, 'S') } else { m0 };
    let m2 = if k.kmod.alt { with_mod(m1, 'A') } else { m1 };
    let m3 = if k.kmod.control { with_mod(m2, 'C') } else { m2 };
    let t3 = (if k.kmod.control { seq!['C', '-'] } else { Seq::empty() }) + rest;
    let t2 = (if k.kmod.alt { seq!['A', '-'] } else { Seq::empty() }) + t3;
    let t1 = (if shift_shown(k) { seq!['S', '-'] } else { Seq::empty() }) + t2;
    assert(mods_text(k) + rest =~= t1);
    assert(mods_of(rest, m3) == Some((m3, rest)));
    if k.kmod.control {
        assert(t3.subrange(2, t3.len() as int) =~= rest);
    } else {
        assert(t3 =~= rest);
    }
    assert(mods_of(t3, m2) == Some((m3, rest)));
    if k.kmod.alt {
        assert(t2.subrange(2, t2.len() as int) =~= t3);
    } else {
        assert(t2 =~= t3);
    }
    assert(mods_of(t2, m1) == Some((m3, rest)));
    if shift_shown(k) {
        assert(t1.subrange(2, t1.len() as int) =~= t2);
    } else {
        assert(t1 =~= t2);
    }
    assert(mods_of(t1, m0) == Some((m3, rest)));
}

/// Writing a key then reading it back gives the same key, for the keys of
/// `round_trips`; reading never stops on the way.
#[verifier::rlimit(100)]
pub proof fn key_text_round_trip(k: Key)
    requires
        round_trips(k),
    ensures
        !key_parse_panics(key_text(k)),
        key_of(key_text(k)) == Some(k),
{
    let t = key_text(k);
    let name = name_text(k.kch);
    if bracketed(k) {
        let rest = name + seq!['>'];
        assert(t.drop_first() =~= mods_text(k) + rest);
        assert(name.len() > 0) by {
            match k.kch {
                KeyCode::F(n) => {
                    lemma_dec_digits(n as nat);
                },
                _ => {},
            }
        }
        assert(rest[0] == name[0]);
        lemma_mods_text(k, rest);
        assert(k.kmod.shift == shift_shown(k));
        let m = Mods { shift: shift_shown(k), alt: k.kmod.alt, control: k.kmod.control };
        assert(m == k.kmod);
        assert(forall|i: int| 0 <= i < name.len() ==> #[trigger] name[i] != '>') by {
            match k.kch {
                KeyCode::F(n) => {
                    lemma_u8_of_dec(n);
                    assert forall|i: int| 0 <= i < name.len() implies #[trigger] name[i] != '>' by {
                        if i > 0 {
                            assert(name[i] == dec(n as nat)[i - 1]);
                        }
                    }
                },
                _ => {},
            }
        }
        lemma_until_gt(rest, name.len() as int);
        assert(rest.subrange(0, name.len() as int) =~= name);
        crate::readline::lemma_blen_ge_len(name);
        match k.kch {
            KeyCode::Char(c) => {
                if c == ' ' || c == '<' || c == '>' {
                    assert(is_named(k.kch));
                    assert(name_key(name) == Some(k.kch)) by {
                        let w = choose|w: KeyCode| is_named(w) && #[trigger] name_text(w) == name;
                        lemma_name_text_injective(w, k.kch);
                    }
                } else {
                    assert(name =~= seq![c]);
                    assert(blen(name) == 1) by {
                        assert(name.drop_first() =~= Seq::<char>::empty());
                    }
                }
            },
            KeyCode::F(n) => {
                lemma_u8_of_dec(n);
                assert(name.drop_first() =~= dec(n as nat));
            },
            _ => {
                assert(name_key(name) == Some(k.kch)) by {
                    let w = choose|w: KeyCode| is_named(w) && #[trigger] name_text(w) == name;
                    lemma_name_text_injective(w, k.kch);
                }
            },
        }
    } else {
        match k.kch {
            KeyCode::F(n) => {
                lemma_u8_of_dec(n);
                lemma_dec_digits(n as nat);
                assert(t.drop_first() =~= dec(n as nat));
            },
            _ => {},
        }
    }
}

} // verus!
