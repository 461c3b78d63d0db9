use vstd::prelude::*;
use vstd::utf8::{decode_utf8, encode_scalar, encode_utf8, valid_utf8};
use crate::text::{chars_of, string_of};
use vstd::string::StringExecFns;

verus! {

broadcast use vstd::utf8::char_is_scalar;

/// Key names (upper case) that stand for fixed byte sequences, tried before
/// the `C-` and `M-` forms.
pub open spec fn named_keys() -> Seq<(Seq<u8>, Seq<u8>)> {
    seq![
        (seq![0x4eu8, 0x55u8, 0x4cu8], seq![0x00u8]),
        (seq![0x42u8, 0x53u8], seq![0x7fu8]),
        (seq![0x54u8, 0x41u8, 0x42u8], seq![0x09u8]),
        (seq![0x4eu8, 0x4cu8], seq![0x0au8]),
        (seq![0x43u8, 0x52u8], seq![0x0du8]),
        (seq![0x52u8, 0x45u8, 0x54u8, 0x55u8, 0x52u8, 0x4eu8], seq![0x0du8]),
        (seq![0x45u8, 0x4eu8, 0x54u8, 0x45u8, 0x52u8], seq![0x0du8]),
        (seq![0x45u8, 0x53u8, 0x43u8], seq![0x1bu8]),
        (seq![0x45u8, 0x53u8, 0x43u8, 0x41u8, 0x50u8, 0x45u8], seq![0x1bu8]),
        (seq![0x53u8, 0x50u8, 0x41u8, 0x43u8, 0x45u8], seq![0x20u8]),
        (seq![0x4cu8, 0x54u8], seq![0x3cu8]),
        (seq![0x47u8, 0x54u8], seq![0x3eu8]),
        (seq![0x42u8, 0x53u8, 0x4cu8, 0x41u8, 0x53u8, 0x48u8], seq![0x5cu8]),
        (seq![0x42u8, 0x41u8, 0x52u8], seq![0x7cu8]),
        (seq![0x43u8, 0x53u8, 0x49u8], seq![0x1bu8, 0x5bu8]),
        (seq![0x55u8, 0x50u8], seq![0x1bu8, 0x5bu8, 0x41u8]),
        (seq![0x44u8, 0x4fu8, 0x57u8, 0x4eu8], seq![0x1bu8, 0x5bu8, 0x42u8]),
        (seq![0x52u8, 0x49u8, 0x47u8, 0x48u8, 0x54u8], seq![0x1bu8, 0x5bu8, 0x43u8]),
        (seq![0x4cu8, 0x45u8, 0x46u8, 0x54u8], seq![0x1bu8, 0x5bu8, 0x44u8]),
        (seq![0x48u8, 0x4fu8, 0x4du8, 0x45u8], seq![0x1bu8, 0x5bu8, 0x48u8]),
        (seq![0x45u8, 0x4eu8, 0x44u8], seq![0x1bu8, 0x5bu8, 0x46u8]),
        (seq![0x49u8, 0x4eu8, 0x53u8], seq![0x1bu8, 0x5bu8, 0x32u8, 0x7eu8]),
        (seq![0x49u8, 0x4eu8, 0x53u8, 0x45u8, 0x52u8, 0x54u8], seq![0x1bu8, 0x5bu8, 0x32u8, 0x7eu8]),
        (seq![0x44u8, 0x45u8, 0x4cu8], seq![0x1bu8, 0x5bu8, 0x33u8, 0x7eu8]),
        (seq![0x44u8, 0x45u8, 0x4cu8, 0x45u8, 0x54u8, 0x45u8], seq![0x1bu8, 0x5bu8, 0x33u8, 0x7eu8]),
        (seq![0x50u8, 0x41u8, 0x47u8, 0x45u8, 0x55u8, 0x50u8], seq![0x1bu8, 0x5bu8, 0x35u8, 0x7eu8]),
        (seq![0x50u8, 0x41u8, 0x47u8, 0x45u8, 0x44u8, 0x4fu8, 0x57u8, 0x4eu8], seq![0x1bu8, 0x5bu8, 0x36u8, 0x7eu8]),
    ]
}

/// Mouse key names (upper case), tried after the `C-` and `M-` forms.
pub open spec fn mouse_keys() -> Seq<(Seq<u8>, Seq<u8>)> {
    seq![
        (seq![0x4cu8, 0x45u8, 0x46u8, 0x54u8, 0x4du8, 0x4fu8, 0x55u8, 0x53u8, 0x45u8], seq![0x1bu8, 0x5bu8, 0x4du8, 0x20u8, 0x20u8, 0x20u8]),
        (seq![0x52u8, 0x49u8, 0x47u8, 0x48u8, 0x54u8, 0x4du8, 0x4fu8, 0x55u8, 0x53u8, 0x45u8], seq![0x1bu8, 0x5bu8, 0x4du8, 0x22u8, 0x20u8, 0x20u8]),
        (seq![0x53u8, 0x43u8, 0x52u8, 0x4fu8, 0x4cu8, 0x4cu8, 0x57u8, 0x48u8, 0x45u8, 0x45u8, 0x4cu8, 0x55u8, 0x50u8], seq![0x1bu8, 0x5bu8, 0x4du8, 0x60u8, 0x20u8, 0x20u8]),
        (seq![0x46u8, 0x4fu8, 0x52u8, 0x57u8, 0x41u8, 0x52u8, 0x44u8, 0x57u8, 0x48u8, 0x45u8, 0x45u8, 0x4cu8], seq![0x1bu8, 0x5bu8, 0x4du8, 0x60u8, 0x20u8, 0x20u8]),
        (seq![0x53u8, 0x43u8, 0x52u8, 0x4fu8, 0x4cu8, 0x4cu8, 0x57u8, 0x48u8, 0x45u8, 0x45u8, 0x4cu8, 0x44u8, 0x4fu8, 0x57u8, 0x4eu8], seq![0x1bu8, 0x5bu8, 0x4du8, 0x61u8, 0x20u8, 0x20u8]),
        (seq![0x42u8, 0x41u8, 0x43u8, 0x4bu8, 0x57u8, 0x41u8, 0x52u8, 0x44u8, 0x57u8, 0x48u8, 0x45u8, 0x45u8, 0x4cu8], seq![0x1bu8, 0x5bu8, 0x4du8, 0x61u8, 0x20u8, 0x20u8]),
        (seq![0x55u8, 0x50u8, 0x4du8, 0x4fu8, 0x55u8, 0x53u8, 0x45u8], seq![0x1bu8, 0x5bu8, 0x4du8, 0x23u8, 0x20u8, 0x20u8]),
    ]
}

fn named_keys_x() -> (t: Vec<(Vec<u8>, Vec<u8>)>)
    ensures
        t@.len() == named_keys().len(),
        forall|i: int| 0 <= i < t@.len() ==> t@[i].0@ == named_keys()[i].0 && t@[i].1@ == named_keys()[i].1,
{
    let t: Vec<(Vec<u8>, Vec<u8>)> = vec![
        (vec![0x4eu8, 0x55u8, 0x4cu8], vec![0x00u8]),
        (vec![0x42u8, 0x53u8], vec![0x7fu8]),
        (vec![0x54u8, 0x41u8, 0x42u8], vec![0x09u8]),
        (vec![0x4eu8, 0x4cu8], vec![0x0au8]),
        (vec![0x43u8, 0x52u8], vec![0x0du8]),
        (vec![0x52u8, 0x45u8, 0x54u8, 0x55u8, 0x52u8, 0x4eu8], vec![0x0du8]),
        (vec![0x45u8, 0x4eu8, 0x54u8, 0x45u8, 0x52u8], vec![0x0du8]),
        (vec![0x45u8, 0x53u8, 0x43u8], vec![0x1bu8]),
        (vec![0x45u8, 0x53u8, 0x43u8, 0x41u8, 0x50u8, 0x45u8], vec![0x1bu8]),
        (vec![0x53u8, 0x50u8, 0x41u8, 0x43u8, 0x45u8], vec![0x20u8]),
        (vec![0x4cu8, 0x54u8], vec![0x3cu8]),
        (vec![0x47u8, 0x54u8], vec![0x3eu8]),
        (vec![0x42u8, 0x53u8, 0x4cu8, 0x41u8, 0x53u8, 0x48u8], vec![0x5cu8]),
        (vec![0x42u8, 0x41u8, 0x52u8], vec![0x7cu8]),
        (vec![0x43u8, 0x53u8, 0x49u8], vec![0x1bu8, 0x5bu8]),
        (vec![0x55u8, 0x50u8], vec![0x1bu8, 0x5bu8, 0x41u8]),
        (vec![0x44u8, 0x4fu8, 0x57u8, 0x4eu8], vec![0x1bu8, 0x5bu8, 0x42u8]),
        (vec![0x52u8, 0x49u8, 0x47u8, 0x48u8, 0x54u8], vec![0x1bu8, 0x5bu8, 0x43u8]),
        (vec![0x4cu8, 0x45u8, 0x46u8, 0x54u8], vec![0x1bu8, 0x5bu8, 0x44u8]),
        (vec![0x48u8, 0x4fu8, 0x4du8, 0x45u8], vec![0x1bu8, 0x5bu8, 0x48u8]),
        (vec![0x45u8, 0x4eu8, 0x44u8], vec![0x1bu8, 0x5bu8, 0x46u8]),
        (vec![0x49u8, 0x4eu8, 0x53u8], vec![0x1bu8, 0x5bu8, 0x32u8, 0x7eu8]),
        (vec![0x49u8, 0x4eu8, 0x53u8, 0x45u8, 0x52u8, 0x54u8], vec![0x1bu8, 0x5bu8, 0x32u8, 0x7eu8]),
        (vec![0x44u8, 0x45u8, 0x4cu8], vec![0x1bu8, 0x5bu8, 0x33u8, 0x7eu8]),
        (vec![0x44u8, 0x45u8, 0x4cu8, 0x45u8, 0x54u8, 0x45u8], vec![0x1bu8, 0x5bu8, 0x33u8, 0x7eu8]),
        (vec![0x50u8, 0x41u8, 0x47u8, 0x45u8, 0x55u8, 0x50u8], vec![0x1bu8, 0x5bu8, 0x35u8, 0x7eu8]),
        (vec![0x50u8, 0x41u8, 0x47u8, 0x45u8, 0x44u8, 0x4fu8, 0x57u8, 0x4eu8], vec![0x1bu8, 0x5bu8, 0x36u8, 0x7eu8]),
    ];
    assert forall|i: int| 0 <= i < t@.len() implies t@[i].0@ == named_keys()[i].0 && t@[i].1@ == named_keys()[i].1 by {
        assert(t@[i].0@ =~= named_keys()[i].0);
        assert(t@[i].1@ =~= named_keys()[i].1);
    }
    t
}

fn mouse_keys_x() -> (t: Vec<(Vec<u8>, Vec<u8>)>)
    ensures
        t@.len() == mouse_keys().len(),
        forall|i: int| 0 <= i < t@.len() ==> t@[i].0@ == mouse_keys()[i].0 && t@[i].1@ == mouse_keys()[i].1,
{
    let t: Vec<(Vec<u8>, Vec<u8>)> = vec![
        (vec![0x4cu8, 0x45u8, 0x46u8, 0x54u8, 0x4du8, 0x4fu8, 0x55u8, 0x53u8, 0x45u8], vec![0x1bu8, 0x5bu8, 0x4du8, 0x20u8, 0x20u8, 0x20u8]),
        (vec![0x52u8, 0x49u8, 0x47u8, 0x48u8, 0x54u8, 0x4du8, 0x4fu8, 0x55u8, 0x53u8, 0x45u8], vec![0x1bu8, 0x5bu8, 0x4du8, 0x22u8, 0x20u8, 0x20u8]),
        (vec![0x53u8, 0x43u8, 0x52u8, 0x4fu8, 0x4cu8, 0x4cu8, 0x57u8, 0x48u8, 0x45u8, 0x45u8, 0x4cu8, 0x55u8, 0x50u8], vec![0x1bu8, 0x5bu8, 0x4du8, 0x60u8, 0x20u8, 0x20u8]),
        (vec![0x46u8, 0x4fu8, 0x52u8, 0x57u8, 0x41u8, 0x52u8, 0x44u8, 0x57u8, 0x48u8, 0x45u8, 0x45u8, 0x4cu8], vec![0x1bu8, 0x5bu8, 0x4du8, 0x60u8, 0x20u8, 0x20u8]),
        (vec![0x53u8, 0x43u8, 0x52u8, 0x4fu8, 0x4cu8, 0x4cu8, 0x57u8, 0x48u8, 0x45u8, 0x45u8, 0x4cu8, 0x44u8, 0x4fu8, 0x57u8, 0x4eu8], vec![0x1bu8, 0x5bu8, 0x4du8, 0x61u8, 0x20u8, 0x20u8]),
        (vec![0x42u8, 0x41u8, 0x43u8, 0x4bu8, 0x57u8, 0x41u8, 0x52u8, 0x44u8, 0x57u8, 0x48u8, 0x45u8, 0x45u8, 0x4cu8], vec![0x1bu8, 0x5bu8, 0x4du8, 0x61u8, 0x20u8, 0x20u8]),
        (vec![0x55u8, 0x50u8, 0x4du8, 0x4fu8, 0x55u8, 0x53u8, 0x45u8], vec![0x1bu8, 0x5bu8, 0x4du8, 0x23u8, 0x20u8, 0x20u8]),
    ];
    assert forall|i: int| 0 <= i < t@.len() implies t@[i].0@ == mouse_keys()[i].0 && t@[i].1@ == mouse_keys()[i].1 by {
        assert(t@[i].0@ =~= mouse_keys()[i].0);
        assert(t@[i].1@ =~= mouse_keys()[i].1);
    }
    t
}

/// Byte sequences that read back as a key name, longest first.
pub open spec fn key_names() -> Seq<(Seq<u8>, Seq<char>)> {
    seq![
        (seq![0x1bu8, 0x5bu8, 0x4du8, 0x23u8, 0x20u8, 0x20u8], seq!['U', 'p', 'M', 'o', 'u', 's', 'e']),
        (seq![0x1bu8, 0x5bu8, 0x4du8, 0x61u8, 0x20u8, 0x20u8], seq!['B', 'a', 'c', 'k', 'w', 'a', 'r', 'd', 'W', 'h', 'e', 'e', 'l']),
        (seq![0x1bu8, 0x5bu8, 0x4du8, 0x60u8, 0x20u8, 0x20u8], seq!['F', 'o', 'r', 'w', 'a', 'r', 'd', 'W', 'h', 'e', 'e', 'l']),
        (seq![0x1bu8, 0x5bu8, 0x4du8, 0x22u8, 0x20u8, 0x20u8], seq!['R', 'i', 'g', 'h', 't', 'M', 'o', 'u', 's', 'e']),
        (seq![0x1bu8, 0x5bu8, 0x4du8, 0x20u8, 0x20u8, 0x20u8], seq!['L', 'e', 'f', 't', 'M', 'o', 'u', 's', 'e']),
        (seq![0x1bu8, 0x5bu8, 0x36u8, 0x7eu8], seq!['P', 'a', 'g', 'e', 'D', 'o', 'w', 'n']),
        (seq![0x1bu8, 0x5bu8, 0x35u8, 0x7eu8], seq!['P', 'a', 'g', 'e', 'U', 'p']),
        (seq![0x1bu8, 0x5bu8, 0x33u8, 0x7eu8], seq!['D', 'e', 'l', 'e', 't', 'e']),
        (seq![0x1bu8, 0x5bu8, 0x32u8, 0x7eu8], seq!['I', 'n', 's', 'e', 'r', 't']),
        (seq![0x1bu8, 0x5bu8, 0x46u8], seq!['E', 'n', 'd']),
        (seq![0x1bu8, 0x5bu8, 0x48u8], seq!['H', 'o', 'm', 'e']),
        (seq![0x1bu8, 0x5bu8, 0x44u8], seq!['L', 'e', 'f', 't']),
        (seq![0x1bu8, 0x5bu8, 0x43u8], seq!['R', 'i', 'g', 'h', 't']),
        (seq![0x1bu8, 0x5bu8, 0x42u8], seq!['D', 'o', 'w', 'n']),
        (seq![0x1bu8, 0x5bu8, 0x41u8], seq!['U', 'p']),
        (seq![0x1bu8, 0x5bu8], seq!['C', 'S', 'I']),
        (seq![0x7cu8], seq!['B', 'a', 'r']),
        (seq![0x5cu8], seq!['B', 's', 'l', 'a', 's', 'h']),
        (seq![0x3eu8], seq!['g', 't']),
        (seq![0x3cu8], seq!['l', 't']),
        (seq![0x20u8], seq!['S', 'p', 'a', 'c', 'e']),
        (seq![0x0du8], seq!['C', 'R']),
        (seq![0x0au8], seq!['N', 'L']),
        (seq![0x09u8], seq!['T', 'a', 'b']),
        (seq![0x7fu8], seq!['B', 'S']),
        (seq![0x00u8], seq!['N', 'u', 'l']),
    ]
}

fn key_names_x() -> (t: Vec<(Vec<u8>, Vec<char>)>)
    ensures
        t@.len() == key_names().len(),
        forall|i: int| 0 <= i < t@.len() ==> t@[i].0@ == key_names()[i].0 && t@[i].1@ == key_names()[i].1,
{
    let t: Vec<(Vec<u8>, Vec<char>)> = vec![
        (vec![0x1bu8, 0x5bu8, 0x4du8, 0x23u8, 0x20u8, 0x20u8], vec!['U', 'p', 'M', 'o', 'u', 's', 'e']),
        (vec![0x1bu8, 0x5bu8, 0x4du8, 0x61u8, 0x20u8, 0x20u8], vec!['B', 'a', 'c', 'k', 'w', 'a', 'r', 'd', 'W', 'h', 'e', 'e', 'l']),
        (vec![0x1bu8, 0x5bu8, 0x4du8, 0x60u8, 0x20u8, 0x20u8], vec!['F', 'o', 'r', 'w', 'a', 'r', 'd', 'W', 'h', 'e', 'e', 'l']),
        (vec![0x1bu8, 0x5bu8, 0x4du8, 0x22u8, 0x20u8, 0x20u8], vec!['R', 'i', 'g', 'h', 't', 'M', 'o', 'u', 's', 'e']),
        (vec![0x1bu8, 0x5bu8, 0x4du8, 0x20u8, 0x20u8, 0x20u8], vec!['L', 'e', 'f', 't', 'M', 'o', 'u', 's', 'e']),
        (vec![0x1bu8, 0x5bu8, 0x36u8, 0x7eu8], vec!['P', 'a', 'g', 'e', 'D', 'o', 'w', 'n']),
        (vec![0x1bu8, 0x5bu8, 0x35u8, 0x7eu8], vec!['P', 'a', 'g', 'e', 'U', 'p']),
        (vec![0x1bu8, 0x5bu8, 0x33u8, 0x7eu8], vec!['D', 'e', 'l', 'e', 't', 'e']),
        (vec![0x1bu8, 0x5bu8, 0x32u8, 0x7eu8], vec!['I', 'n', 's', 'e', 'r', 't']),
        (vec![0x1bu8, 0x5bu8, 0x46u8], vec!['E', 'n', 'd']),
        (vec![0x1bu8, 0x5bu8, 0x48u8], vec!['H', 'o', 'm', 'e']),
        (vec![0x1bu8, 0x5bu8, 0x44u8], vec!['L', 'e', 'f', 't']),
        (vec![0x1bu8, 0x5bu8, 0x43u8], vec!['R', 'i', 'g', 'h', 't']),
        (vec![0x1bu8, 0x5bu8, 0x42u8], vec!['D', 'o', 'w', 'n']),
        (vec![0x1bu8, 0x5bu8, 0x41u8], vec!['U', 'p']),
        (vec![0x1bu8, 0x5bu8], vec!['C', 'S', 'I']),
        (vec![0x7cu8], vec!['B', 'a', 'r']),
        (vec![0x5cu8], vec!['B', 's', 'l', 'a', 's', 'h']),
        (vec![0x3eu8], vec!['g', 't']),
        (vec![0x3cu8], vec!['l', 't']),
        (vec![0x20u8], vec!['S', 'p', 'a', 'c', 'e']),
        (vec![0x0du8], vec!['C', 'R']),
        (vec![0x0au8], vec!['N', 'L']),
        (vec![0x09u8], vec!['T', 'a', 'b']),
        (vec![0x7fu8], vec!['B', 'S']),
        (vec![0x00u8], vec!['N', 'u', 'l']),
    ];
    assert forall|i: int| 0 <= i < t@.len() implies t@[i].0@ == key_names()[i].0 && t@[i].1@ == key_names()[i].1 by {
        assert(t@[i].0@ =~= key_names()[i].0);
        assert(t@[i].1@ =~= key_names()[i].1);
    }
    t
}

/// The value of the first entry of `t` (from the `i`-th on) whose key is
/// `key`.
pub open spec fn table_get<V>(t: Seq<(Seq<u8>, V)>, key: Seq<u8>, i: int) -> Option<V>
    decreases t.len() - i,
{
    if i < 0 || i >= t.len() {
        None
    } else if t[i].0 == key {
        Some(t[i].1)
    } else {
        table_get(t, key, i + 1)
    }
}

/// Whether `b` is `M` or `A` (both spell the meta modifier).
pub open spec fn is_meta_letter(b: u8) -> bool {
    b == 0x4du8 || b == 0x41u8
}

/// The bytes a key name (already upper case) stands for: a named key, `C-`
/// and a character from `@` to `_`, a meta modifier (`M-` or `A-`, at most
/// one) before a key, or a mouse key.
pub open spec fn key_bytes(s: Seq<u8>) -> Option<Seq<u8>>
    decreases s.len(),
{
    match table_get(named_keys(), s, 0) {
        Some(v) => Some(v),
        None => if s.len() == 3 && s[0] == 0x43u8 && s[1] == 0x2du8 && 0x40u8 <= s[2] <= 0x5fu8 {
            Some(seq![s[2] ^ 0x40u8])
        } else if s.len() >= 4 && is_meta_letter(s[0]) && s[1] == 0x2du8 && is_meta_letter(s[2])
            && s[3] == 0x2du8 {
            None
        } else if s.len() >= 2 && is_meta_letter(s[0]) && s[1] == 0x2du8 {
            match key_bytes(s.subrange(2, s.len() as int)) {
                Some(v) => Some(seq![0x1bu8] + v),
                None => None,
            }
        } else {
            table_get(mouse_keys(), s, 0)
        },
    }
}

/// `s` with ASCII lower case letters made upper case.
pub open spec fn ascii_upper(s: Seq<u8>) -> Seq<u8> {
    s.map_values(|b: u8| if 0x61u8 <= b <= 0x7au8 { (b - 32) as u8 } else { b })
}

/// First index from `from` on that holds `b`.
pub open spec fn find_byte(s: Seq<u8>, from: int, b: u8) -> Option<int>
    decreases s.len() - from,
{
    if from < 0 || from >= s.len() {
        None
    } else if s[from] == b {
        Some(from)
    } else {
        find_byte(s, from + 1, b)
    }
}

/// The bytes of `s` from `at` on with each `<name>` replaced by the bytes of
/// the key it names; `None` for an unclosed `<` or an unknown name.
pub open spec fn keytrans_from(s: Seq<u8>, at: int) -> Option<Seq<u8>>
    decreases s.len() - at,
{
    if at < 0 || at > s.len() {
        None
    } else {
        match find_byte(s, at, 0x3cu8) {
            None => Some(s.subrange(at, s.len() as int)),
            Some(start) => match find_byte(s, start + 1, 0x3eu8) {
                None => None,
                Some(end) => if end < at {
                    None
                } else {
                    match key_bytes(ascii_upper(s.subrange(start + 1, end))) {
                        None => None,
                        Some(v) => match {
                            proof {
                                lemma_find_byte(s, at, 0x3cu8);
                                lemma_find_byte(s, start + 1, 0x3eu8);
                            }
                            keytrans_from(s, end + 1)
                        } {
                            Some(rest) => Some(s.subrange(at, start) + v + rest),
                            None => None,
                        },
                    }
                },
            },
        }
    }
}

pub proof fn lemma_find_byte(s: Seq<u8>, from: int, b: u8)
    requires
        0 <= from,
    ensures
        find_byte(s, from, b) matches Some(i) ==> from <= i < s.len() && s[i] == b,
    decreases s.len() - from,
{
    if from < s.len() && s[from] != b {
        lemma_find_byte(s, from + 1, b);
    }
}

fn find_byte_x(s: &[u8], from: usize, b: u8) -> (r: Option<usize>)
    ensures
        match r {
            Some(i) => find_byte(s@, from as int, b) == Some(i as int),
            None => find_byte(s@, from as int, b) is None,
        },
{
    let mut i = from;
    while i < s.len()
        invariant
            find_byte(s@, from as int, b) == find_byte(s@, i as int, b),
        decreases s@.len() - i,
    {
        if s[i] == b {
            return Some(i);
        }
        i += 1;
    }
    None
}

fn same_bytes(a: &Vec<u8>, b: &Vec<u8>) -> (r: bool)
    ensures
        r == (a@ == b@),
{
    if a.len() != b.len() {
        return false;
    }
    let mut i: usize = 0;
    while i < a.len()
        invariant
            a@.len() == b@.len(),
            0 <= i <= a@.len(),
            forall|j: int| 0 <= j < i ==> a@[j] == b@[j],
        decreases a@.len() - i,
    {
        if a[i] != b[i] {
            return false;
        }
        i += 1;
    }
    assert(a@ =~= b@);
    true
}

fn table_get_x(t: &Vec<(Vec<u8>, Vec<u8>)>, key: &Vec<u8>, spec_t: Ghost<Seq<(Seq<u8>, Seq<u8>)>>) -> (r: Option<Vec<u8>>)
    requires
        t@.len() == spec_t@.len(),
        forall|i: int| 0 <= i < t@.len() ==> t@[i].0@ == spec_t@[i].0 && t@[i].1@ == spec_t@[i].1,
    ensures
        match r {
            Some(v) => table_get(spec_t@, key@, 0) == Some(v@),
            None => table_get(spec_t@, key@, 0) is None,
        },
{
    let mut i: usize = 0;
    while i < t.len()
        invariant
            t@.len() == spec_t@.len(),
            forall|j: int| 0 <= j < t@.len() ==> t@[j].0@ == spec_t@[j].0 && t@[j].1@ == spec_t@[j].1,
            0 <= i <= t@.len(),
            table_get(spec_t@, key@, 0) == table_get(spec_t@, key@, i as int),
        decreases t@.len() - i,
    {
        if same_bytes(&t[i].0, key) {
            return Some(t[i].1.clone());
        }
        i += 1;
    }
    None
}

/// The bytes the key name `s` (upper case) stands for (see `key_bytes`).
fn keytrans1(s: &Vec<u8>) -> (r: Option<Vec<u8>>)
    ensures
        match r {
            Some(v) => key_bytes(s@) == Some(v@),
            None => key_bytes(s@) is None,
        },
    decreases s@.len(),
{
    let named = named_keys_x();
    if let Some(v) = table_get_x(&named, s, Ghost(named_keys())) {
        return Some(v);
    }
    let n = s.len();
    if n == 3 && s[0] == 0x43u8 && s[1] == 0x2du8 && 0x40u8 <= s[2] && s[2] <= 0x5fu8 {
        return Some(vec![s[2] ^ 0x40u8]);
    }
    let meta0 = n >= 2 && (s[0] == 0x4du8 || s[0] == 0x41u8) && s[1] == 0x2du8;
    if n >= 4 && meta0 && (s[2] == 0x4du8 || s[2] == 0x41u8) && s[3] == 0x2du8 {
        return None;
    }
    if meta0 {
        let mut rest: Vec<u8> = Vec::new();
        let mut i: usize = 2;
        while i < n
            invariant
                n == s@.len(),
                2 <= i <= n,
                rest@ == s@.subrange(2, i as int),
            decreases n - i,
        {
            rest.push(s[i]);
            i += 1;
            assert(rest@ =~= s@.subrange(2, i as int));
        }
        match keytrans1(&rest) {
            Some(v) => {
                let mut out: Vec<u8> = vec![0x1bu8];
                let mut out_tail = v;
                out.append(&mut out_tail);
                assert(out@ =~= seq![0x1bu8] + key_bytes(s@.subrange(2, n as int))->0);
                return Some(out);
            },
            None => {
                return None;
            },
        }
    }
    let mouse = mouse_keys_x();
    table_get_x(&mouse, s, Ghost(mouse_keys()))
}

/// Translate a key notation such as `x<C-x><M-C-e>` into the bytes a
/// terminal sends: text stands for itself, `<name>` for the key it names
/// (names are case-insensitive); `None` for an unclosed `<` or an unknown
/// name. The text is read as its UTF-8 bytes.
pub fn keytrans(text: &str) -> (r: Option<Vec<u8>>)
    ensures
        match r {
            Some(v) => keytrans_from(encode_utf8(text@), 0) == Some(v@),
            None => keytrans_from(encode_utf8(text@), 0) is None,
        },
{
    let bytes = text.as_bytes();
    let n = bytes.len();
    let mut r: Vec<u8> = Vec::new();
    let mut at: usize = 0;
    loop
        invariant
            n == bytes@.len(),
            bytes@ == encode_utf8(text@),
            0 <= at <= n,
            keytrans_from(bytes@, 0) matches Some(all) ==> keytrans_from(bytes@, at as int) matches Some(rest) && all == r@ + rest,
            keytrans_from(bytes@, 0) is None ==> keytrans_from(bytes@, at as int) is None,
            keytrans_from(bytes@, 0) is Some ==> keytrans_from(bytes@, at as int) is Some,
        decreases n - at,
    {
        proof {
            lemma_find_byte(bytes@, at as int, 0x3cu8);
        }
        match find_byte_x(bytes, at, 0x3cu8) {
            None => {
                let mut i = at;
                let ghost base = r@;
                while i < n
                    invariant
                        n == bytes@.len(),
                        at <= i <= n,
                        r@ == base + bytes@.subrange(at as int, i as int),
                    decreases n - i,
                {
                    r.push(bytes[i]);
                    i += 1;
                    assert(r@ =~= base + bytes@.subrange(at as int, i as int));
                }
                assert(keytrans_from(bytes@, at as int) == Some(bytes@.subrange(at as int, n as int)));
                return Some(r);
            },
            Some(start) => {
                proof {
                    lemma_find_byte(bytes@, start + 1, 0x3eu8);
                }
                let end = match find_byte_x(bytes, start + 1, 0x3eu8) {
                    None => {
                        return None;
                    },
                    Some(e) => e,
                };
                let mut name: Vec<u8> = Vec::new();
                let mut i = start + 1;
                while i < end
                    invariant
                        n == bytes@.len(),
                        start + 1 <= i <= end < n,
                        name@ == ascii_upper(bytes@.subrange(start + 1, i as int)),
                    decreases end - i,
                {
                    let b = bytes[i];
                    name.push(if 0x61u8 <= b && b <= 0x7au8 { b - 32 } else { b });
                    i += 1;
                    assert(name@ =~= ascii_upper(bytes@.subrange(start + 1, i as int)));
                }
                match keytrans1(&name) {
                    None => {
                        return None;
                    },
                    Some(v) => {
                        let ghost base = r@;
                        let mut i = at;
                        while i < start
                            invariant
                                n == bytes@.len(),
                                at <= i <= start < n,
                                r@ == base + bytes@.subrange(at as int, i as int),
                            decreases start - i,
                        {
                            r.push(bytes[i]);
                            i += 1;
                            assert(r@ =~= base + bytes@.subrange(at as int, i as int));
                        }
                        let ghost mid = r@;
                        let mut v = v;
                        r.append(&mut v);
                        assert(r@ =~= base + bytes@.subrange(at as int, start as int) + key_bytes(
                            ascii_upper(bytes@.subrange(start + 1, end as int)),
                        )->0);
                        at = end + 1;
                    },
                }
            },
        }
    }
}

/// `name` in angle brackets unless `re` (inside a `M-` prefix).
pub open spec fn bracket(re: bool, name: Seq<char>) -> Seq<char> {
    if re {
        name
    } else {
        seq!['<'] + name + seq!['>']
    }
}

/// First entry of `key_names()` (from the `i`-th on) whose bytes start `s`.
pub open spec fn name_prefix(s: Seq<u8>, i: int) -> Option<(Seq<u8>, Seq<char>)>
    decreases key_names().len() - i,
{
    if i < 0 || i >= key_names().len() {
        None
    } else if key_names()[i].0.len() <= s.len() && s.subrange(0, key_names()[i].0.len() as int)
        == key_names()[i].0 {
        Some(key_names()[i])
    } else {
        name_prefix(s, i + 1)
    }
}

/// The digit that the key reader writes for a nibble: `0`-`9`, then from
/// `k` on (it adds the nibble to `a`).
pub open spec fn nibble_char(x: u8) -> char {
    (((if x < 10 { 0x30u8 } else { 0x61u8 }) + x) as u8) as char
}

/// Whether `b` is an ASCII control character.
pub open spec fn is_control(b: u8) -> bool {
    b <= 0x1f || b == 0x7f
}

/// How the key reader renders the start of `s`: the text it writes and how
/// many bytes that consumed. Known sequences give their names; escape
/// gives `Esc` or an `M-` prefix on what follows; other control bytes give
/// `C-` and a letter; printable ASCII gives itself; valid UTF-8 gives its
/// second character (and the length of the first); anything else its two
/// hex digits.
pub open spec fn keyseq1(s: Seq<u8>, re: bool) -> (Seq<char>, int)
    decreases s.len(),
{
    if s.len() == 0 {
        (Seq::empty(), 0)
    } else {
        match name_prefix(s, 0) {
            Some((bytes, name)) => (bracket(re, name), bytes.len() as int),
            None => if s[0] == 0x1bu8 {
                if s.len() == 1 {
                    (bracket(re, seq!['E', 's', 'c']), 1)
                } else {
                    let (t, m) = keyseq1(s.subrange(1, s.len() as int), true);
                    (bracket(re, seq!['M', '-'] + t), 1 + m)
                }
            } else if is_control(s[0]) {
                (bracket(re, seq!['C', '-', ((s[0] ^ 0x40u8) as u8) as char]), 1)
            } else if 0x21u8 <= s[0] <= 0x7eu8 {
                (seq![s[0] as char], 1)
            } else if valid_utf8(s) {
                let d = decode_utf8(s);
                if d.len() >= 2 {
                    (seq![d[1]], encode_scalar(d[0] as u32).len() as int)
                } else {
                    (Seq::empty(), 1)
                }
            } else {
                (bracket(re, seq![nibble_char((s[0] >> 4u8) & 0xfu8), nibble_char(s[0] & 0xfu8)]), 1)
            },
        }
    }
}

/// The key notation of the bytes `s` from `k` on.
pub open spec fn keyseq_from(s: Seq<u8>, k: int) -> Seq<char>
    decreases s.len() - k,
{
    if k < 0 || k >= s.len() {
        Seq::empty()
    } else {
        let (t, n) = keyseq1(s.subrange(k, s.len() as int), false);
        if n >= 1 && k + n <= s.len() {
            t + keyseq_from(s, k + n)
        } else {
            t
        }
    }
}

/// `std::str::from_utf8`: the string the bytes encode, if they are valid
/// UTF-8. Stated with vstd's model of UTF-8: `Some` exactly for valid
/// bytes, holding their decoding.
#[verifier::external_body]
pub(crate) fn str_from_utf8(b: &[u8]) -> (r: Option<&str>)
    ensures
        r is Some <==> valid_utf8(b@),
        r matches Some(s) ==> s@ == decode_utf8(b@),
{
    std::str::from_utf8(b).ok()
}

proof fn lemma_name_prefix(s: Seq<u8>, i: int)
    requires
        0 <= i,
    ensures
        name_prefix(s, i) matches Some((b, _)) ==> 1 <= b.len() <= s.len(),
    decreases key_names().len() - i,
{
    if i < key_names().len() {
        assert(key_names()[i].0.len() >= 1);
        lemma_name_prefix(s, i + 1);
    }
}

fn name_prefix_x(s: &[u8]) -> (r: Option<(usize, Vec<char>)>)
    ensures
        match r {
            Some((n, name)) => name_prefix(s@, 0) matches Some((b, nm)) && n == b.len() && name@ == nm,
            None => name_prefix(s@, 0) is None,
        },
{
    let t = key_names_x();
    let mut i: usize = 0;
    while i < t.len()
        invariant
            t@.len() == key_names().len(),
            forall|j: int| 0 <= j < t@.len() ==> t@[j].0@ == key_names()[j].0 && t@[j].1@ == key_names()[j].1,
            0 <= i <= t@.len(),
            name_prefix(s@, 0) == name_prefix(s@, i as int),
        decreases t@.len() - i,
    {
        let key = &t[i].0;
        if key.len() <= s.len() {
            let mut j: usize = 0;
            let mut same = true;
            while j < key.len() && same
                invariant
                    key@.len() <= s@.len(),
                    0 <= j <= key@.len(),
                    same ==> forall|q: int| 0 <= q < j ==> s@[q] == key@[q],
                    !same ==> j < key@.len() && s@[j as int] != key@[j as int],
                decreases key@.len() - j + if same { 1int } else { 0int },
            {
                if s[j] != key[j] {
                    same = false;
                } else {
                    j += 1;
                }
            }
            if same {
                assert(s@.subrange(0, key@.len() as int) =~= key@);
                return Some((key.len(), t[i].1.clone()));
            } else {
                assert(s@.subrange(0, key@.len() as int)[j as int] != key@[j as int]);
            }
        }
        i += 1;
    }
    None
}

fn push_bracketed(r: &mut Vec<char>, re: bool, name: &[char])
    ensures
        final(r)@ == old(r)@ + bracket(re, name@),
{
    if !re {
        r.push('<');
    }
    let mut i: usize = 0;
    let ghost base = r@;
    while i < name.len()
        invariant
            0 <= i <= name@.len(),
            r@ == base + name@.subrange(0, i as int),
        decreases name@.len() - i,
    {
        r.push(name[i]);
        i += 1;
        assert(r@ =~= base + name@.subrange(0, i as int));
    }
    if !re {
        r.push('>');
    }
    assert(r@ =~= old(r)@ + bracket(re, name@));
}

fn nibble(x: u8) -> (c: char)
    requires
        x < 16,
    ensures
        c == nibble_char(x),
{
    (((if x < 10 { 0x30u8 } else { 0x61u8 }) + x) as u8) as char
}

/// Render the start of `s` (see `keyseq1`), appending to `r`; how many
/// bytes that took.
fn keyseqstr1(s: &[u8], re: bool, r: &mut Vec<char>) -> (n: usize)
    ensures
        final(r)@ == old(r)@ + keyseq1(s@, re).0,
        n == keyseq1(s@, re).1,
        s@.len() > 0 ==> 1 <= n <= s@.len(),
    decreases s@.len(),
{
    if s.len() == 0 {
        assert(old(r)@ + keyseq1(s@, re).0 =~= old(r)@);
        return 0;
    }
    proof {
        lemma_name_prefix(s@, 0);
    }
    if let Some((n, name)) = name_prefix_x(s) {
        push_bracketed(r, re, name.as_slice());
        return n;
    }
    if 0x1bu8 == s[0] {
        if s.len() == 1 {
            push_bracketed(r, re, &['E', 's', 'c']);
            assert(['E', 's', 'c']@ =~= seq!['E', 's', 'c']);
            return 1;
        }
        let mut inner: Vec<char> = vec!['M', '-'];
        let rest = s.split_at(1).1;
        assert(rest@ =~= s@.subrange(1, s@.len() as int));
        let m = keyseqstr1(rest, true, &mut inner);
        push_bracketed(r, re, inner.as_slice());
        assert(inner@ =~= seq!['M', '-'] + keyseq1(rest@, true).0);
        return 1 + m;
    }
    let b = s[0];
    if b <= 0x1fu8 || b == 0x7fu8 {
        let c = (b ^ 0x40u8) as char;
        let v: Vec<char> = vec!['C', '-', c];
        push_bracketed(r, re, v.as_slice());
        assert(v@ =~= seq!['C', '-', ((b ^ 0x40u8) as u8) as char]);
        return 1;
    }
    if 0x21u8 <= b && b <= 0x7eu8 {
        r.push(b as char);
        assert(r@ =~= old(r)@ + seq![b as char]);
        return 1;
    }
    if let Some(text) = str_from_utf8(s) {
        let cs = chars_of(text);
        if cs.len() >= 2 {
            let c0 = cs[0];
            let u = c0 as u32;
            let w: usize = if u < 0x80 {
                1
            } else if u < 0x800 {
                2
            } else if u < 0x10000 {
                3
            } else {
                4
            };
            r.push(cs[1]);
            assert(r@ =~= old(r)@ + seq![cs@[1]]);
            proof {
                vstd::utf8::decode_utf8_encode_utf8(s@);
                let d = decode_utf8(s@);
                assert(encode_utf8(d).len() == encode_scalar(d[0] as u32).len() + encode_utf8(
                    d.drop_first(),
                ).len());
                assert(w == encode_scalar(d[0] as u32).len());
            }
            return w;
        }
        assert(old(r)@ + keyseq1(s@, re).0 =~= old(r)@);
        return 1;
    }
    proof {
        assert((b >> 4u8) & 0xfu8 < 16) by (bit_vector);
        assert(b & 0xfu8 < 16) by (bit_vector);
    }
    let v: Vec<char> = vec![nibble((b >> 4u8) & 0xfu8), nibble(b & 0xfu8)];
    push_bracketed(r, re, v.as_slice());
    assert(v@ =~= seq![nibble_char((b >> 4u8) & 0xfu8), nibble_char(b & 0xfu8)]);
    1
}

/// Write the bytes `seq` in key notation (the notation `keytrans` reads),
/// e.g. `<C-X><M-C-E>` for `[0x18, 0x1b, 0x05]`.
pub fn keyseqstr(seq: &[u8]) -> (s: String)
    ensures
        s@ == keyseq_from(seq@, 0),
{
    let mut r: Vec<char> = Vec::new();
    let n = seq.len();
    let mut k: usize = 0;
    while k < n
        invariant
            n == seq@.len(),
            0 <= k <= n,
            keyseq_from(seq@, 0) == r@ + keyseq_from(seq@, k as int),
        decreases n - k,
    {
        let rest = seq.split_at(k).1;
        assert(rest@ =~= seq@.subrange(k as int, n as int));
        let ghost before = r@;
        let m = keyseqstr1(rest, false, &mut r);
        assert(r@ + keyseq_from(seq@, k + m) =~= before + keyseq_from(seq@, k as int));
        k = k + m;
    }
    assert(r@ + keyseq_from(seq@, k as int) =~= r@);
    string_of(r.as_slice())
}

/// The key notation of each byte of `seq` on its own, concatenated.
pub open spec fn keyseq_each(seq: Seq<u8>) -> Seq<char>
    decreases seq.len(),
{
    if seq.len() == 0 {
        Seq::empty()
    } else {
        keyseq_each(seq.drop_last()) + keyseq_from(seq![seq.last()], 0)
    }
}

/// Concatenating two byte sequences concatenates their byte-by-byte key
/// notations.
pub proof fn keyseq_each_concat(a: Seq<u8>, b: Seq<u8>)
    ensures
        keyseq_each(a + b) == keyseq_each(a) + keyseq_each(b),
    decreases b.len(),
{
    if b.len() == 0 {
        assert(a + b =~= a);
        assert(keyseq_each(b) =~= Seq::<char>::empty());
        assert(keyseq_each(a) + keyseq_each(b) =~= keyseq_each(a));
    } else {
        keyseq_each_concat(a, b.drop_last());
        assert((a + b).drop_last() =~= a + b.drop_last());
        assert((a + b).last() == b.last());
        assert(keyseq_each(a + b) =~= keyseq_each(a) + keyseq_each(b));
    }
}

/// Read each byte of `seq` back as key notation on its own.
pub fn keyseqstr_each(seq: &[u8]) -> (s: String)
    ensures
        s@ == keyseq_each(seq@),
{
    let mut r = String::new();
    let mut i: usize = 0;
    while i < seq.len()
        invariant
            0 <= i <= seq@.len(),
            r@ == keyseq_each(seq@.subrange(0, i as int)),
        decreases seq@.len() - i,
    {
        let one: Vec<u8> = vec![seq[i]];
        let part = keyseqstr(one.as_slice());
        proof {
            let sub = seq@.subrange(0, i + 1);
            assert(sub.drop_last() =~= seq@.subrange(0, i as int));
            assert(one@ =~= seq![sub.last()]);
        }
        r.append(part.as_str());
        i += 1;
    }
    assert(seq@.subrange(0, i as int) =~= seq@);
    r
}

/// The bytes of an ASCII key name.
pub open spec fn name_bytes(name: Seq<char>) -> Seq<u8> {
    name.map_values(|c: char| c as u8)
}

/// Every name that the key reader writes (see `key_names`) reads back, in
/// any case, as the bytes it was written for: the names `keyseqstr` gives
/// are the names `keytrans` takes.
#[verifier::spinoff_prover]
#[verifier::rlimit(100)]
pub proof fn key_names_read_back(i: int)
    requires
        0 <= i < key_names().len(),
    ensures
        key_bytes(ascii_upper(name_bytes(key_names()[i].1))) == Some(key_names()[i].0),
{
    reveal_with_fuel(table_get, 30);
    assert(key_names().len() == 26);
    assert(key_bytes(ascii_upper(name_bytes(key_names()[i].1))) == Some(key_names()[i].0)) by {
        if i == 0 {
            assert(ascii_upper(name_bytes(key_names()[i].1)) =~= seq![0x55u8, 0x50u8, 0x4du8, 0x4fu8, 0x55u8, 0x53u8, 0x45u8]);
        } else if i == 1 {
            assert(ascii_upper(name_bytes(key_names()[i].1)) =~= seq![0x42u8, 0x41u8, 0x43u8, 0x4bu8, 0x57u8, 0x41u8, 0x52u8, 0x44u8, 0x57u8, 0x48u8, 0x45u8, 0x45u8, 0x4cu8]);
        } else if i == 2 {
            assert(ascii_upper(name_bytes(key_names()[i].1)) =~= seq![0x46u8, 0x4fu8, 0x52u8, 0x57u8, 0x41u8, 0x52u8, 0x44u8, 0x57u8, 0x48u8, 0x45u8, 0x45u8, 0x4cu8]);
        } else if i == 3 {
            assert(ascii_upper(name_bytes(key_names()[i].1)) =~= seq![0x52u8, 0x49u8, 0x47u8, 0x48u8, 0x54u8, 0x4du8, 0x4fu8, 0x55u8, 0x53u8, 0x45u8]);
        } else if i == 4 {
            assert(ascii_upper(name_bytes(key_names()[i].1)) =~= seq![0x4cu8, 0x45u8, 0x46u8, 0x54u8, 0x4du8, 0x4fu8, 0x55u8, 0x53u8, 0x45u8]);
        } else if i == 5 {
            assert(ascii_upper(name_bytes(key_names()[i].1)) =~= seq![0x50u8, 0x41u8, 0x47u8, 0x45u8, 0x44u8, 0x4fu8, 0x57u8, 0x4eu8]);
        } else if i == 6 {
            assert(ascii_upper(name_bytes(key_names()[i].1)) =~= seq![0x50u8, 0x41u8, 0x47u8, 0x45u8, 0x55u8, 0x50u8]);
        } else if i == 7 {
            assert(ascii_upper(name_bytes(key_names()[i].1)) =~= seq![0x44u8, 0x45u8, 0x4cu8, 0x45u8, 0x54u8, 0x45u8]);
        } else if i == 8 {
            assert(ascii_upper(name_bytes(key_names()[i].1)) =~= seq![0x49u8, 0x4eu8, 0x53u8, 0x45u8, 0x52u8, 0x54u8]);
        } else if i == 9 {
            assert(ascii_upper(name_bytes(key_names()[i].1)) =~= seq![0x45u8, 0x4eu8, 0x44u8]);
        } else if i == 10 {
            assert(ascii_upper(name_bytes(key_names()[i].1)) =~= seq![0x48u8, 0x4fu8, 0x4du8, 0x45u8]);
        } else if i == 11 {
            assert(ascii_upper(name_bytes(key_names()[i].1)) =~= seq![0x4cu8, 0x45u8, 0x46u8, 0x54u8]);
        } else if i == 12 {
            assert(ascii_upper(name_bytes(key_names()[i].1)) =~= seq![0x52u8, 0x49u8, 0x47u8, 0x48u8, 0x54u8]);
        } else if i == 13 {
            assert(ascii_upper(name_bytes(key_names()[i].1)) =~= seq![0x44u8, 0x4fu8, 0x57u8, 0x4eu8]);
        } else if i == 14 {
            assert(ascii_upper(name_bytes(key_names()[i].1)) =~= seq![0x55u8, 0x50u8]);
        } else if i == 15 {
            assert(ascii_upper(name_bytes(key_names()[i].1)) =~= seq![0x43u8, 0x53u8, 0x49u8]);
        } else if i == 16 {
            assert(ascii_upper(name_bytes(key_names()[i].1)) =~= seq![0x42u8, 0x41u8, 0x52u8]);
        } else if i == 17 {
            assert(ascii_upper(name_bytes(key_names()[i].1)) =~= seq![0x42u8, 0x53u8, 0x4cu8, 0x41u8, 0x53u8, 0x48u8]);
        } else if i == 18 {
            assert(ascii_upper(name_bytes(key_names()[i].1)) =~= seq![0x47u8, 0x54u8]);
        } else if i == 19 {
            assert(ascii_upper(name_bytes(key_names()[i].1)) =~= seq![0x4cu8, 0x54u8]);
        } else if i == 20 {
            assert(ascii_upper(name_bytes(key_names()[i].1)) =~= seq![0x53u8, 0x50u8, 0x41u8, 0x43u8, 0x45u8]);
        } else if i == 21 {
            assert(ascii_upper(name_bytes(key_names()[i].1)) =~= seq![0x43u8, 0x52u8]);
        } else if i == 22 {
            assert(ascii_upper(name_bytes(key_names()[i].1)) =~= seq![0x4eu8, 0x4cu8]);
        } else if i == 23 {
            assert(ascii_upper(name_bytes(key_names()[i].1)) =~= seq![0x54u8, 0x41u8, 0x42u8]);
        } else if i == 24 {
            assert(ascii_upper(name_bytes(key_names()[i].1)) =~= seq![0x42u8, 0x53u8]);
        } else {
            assert(ascii_upper(name_bytes(key_names()[i].1)) =~= seq![0x4eu8, 0x55u8, 0x4cu8]);
        }
    }
}

/// Each entry of `key_names` is the first whose bytes start its own bytes,
/// and its name is made of ASCII letters.
#[verifier::spinoff_prover]
#[verifier::rlimit(100)]
proof fn lemma_name_entry(i: int)
    requires
        0 <= i < key_names().len(),
    ensures
        name_prefix(key_names()[i].0, 0) == Some(key_names()[i]),
{
    reveal_with_fuel(name_prefix, 27);
    assert(key_names().len() == 26);
    let s = key_names()[i].0;
    if i == 0 {
        assert(s.subrange(0, 6) =~= s);
    } else if i == 1 {
        assert(s.subrange(0, 6) =~= s);
        assert(key_names()[0].0[3] != s[3]);
    } else if i == 2 {
        assert(s.subrange(0, 6) =~= s);
        assert(key_names()[0].0[3] != s[3]);
        assert(key_names()[1].0[3] != s[3]);
    } else if i == 3 {
        assert(s.subrange(0, 6) =~= s);
        assert(key_names()[0].0[3] != s[3]);
        assert(key_names()[1].0[3] != s[3]);
        assert(key_names()[2].0[3] != s[3]);
    } else if i == 4 {
        assert(s.subrange(0, 6) =~= s);
        assert(key_names()[0].0[3] != s[3]);
        assert(key_names()[1].0[3] != s[3]);
        assert(key_names()[2].0[3] != s[3]);
        assert(key_names()[3].0[3] != s[3]);
    } else if i == 5 {
        assert(s.subrange(0, 4) =~= s);
    } else if i == 6 {
        assert(s.subrange(0, 4) =~= s);
        assert(key_names()[5].0[2] != s[2]);
    } else if i == 7 {
        assert(s.subrange(0, 4) =~= s);
        assert(key_names()[5].0[2] != s[2]);
        assert(key_names()[6].0[2] != s[2]);
    } else if i == 8 {
        assert(s.subrange(0, 4) =~= s);
        assert(key_names()[5].0[2] != s[2]);
        assert(key_names()[6].0[2] != s[2]);
        assert(key_names()[7].0[2] != s[2]);
    } else if i == 9 {
        assert(s.subrange(0, 3) =~= s);
    } else if i == 10 {
        assert(s.subrange(0, 3) =~= s);
        assert(key_names()[9].0[2] != s[2]);
    } else if i == 11 {
        assert(s.subrange(0, 3) =~= s);
        assert(key_names()[9].0[2] != s[2]);
        assert(key_names()[10].0[2] != s[2]);
    } else if i == 12 {
        assert(s.subrange(0, 3) =~= s);
        assert(key_names()[9].0[2] != s[2]);
        assert(key_names()[10].0[2] != s[2]);
        assert(key_names()[11].0[2] != s[2]);
    } else if i == 13 {
        assert(s.subrange(0, 3) =~= s);
        assert(key_names()[9].0[2] != s[2]);
        assert(key_names()[10].0[2] != s[2]);
        assert(key_names()[11].0[2] != s[2]);
        assert(key_names()[12].0[2] != s[2]);
    } else if i == 14 {
        assert(s.subrange(0, 3) =~= s);
        assert(key_names()[9].0[2] != s[2]);
        assert(key_names()[10].0[2] != s[2]);
        assert(key_names()[11].0[2] != s[2]);
        assert(key_names()[12].0[2] != s[2]);
        assert(key_names()[13].0[2] != s[2]);
    } else if i == 15 {
        assert(s.subrange(0, 2) =~= s);
    } else if i == 16 {
        assert(s.subrange(0, 1) =~= s);
    } else if i == 17 {
        assert(s.subrange(0, 1) =~= s);
        assert(key_names()[16].0[0] != s[0]);
    } else if i == 18 {
        assert(s.subrange(0, 1) =~= s);
        assert(key_names()[16].0[0] != s[0]);
        assert(key_names()[17].0[0] != s[0]);
    } else if i == 19 {
        assert(s.subrange(0, 1) =~= s);
        assert(key_names()[16].0[0] != s[0]);
        assert(key_names()[17].0[0] != s[0]);
        assert(key_names()[18].0[0] != s[0]);
    } else if i == 20 {
        assert(s.subrange(0, 1) =~= s);
        assert(key_names()[16].0[0] != s[0]);
        assert(key_names()[17].0[0] != s[0]);
        assert(key_names()[18].0[0] != s[0]);
        assert(key_names()[19].0[0] != s[0]);
    } else if i == 21 {
        assert(s.subrange(0, 1) =~= s);
        assert(key_names()[16].0[0] != s[0]);
        assert(key_names()[17].0[0] != s[0]);
        assert(key_names()[18].0[0] != s[0]);
        assert(key_names()[19].0[0] != s[0]);
        assert(key_names()[20].0[0] != s[0]);
    } else if i == 22 {
        assert(s.subrange(0, 1) =~= s);
        assert(key_names()[16].0[0] != s[0]);
        assert(key_names()[17].0[0] != s[0]);
        assert(key_names()[18].0[0] != s[0]);
        assert(key_names()[19].0[0] != s[0]);
        assert(key_names()[20].0[0] != s[0]);
        assert(key_names()[21].0[0] != s[0]);
    } else if i == 23 {
        assert(s.subrange(0, 1) =~= s);
        assert(key_names()[16].0[0] != s[0]);
        assert(key_names()[17].0[0] != s[0]);
        assert(key_names()[18].0[0] != s[0]);
        assert(key_names()[19].0[0] != s[0]);
        assert(key_names()[20].0[0] != s[0]);
        assert(key_names()[21].0[0] != s[0]);
        assert(key_names()[22].0[0] != s[0]);
    } else if i == 24 {
        assert(s.subrange(0, 1) =~= s);
        assert(key_names()[16].0[0] != s[0]);
        assert(key_names()[17].0[0] != s[0]);
        assert(key_names()[18].0[0] != s[0]);
        assert(key_names()[19].0[0] != s[0]);
        assert(key_names()[20].0[0] != s[0]);
        assert(key_names()[21].0[0] != s[0]);
        assert(key_names()[22].0[0] != s[0]);
        assert(key_names()[23].0[0] != s[0]);
    } else {
        assert(s.subrange(0, 1) =~= s);
        assert(key_names()[16].0[0] != s[0]);
        assert(key_names()[17].0[0] != s[0]);
        assert(key_names()[18].0[0] != s[0]);
        assert(key_names()[19].0[0] != s[0]);
        assert(key_names()[20].0[0] != s[0]);
        assert(key_names()[21].0[0] != s[0]);
        assert(key_names()[22].0[0] != s[0]);
        assert(key_names()[23].0[0] != s[0]);
        assert(key_names()[24].0[0] != s[0]);
    }
}

/// The names of `key_names` are made of ASCII letters.
proof fn lemma_name_letters(i: int)
    requires
        0 <= i < key_names().len(),
    ensures
        forall|m: int| 0 <= m < key_names()[i].1.len() ==> 'A' <= #[trigger] key_names()[i].1[m] <= 'z',
{
    assert(key_names().len() == 26);
    if i == 0 {
    } else if i == 1 {
    } else if i == 2 {
    } else if i == 3 {
    } else if i == 4 {
    } else if i == 5 {
    } else if i == 6 {
    } else if i == 7 {
    } else if i == 8 {
    } else if i == 9 {
    } else if i == 10 {
    } else if i == 11 {
    } else if i == 12 {
    } else if i == 13 {
    } else if i == 14 {
    } else if i == 15 {
    } else if i == 16 {
    } else if i == 17 {
    } else if i == 18 {
    } else if i == 19 {
    } else if i == 20 {
    } else if i == 21 {
    } else if i == 22 {
    } else if i == 23 {
    } else if i == 24 {
    } else {
    }
}

/// Where `j` is the first index from `from` on that holds `b`, that is
/// what `find_byte` finds.
proof fn lemma_find_byte_at(s: Seq<u8>, from: int, b: u8, j: int)
    requires
        0 <= from <= j < s.len(),
        s[j] == b,
        forall|m: int| from <= m < j ==> s[m] != b,
    ensures
        find_byte(s, from, b) == Some(j),
    decreases j - from,
{
    if from < j {
        lemma_find_byte_at(s, from + 1, b, j);
    }
}

/// Reading back what the key reader writes: for every key that has a
/// name, `keytrans` of the text `keyseqstr` gives for its bytes (taken as
/// UTF-8, as `keytrans` reads it) is those bytes again.
pub proof fn named_key_round_trip(i: int)
    requires
        0 <= i < key_names().len(),
    ensures
        keytrans_from(encode_utf8(keyseq_from(key_names()[i].0, 0)), 0) == Some(key_names()[i].0),
{
    let b = key_names()[i].0;
    let name = key_names()[i].1;
    lemma_name_entry(i);
    lemma_name_letters(i);
    lemma_name_prefix(b, 0);
    key_names_read_back(i);
    assert(b.subrange(0, b.len() as int) =~= b);
    let t = seq!['<'] + name + seq!['>'];
    assert(keyseq1(b, false) == (t, b.len() as int));
    assert(keyseq_from(b, b.len() as int) == Seq::<char>::empty());
    assert(keyseq_from(b, 0) =~= t);
    assert(vstd::utf8::is_ascii_chars(t)) by {
        assert forall|m: int| 0 <= m < t.len() implies '\0' <= #[trigger] t[m] <= '\u{7f}' by {
            if 0 < m < t.len() - 1 {
                assert(t[m] == name[m - 1]);
            }
        }
    }
    vstd::utf8::is_ascii_chars_encode_utf8(t);
    let e = encode_utf8(t);
    let len = e.len() as int;
    assert(e[0] == 0x3cu8);
    assert(e[len - 1] == 0x3eu8);
    assert forall|m: int| 1 <= m < len - 1 implies e[m] != 0x3eu8 by {
        assert(t[m] == name[m - 1]);
        assert(e[m] == t[m] as u8);
    }
    lemma_find_byte_at(e, 1, 0x3eu8, len - 1);
    assert(e.subrange(1, len - 1) =~= name_bytes(name)) by {
        assert forall|m: int| 0 <= m < name.len() implies e.subrange(1, len - 1)[m] == #[trigger] name_bytes(
            name,
        )[m] by {
            assert(t[m + 1] == name[m]);
            assert(e[m + 1] == t[m + 1] as u8);
        }
    }
    assert(keytrans_from(e, len) == Some(e.subrange(len, len)));
    assert(e.subrange(len, len) =~= Seq::<u8>::empty());
    assert(e.subrange(0, 0) + b + Seq::<u8>::empty() =~= b);
}

} // verus!
