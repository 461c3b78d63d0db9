use vstd::prelude::*;
use crate::text::string_of;

verus! {

/// Why a directory could not be opened as a tree.
pub enum FsProviderError {
    NotADirectory,
}

/// What a file system entry is: a directory (with how many entries), a
/// symbolic link (with its target and what that is), a named pipe, a
/// character or block device, a regular file, a socket, or an executable
/// file.
pub enum FsNodeKind {
    Directory(usize),
    SymLink(String, Box<FsNodeKind>),
    NamedPipe,
    CharDevice,
    BlockDevice,
    Regular,
    Socket,
    Executable,
}

/// Read, write and execute permissions as `rwx`, a `-` for each one
/// missing (the three low bits of `perm`, read highest).
pub open spec fn perm_text(perm: u32) -> Seq<char> {
    seq![
        if (perm >> 2u32) & 1u32 == 1u32 { 'r' } else { '-' },
        if (perm >> 1u32) & 1u32 == 1u32 { 'w' } else { '-' },
        if perm & 1u32 == 1u32 { 'x' } else { '-' },
    ]
}

/// The letter `ls` shows for a kind of entry.
pub open spec fn kind_letter(kind: FsNodeKind) -> char {
    match kind {
        FsNodeKind::Directory(_) => 'd',
        FsNodeKind::SymLink(_, _) => 'l',
        FsNodeKind::NamedPipe => 'p',
        FsNodeKind::CharDevice => 'c',
        FsNodeKind::BlockDevice => 'b',
        FsNodeKind::Socket => 's',
        FsNodeKind::Regular | FsNodeKind::Executable => '-',
    }
}

/// The permissions of an entry of `kind` with `mode`, as `ls -l` shows
/// them: its letter, then owner, group and world permissions.
pub open spec fn meta_text(kind: FsNodeKind, mode: u32) -> Seq<char> {
    seq![kind_letter(kind)] + perm_text((mode >> 6u32) & 7u32) + perm_text((mode >> 3u32) & 7u32) + perm_text(
        mode & 7u32,
    )
}

/// See `perm_text`.
pub fn write_perm(perm: u32) -> (r: String)
    ensures
        r@ == perm_text(perm),
{
    let mut v: Vec<char> = Vec::new();
    v.push(if (perm >> 2) & 1 == 1 { 'r' } else { '-' });
    v.push(if (perm >> 1) & 1 == 1 { 'w' } else { '-' });
    v.push(if perm & 1 == 1 { 'x' } else { '-' });
    assert(v@ =~= perm_text(perm));
    string_of(v.as_slice())
}

/// See `meta_text`.
pub fn write_meta(kind: &FsNodeKind, mode: u32) -> (r: String)
    ensures
        r@ == meta_text(*kind, mode),
{
    let letter = match kind {
        FsNodeKind::Directory(_) => 'd',
        FsNodeKind::SymLink(_, _) => 'l',
        FsNodeKind::NamedPipe => 'p',
        FsNodeKind::CharDevice => 'c',
        FsNodeKind::BlockDevice => 'b',
        FsNodeKind::Socket => 's',
        FsNodeKind::Regular | FsNodeKind::Executable => '-',
    };
    let mut v: Vec<char> = Vec::new();
    v.push(letter);
    let owner = crate::text::chars_of(write_perm((mode >> 6) & 7).as_str());
    let group = crate::text::chars_of(write_perm((mode >> 3) & 7).as_str());
    let world = crate::text::chars_of(write_perm(mode & 7).as_str());
    crate::readline::push_chars(&mut v, owner.as_slice());
    crate::readline::push_chars(&mut v, group.as_slice());
    crate::readline::push_chars(&mut v, world.as_slice());
    assert(v@ =~= meta_text(*kind, mode));
    string_of(v.as_slice())
}

/// Whether an entry is shown: its name does not start with a dot.
pub fn keep_name(name: &str) -> (b: bool)
    ensures
        b == !(name@.len() > 0 && name@[0] == '.'),
{
    let cs = crate::text::chars_of(name);
    !(cs.len() > 0 && cs[0] == '.')
}

} // verus!
