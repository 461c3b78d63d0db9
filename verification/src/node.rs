use vstd::prelude::*;
use crate::text::string_of;

verus! {

/// Direction of a move among siblings.
#[derive(Clone, Copy, PartialEq, Eq, Structural)]
pub enum Movement {
    Forward,
    Backward,
}

impl Movement {
    /// The signed step of the move: 1 forward, -1 backward.
    pub fn step(self) -> (r: i32)
        ensures
            r == (if self is Forward { 1int } else { -1int }),
    {
        match self {
            Movement::Forward => 1,
            Movement::Backward => -1,
        }
    }
}

/// The property that children are sorted by.
#[derive(Clone, Copy, PartialEq, Eq, Structural)]
pub enum SortingProp {
    Unsorted,
    Name,
    Size,
    Extension,
    ATime,
    MTime,
    CTime,
}

/// How children are sorted.
#[derive(Clone, Copy, PartialEq, Eq, Structural)]
pub struct Sorting {
    pub prop: SortingProp,
    pub dirs_first: bool,
}

impl Sorting {
    /// Sort by `prop`, directories first when `dirs_first`.
    pub fn new(prop: SortingProp, dirs_first: bool) -> (r: Sorting)
        ensures
            r.prop == prop,
            r.dirs_first == dirs_first,
    {
        Sorting { prop, dirs_first }
    }
}

/// Which children are shown: those matching a glob pattern, or those that a
/// named ignore file does not exclude.
pub enum Filtering {
    Pattern(String),
    IgnoreFile(String, Vec<String>),
}

impl Filtering {
    /// A filter on the glob pattern `pat`.
    pub fn new_pattern(pat: String) -> (r: Filtering)
        ensures
            r matches Filtering::Pattern(p) && p@ == pat@,
    {
        Filtering::Pattern(pat)
    }

    /// Two filters are the same when they have the same pattern, or come from
    /// the same ignore file (whatever patterns were read from it).
    pub open spec fn same_as(&self, other: &Filtering) -> bool {
        match (self, other) {
            (Filtering::Pattern(a), Filtering::Pattern(b)) => a@ == b@,
            (Filtering::IgnoreFile(a, _), Filtering::IgnoreFile(b, _)) => a@ == b@,
            _ => false,
        }
    }

    /// Whether `self` and `other` are the same filter (see `same_as`).
    pub fn eq(&self, other: &Filtering) -> (b: bool)
        ensures
            b == self.same_as(other),
    {
        match (self, other) {
            (Filtering::Pattern(a), Filtering::Pattern(b)) => a.eq(b),
            (Filtering::IgnoreFile(a, _), Filtering::IgnoreFile(b, _)) => a.eq(b),
            _ => false,
        }
    }
}

/// Kind of a non-directory file.
#[derive(Clone, Copy, PartialEq, Eq, Structural)]
pub enum FileKind {
    NamedPipe,
    CharDevice,
    BlockDevice,
    Regular,
    Socket,
    Executable,
}

/// The character for one permission bit: `set` if bit `bit` of `o` is on,
/// else `-`.
pub open spec fn perm_char(o: u32, bit: u32, set: char) -> char {
    if (o >> bit) & 1 == 1 {
        set
    } else {
        '-'
    }
}

/// `rwx`-style rendering of the three low bits of `o`.
pub open spec fn perm_spec(o: u32) -> Seq<char> {
    seq![perm_char(o, 2, 'r'), perm_char(o, 1, 'w'), perm_char(o, 0, 'x')]
}

/// Render the three low permission bits of `o` as `rwx`, `-` for an unset
/// bit.
pub fn perm_to_string(o: u32) -> (s: String)
    ensures
        s@ == perm_spec(o),
{
    let v: Vec<char> = vec![
        if (o >> 2u32) & 1 == 1 { 'r' } else { '-' },
        if (o >> 1u32) & 1 == 1 { 'w' } else { '-' },
        if o & 1 == 1 { 'x' } else { '-' },
    ];
    proof {
        assert(o >> 0u32 == o) by (bit_vector);
    }
    let s = string_of(v.as_slice());
    assert(s@ =~= perm_spec(o));
    s
}

} // verus!
