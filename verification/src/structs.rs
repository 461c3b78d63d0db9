use vstd::prelude::*;
use vstd::string::StringExecFns;
use crate::prompt::PromptSplitInfo;

verus! {

/// A path in a tree: the child position to take at each level.
#[derive(Clone)]
pub struct IndexPath(pub Vec<usize>);

impl IndexPath {
    /// The path with these positions.
    pub fn from_vec(v: Vec<usize>) -> (r: IndexPath)
        ensures
            r.0@ == v@,
    {
        IndexPath(v)
    }

    /// The path given with positions counted from 1 (as Lua counts).
    pub fn from_one_based(v: Vec<usize>) -> (r: IndexPath)
        requires
            forall|i: int| 0 <= i < v@.len() ==> v@[i] > 0,
        ensures
            r.0@ == zero_based(v@),
    {
        let mut v = v;
        let mut i: usize = 0;
        let ghost orig = v@;
        while i < v.len()
            invariant
                0 <= i <= v@.len(),
                v@.len() == orig.len(),
                forall|j: int| 0 <= j < orig.len() ==> orig[j] > 0,
                forall|j: int| 0 <= j < i ==> v@[j] == orig[j] - 1,
                forall|j: int| i <= j < v@.len() ==> v@[j] == orig[j],
            decreases v@.len() - i,
        {
            let k = v[i];
            assert(k == orig[i as int] && orig[i as int] > 0);
            v.set(i, k - 1);
            i += 1;
        }
        assert(v@ =~= zero_based(orig));
        IndexPath(v)
    }

    /// The positions counted from 1 (as Lua counts).
    pub fn to_one_based(self) -> (r: Vec<usize>)
        requires
            forall|i: int| 0 <= i < self.0@.len() ==> self.0@[i] < usize::MAX,
        ensures
            r@ == one_based(self.0@),
    {
        let mut v = self.0;
        let mut i: usize = 0;
        let ghost orig = v@;
        while i < v.len()
            invariant
                0 <= i <= v@.len(),
                v@.len() == orig.len(),
                forall|j: int| 0 <= j < orig.len() ==> orig[j] < usize::MAX,
                forall|j: int| 0 <= j < i ==> v@[j] == orig[j] + 1,
                forall|j: int| i <= j < v@.len() ==> v@[j] == orig[j],
            decreases v@.len() - i,
        {
            let k = v[i];
            assert(k == orig[i as int] && orig[i as int] < usize::MAX);
            v.set(i, k + 1);
            i += 1;
        }
        assert(v@ =~= one_based(orig));
        v
    }
}

/// Positions counted from 1 made to count from 0.
pub open spec fn zero_based(p: Seq<usize>) -> Seq<usize> {
    p.map_values(|k: usize| (k - 1) as usize)
}

/// Positions counted from 0 made to count from 1.
pub open spec fn one_based(p: Seq<usize>) -> Seq<usize> {
    p.map_values(|k: usize| (k + 1) as usize)
}

/// Counting from 1 and back gives the same path.
pub proof fn one_based_roundtrip(p: Seq<usize>)
    requires
        forall|i: int| 0 <= i < p.len() ==> p[i] < usize::MAX,
    ensures
        zero_based(one_based(p)) == p,
        forall|i: int| 0 <= i < p.len() ==> #[trigger] one_based(p)[i] > 0,
{
    assert(zero_based(one_based(p)) =~= p);
}

/// The Lua type a Rust type is documented as.
pub trait LuaTypeDoc {
    fn lua_type_doc() -> String;
}

/// What a documented Lua type alias stands for.
pub trait LuaTypeAliasDoc {
    fn lua_type_doc_alias_to() -> String;
}

impl LuaTypeDoc for bool {
    fn lua_type_doc() -> (r: String)
        ensures
            r@ == "boolean"@,
    {
        String::from_str("boolean")
    }
}

impl LuaTypeDoc for usize {
    fn lua_type_doc() -> (r: String)
        ensures
            r@ == "integer"@,
    {
        String::from_str("integer")
    }
}

impl LuaTypeDoc for String {
    fn lua_type_doc() -> (r: String)
        ensures
            r@ == "string"@,
    {
        String::from_str("string")
    }
}

impl LuaTypeDoc for IndexPath {
    fn lua_type_doc() -> (r: String)
        ensures
            r@ == "integer[]"@,
    {
        String::from_str("integer[]")
    }
}

impl LuaTypeDoc for Target {
    fn lua_type_doc() -> (r: String)
        ensures
            r@ == "Target"@,
    {
        String::from_str("Target")
    }
}

impl LuaTypeAliasDoc for Target {
    fn lua_type_doc_alias_to() -> (r: String)
        ensures
            r@ == "integer[]?"@,
    {
        String::from_str("integer[]?")
    }
}

impl LuaTypeDoc for PromptSplitInfo {
    fn lua_type_doc() -> (r: String)
        ensures
            r@ == "PromptSplitInfo"@,
    {
        String::from_str("PromptSplitInfo")
    }
}

impl LuaTypeAliasDoc for PromptSplitInfo {
    fn lua_type_doc_alias_to() -> (r: String)
        ensures
            r@ == "{ parts: string[], in_part: integer? }"@,
    {
        String::from_str("{ parts: string[], in_part: integer? }")
    }
}

/// What an operation applies to: the node under the cursor, or the node at
/// a path.
pub enum Target {
    Cursor,
    Path(IndexPath),
    TrustedPath(IndexPath),
}

} // verus!
