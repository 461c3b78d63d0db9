use vstd::prelude::*;
use vstd::string::StringExecFns;
use crate::prompt::strings_view;

verus! {

/// A scripting function exposed to Lua, with its documentation: doc lines,
/// the table it lives in (if any), its name, its parameters (name and Lua
/// type) and its return type.
pub struct Export {
    pub doc: Vec<String>,
    pub table: Option<String>,
    pub name: String,
    pub params: Vec<(String, String)>,
    pub ret: String,
}

/// `nil` as characters.
pub open spec fn nil_chars() -> Seq<char> {
    seq!['n', 'i', 'l']
}

/// `"---" + line + "\n"` for each line.
pub open spec fn doc_lines(doc: Seq<Seq<char>>) -> Seq<char>
    decreases doc.len(),
{
    if doc.len() == 0 {
        Seq::empty()
    } else {
        doc_lines(doc.drop_last()) + seq!['-', '-', '-'] + doc.last() + seq!['\n']
    }
}

/// `---@param name type` lines.
pub open spec fn param_lines(params: Seq<(Seq<char>, Seq<char>)>) -> Seq<char>
    decreases params.len(),
{
    if params.len() == 0 {
        Seq::empty()
    } else {
        param_lines(params.drop_last()) + "---@param "@ + params.last().0 + seq![' ']
            + params.last().1 + seq!['\n']
    }
}

/// The parameter names separated by `, `.
pub open spec fn param_names(params: Seq<(Seq<char>, Seq<char>)>) -> Seq<char>
    decreases params.len(),
{
    if params.len() == 0 {
        Seq::empty()
    } else if params.len() == 1 {
        params[0].0
    } else {
        param_names(params.drop_last()) + seq![',', ' '] + params.last().0
    }
}

/// The Lua declaration of an export: doc comments, parameter and return
/// annotations, then an empty function with the export's prototype (a
/// method, with `:`, in the `treest` table; a field, with `.`, elsewhere).
pub open spec fn export_meta(
    doc: Seq<Seq<char>>,
    table: Option<Seq<char>>,
    name: Seq<char>,
    params: Seq<(Seq<char>, Seq<char>)>,
    ret: Seq<char>,
) -> Seq<char> {
    doc_lines(doc) + (if params.len() != 0 || ret != nil_chars() {
        "---\n"@
    } else {
        Seq::empty()
    }) + param_lines(params) + (if ret != nil_chars() {
        "---@return "@ + ret + seq!['\n']
    } else {
        Seq::empty()
    }) + "function "@ + (match table {
        Some(t) => t + (if t == "treest"@ {
            seq![':']
        } else {
            seq!['.']
        }),
        None => Seq::empty(),
    }) + name + seq!['('] + param_names(params) + ") end\n"@
}

/// The parameters with their characters.
pub open spec fn params_view(p: Seq<(String, String)>) -> Seq<(Seq<char>, Seq<char>)> {
    p.map_values(|q: (String, String)| (q.0@, q.1@))
}

impl Export {
    /// This export's Lua declaration (see `export_meta`).
    pub open spec fn meta(&self) -> Seq<char> {
        export_meta(
            strings_view(self.doc@),
            match self.table {
                Some(t) => Some(t@),
                None => None,
            },
            self.name@,
            params_view(self.params@),
            self.ret@,
        )
    }

    /// Write this export's Lua declaration.
    pub fn gen_lua_meta(&self) -> (r: String)
        ensures
            r@ == self.meta(),
    {
        proof {
            reveal_strlit("---");
            reveal_strlit("\n");
            reveal_strlit("---\n");
            reveal_strlit("---@param ");
            reveal_strlit(" ");
            reveal_strlit("---@return ");
            reveal_strlit("function ");
            reveal_strlit("treest");
            reveal_strlit(":");
            reveal_strlit(".");
            reveal_strlit("(");
            reveal_strlit(", ");
            reveal_strlit(") end\n");
            reveal_strlit("nil");
        }
        let mut r = String::new();
        let ghost doc = strings_view(self.doc@);
        let mut i: usize = 0;
        assert(doc.subrange(0, 0) =~= Seq::<Seq<char>>::empty());
        while i < self.doc.len()
            invariant
                doc == strings_view(self.doc@),
                0 <= i <= self.doc@.len(),
                r@ == doc_lines(doc.subrange(0, i as int)),
            decreases self.doc@.len() - i,
        {
            let ghost before = r@;
            proof {
                reveal_strlit("---");
                reveal_strlit("\n");
            }
            r.append("---");
            r.append(self.doc[i].as_str());
            r.append("\n");
            assert(doc.subrange(0, i + 1).drop_last() =~= doc.subrange(0, i as int));
            assert(doc.subrange(0, i + 1).last() == self.doc@[i as int]@);
            assert("---"@ =~= seq!['-', '-', '-']);
            assert("\n"@ =~= seq!['\n']);
            assert(r@ =~= before + seq!['-', '-', '-'] + self.doc@[i as int]@ + seq!['\n']);
            assert(r@ =~= doc_lines(doc.subrange(0, i + 1)));
            i += 1;
        }
        assert(doc.subrange(0, i as int) =~= doc);
        let ghost after_doc = r@;
        let nil = String::from_str("nil");
        let ret_is_nil = self.ret.eq(&nil);
        assert("nil"@ =~= nil_chars());
        assert(ret_is_nil == (self.ret@ == nil_chars()));
        let ghost hdr = if params_view(self.params@).len() != 0 || self.ret@ != nil_chars() {
            "---\n"@
        } else {
            Seq::<char>::empty()
        };
        if self.params.len() != 0 || !ret_is_nil {
            r.append("---\n");
        }
        assert(r@ =~= after_doc + hdr);
        let ghost params = params_view(self.params@);
        let ghost before_params = r@;
        let mut j: usize = 0;
        assert(params.subrange(0, 0) =~= Seq::<(Seq<char>, Seq<char>)>::empty());
        while j < self.params.len()
            invariant
                params == params_view(self.params@),
                0 <= j <= self.params@.len(),
                r@ == before_params + param_lines(params.subrange(0, j as int)),
            decreases self.params@.len() - j,
        {
            let ghost before = r@;
            proof {
                reveal_strlit(" ");
                reveal_strlit("\n");
            }
            r.append("---@param ");
            r.append(self.params[j].0.as_str());
            r.append(" ");
            r.append(self.params[j].1.as_str());
            r.append("\n");
            assert(params.subrange(0, j + 1).drop_last() =~= params.subrange(0, j as int));
            assert(params.subrange(0, j + 1).last() == (self.params@[j as int].0@, self.params@[j as int].1@));
            assert(" "@ =~= seq![' ']);
            assert("\n"@ =~= seq!['\n']);
            assert(r@ =~= before + "---@param "@ + self.params@[j as int].0@ + seq![' '] + self.params@[j as int].1@ + seq!['\n']);
            assert(r@ =~= before_params + param_lines(params.subrange(0, j + 1)));
            j += 1;
        }
        assert(params.subrange(0, j as int) =~= params);
        let ghost after_params = r@;
        let ghost retl = if self.ret@ != nil_chars() {
            "---@return "@ + self.ret@ + seq!['\n']
        } else {
            Seq::<char>::empty()
        };
        if !ret_is_nil {
            r.append("---@return ");
            r.append(self.ret.as_str());
            r.append("\n");
            assert("\n"@ =~= seq!['\n']);
        }
        assert(r@ =~= after_params + retl);
        let ghost before_fn = r@;
        r.append("function ");
        match &self.table {
            Some(t) => {
                r.append(t.as_str());
                let treest = String::from_str("treest");
                if t.eq(&treest) {
                    r.append(":");
                } else {
                    r.append(".");
                }
            },
            None => {},
        }
        let ghost tbl = match &self.table {
            Some(t) => t@ + (if t@ == "treest"@ {
                seq![':']
            } else {
                seq!['.']
            }),
            None => Seq::<char>::empty(),
        };
        assert(":"@ =~= seq![':']);
        assert("."@ =~= seq!['.']);
        assert(r@ =~= before_fn + "function "@ + tbl);
        r.append(self.name.as_str());
        r.append("(");
        assert("("@ =~= seq!['(']);
        let ghost before_names = r@;
        let mut k: usize = 0;
        while k < self.params.len()
            invariant
                params == params_view(self.params@),
                0 <= k <= self.params@.len(),
                r@ == before_names + param_names(params.subrange(0, k as int)),
            decreases self.params@.len() - k,
        {
            let ghost before = r@;
            proof {
                reveal_strlit(", ");
            }
            if k > 0 {
                r.append(", ");
            }
            r.append(self.params[k].0.as_str());
            proof {
                let sub = params.subrange(0, k + 1);
                assert(sub.drop_last() =~= params.subrange(0, k as int));
                assert(sub.last().0 == self.params@[k as int].0@);
                assert(", "@ =~= seq![',', ' ']);
                if k == 0 {
                    assert(r@ =~= before + self.params@[k as int].0@);
                    assert(sub[0].0 == self.params@[0].0@);
                } else {
                    assert(r@ =~= before + seq![',', ' '] + self.params@[k as int].0@);
                }
                if k == 0 {
                    assert(sub.len() == 1);
                }
                assert(r@ =~= before_names + param_names(sub));
            }
            k += 1;
        }
        assert(params.subrange(0, k as int) =~= params);
        r.append(") end\n");
        assert(r@ =~= self.meta());
        r
    }
}

/// The whole Lua meta file: its header, the type aliases, the `treest`
/// library class, then each export's declaration after an empty line.
pub open spec fn meta_file(aliases: Seq<(Seq<char>, Seq<char>)>, exports: Seq<Seq<char>>) -> Seq<
    char,
> {
    "---@meta treest\n\n"@ + alias_lines(aliases)
        + "\n---@class treestlib\n---@field quitting boolean\n---@field mouse_event_pos PendingMouseInfo\ntreest = {}\n"@
        + export_blocks(exports)
}

/// `---@alias name type` lines.
pub open spec fn alias_lines(aliases: Seq<(Seq<char>, Seq<char>)>) -> Seq<char>
    decreases aliases.len(),
{
    if aliases.len() == 0 {
        Seq::empty()
    } else {
        alias_lines(aliases.drop_last()) + "---@alias "@ + aliases.last().0 + seq![' ']
            + aliases.last().1 + seq!['\n']
    }
}

/// Each export's declaration after an empty line.
pub open spec fn export_blocks(exports: Seq<Seq<char>>) -> Seq<char>
    decreases exports.len(),
{
    if exports.len() == 0 {
        Seq::empty()
    } else {
        export_blocks(exports.drop_last()) + seq!['\n'] + exports.last()
    }
}

/// The Lua meta file for the given type aliases (name and what it stands
/// for) and exports (see `meta_file`).
pub fn gen_lua_meta(aliases: &Vec<(String, String)>, exports: &Vec<Export>) -> (r: String)
    ensures
        r@ == meta_file(params_view(aliases@), exports@.map_values(|e: Export| e.meta())),
{
    proof {
        reveal_strlit("---@meta treest\n\n");
        reveal_strlit("---@alias ");
        reveal_strlit(" ");
        reveal_strlit("\n");
        reveal_strlit(
            "\n---@class treestlib\n---@field quitting boolean\n---@field mouse_event_pos PendingMouseInfo\ntreest = {}\n",
        );
    }
    let mut r = String::from_str("---@meta treest\n\n");
    let ghost al = params_view(aliases@);
    let mut i: usize = 0;
    assert(al.subrange(0, 0) =~= Seq::<(Seq<char>, Seq<char>)>::empty());
    while i < aliases.len()
        invariant
            al == params_view(aliases@),
            0 <= i <= aliases@.len(),
            r@ == "---@meta treest\n\n"@ + alias_lines(al.subrange(0, i as int)),
        decreases aliases@.len() - i,
    {
        let ghost before = r@;
        proof {
            reveal_strlit(" ");
            reveal_strlit("\n");
        }
        r.append("---@alias ");
        r.append(aliases[i].0.as_str());
        r.append(" ");
        r.append(aliases[i].1.as_str());
        r.append("\n");
        assert(al.subrange(0, i + 1).drop_last() =~= al.subrange(0, i as int));
        assert(al.subrange(0, i + 1).last() == (aliases@[i as int].0@, aliases@[i as int].1@));
        assert(" "@ =~= seq![' ']);
        assert("\n"@ =~= seq!['\n']);
        assert(r@ =~= before + "---@alias "@ + aliases@[i as int].0@ + seq![' '] + aliases@[i as int].1@ + seq!['\n']);
        assert(r@ =~= "---@meta treest\n\n"@ + alias_lines(al.subrange(0, i + 1)));
        i += 1;
    }
    assert(al.subrange(0, i as int) =~= al);
    r.append(
        "\n---@class treestlib\n---@field quitting boolean\n---@field mouse_event_pos PendingMouseInfo\ntreest = {}\n",
    );
    let ghost ex = exports@.map_values(|e: Export| e.meta());
    let ghost head = r@;
    let mut j: usize = 0;
    assert(ex.subrange(0, 0) =~= Seq::<Seq<char>>::empty());
    while j < exports.len()
        invariant
            ex == exports@.map_values(|e: Export| e.meta()),
            0 <= j <= exports@.len(),
            r@ == head + export_blocks(ex.subrange(0, j as int)),
        decreases exports@.len() - j,
    {
        let ghost before = r@;
        proof {
            reveal_strlit("\n");
        }
        r.append("\n");
        let block = exports[j].gen_lua_meta();
        r.append(block.as_str());
        assert(ex.subrange(0, j + 1).drop_last() =~= ex.subrange(0, j as int));
        assert(ex.subrange(0, j + 1).last() == exports@[j as int].meta());
        assert("\n"@ =~= seq!['\n']);
        assert(r@ =~= before + seq!['\n'] + exports@[j as int].meta());
        assert(r@ =~= head + export_blocks(ex.subrange(0, j + 1)));
        j += 1;
    }
    assert(ex.subrange(0, j as int) =~= ex);
    r
}

} // verus!
