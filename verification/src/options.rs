use vstd::prelude::*;
use crate::readline::same_chars;
use crate::text::{chars_of, string_of};

verus! {

/// Why the command line was refused.
pub enum OptionsError {
    NoTerminal,
    UnexpectedArg(String),
    ProviderNeeded,
    NotProvider(String),
    UserArgMissing,
    UserNotFile(String),
}

/// What the command line asks for: the argument for the provider, the
/// provider's name, and the user script to run first.
pub struct Options {
    pub provider_arg: String,
    pub provider_name: String,
    pub user_script: Option<String>,
}

/// The providers, by name.
pub open spec fn provider_names() -> Seq<Seq<char>> {
    seq![seq!['f', 's'], seq!['j', 's', 'o', 'n'], seq!['s', 'c', 'r', 'a', 't', 'c', 'h']]
}

/// The provider an argument calls for: `fs` for a directory, `json` for a
/// name ending in `.json`, none otherwise.
pub open spec fn guessed(arg: Seq<char>, is_dir: bool) -> Option<Seq<char>> {
    if is_dir {
        Some(seq!['f', 's'])
    } else if seq!['.', 'j', 's', 'o', 'n'].is_suffix_of(arg) {
        Some(seq!['j', 's', 'o', 'n'])
    } else {
        None
    }
}

/// A string of the characters `cs`.
fn str_of(cs: &[char]) -> (r: String)
    ensures
        r@ == cs@,
{
    string_of(cs)
}

/// The provider `arg` calls for (see `guessed`); `is_dir` tells whether it
/// names a directory.
pub fn guess(arg: &str, is_dir: bool) -> (r: Option<String>)
    ensures
        match guessed(arg@, is_dir) {
            Some(n) => r matches Some(s) && s@ == n,
            None => r is None,
        },
{
    if is_dir {
        return Some(str_of(&['f', 's']));
    }
    let a = chars_of(arg);
    let n = a.len();
    let ends = n >= 5 && a[n - 5] == '.' && a[n - 4] == 'j' && a[n - 3] == 's' && a[n - 2] == 'o' && a[n
        - 1] == 'n';
    proof {
        let suf = seq!['.', 'j', 's', 'o', 'n'];
        if ends {
            assert(suf =~= a@.subrange(n - 5, n as int));
        } else if suf.is_suffix_of(a@) {
            assert(a@[n - 5] == suf[0]);
            assert(a@[n - 4] == suf[1]);
            assert(a@[n - 3] == suf[2]);
            assert(a@[n - 2] == suf[3]);
            assert(a@[n - 1] == suf[4]);
        }
    }
    if ends {
        Some(str_of(&['j', 's', 'o', 'n']))
    } else {
        None
    }
}

/// Whether `name` names a provider.
pub fn is_provider(name: &str) -> (b: bool)
    ensures
        b == provider_names().contains(name@),
{
    let n = chars_of(name);
    let b = same_chars(n.as_slice(), &['f', 's']) || same_chars(n.as_slice(), &['j', 's', 'o', 'n'])
        || same_chars(n.as_slice(), &['s', 'c', 'r', 'a', 't', 'c', 'h']);
    proof {
        let ns = provider_names();
        if b {
            if n@ == ns[0] {
                assert(ns[0] == n@);
            } else if n@ == ns[1] {
                assert(ns[1] == n@);
            } else {
                assert(ns[2] == n@);
            }
        } else if ns.contains(name@) {
            let k = choose|k: int| 0 <= k < ns.len() && ns[k] == name@;
            assert(k == 0 || k == 1 || k == 2);
        }
    }
    b
}

/// Which option waits for its value, the next argument.
#[derive(Clone, Copy, PartialEq, Eq, Structural)]
pub enum Awaiting {
    Nothing,
    User,
    LuaMeta,
    Defaults,
    ProviderArg,
}

/// What to do after an argument: read the next one; show the usage or the
/// providers; check that the user script given is a file; write the Lua
/// API or the default configuration to a file (`-`: the standard output);
/// or give up with an error.
pub enum ParseAction {
    Next,
    Help,
    List,
    CheckUser(String),
    LuaMeta(String),
    Defaults(String),
    Fail(OptionsError),
}

/// Reading the command line, an argument at a time: the options so far,
/// how many positional arguments were read, and the option waiting for its
/// value.
pub struct ArgParse {
    pub options: Options,
    pub pos_count: usize,
    pub awaiting: Awaiting,
}

/// Whether `a` is `b`.
pub open spec fn is(a: Seq<char>, b: Seq<char>) -> bool {
    a == b
}

impl ArgParse {
    /// Start from `options` (the defaults).
    pub fn new(options: Options) -> (r: ArgParse)
        ensures
            r.options == options,
            r.pos_count == 0,
            r.awaiting == Awaiting::Nothing,
    {
        ArgParse { options, pos_count: 0, awaiting: Awaiting::Nothing }
    }

    /// Take the next argument `arg`: the value of the option waiting for
    /// one, an option, or a positional argument (the provider's argument,
    /// where `-` stands for an empty one and `--` takes the next argument
    /// as it is, then the provider's name).
    pub fn feed(&mut self, arg: String) -> (r: ParseAction)
        requires
            old(self).pos_count <= 2,
        ensures
            final(self).pos_count <= 2,
            ({
                let o = *old(self);
                let n = *final(self);
                let a = arg@;
                match o.awaiting {
                    Awaiting::User => r == ParseAction::CheckUser(arg) && n.options == o.options
                        && n.pos_count == o.pos_count && n.awaiting == Awaiting::Nothing,
                    Awaiting::LuaMeta => r == ParseAction::LuaMeta(arg) && n == o,
                    Awaiting::Defaults => r == ParseAction::Defaults(arg) && n == o,
                    Awaiting::ProviderArg => r is Next && n.options.provider_arg == arg && n.options.provider_name
                        == o.options.provider_name && n.options.user_script == o.options.user_script
                        && n.pos_count == o.pos_count && n.awaiting == Awaiting::Nothing,
                    Awaiting::Nothing => if is(a, seq!['-', '-', 'h', 'e', 'l', 'p']) || is(a, seq!['-', 'h']) {
                        r is Help && n == o
                    } else if is(a, seq!['-', '-', 'l', 'i', 's', 't']) || is(a, seq!['-', 'l']) {
                        r is List && n == o
                    } else if is(a, seq!['-', '-', 'u', 's', 'e', 'r']) || is(a, seq!['-', 'u']) {
                        r is Next && n.options == o.options && n.pos_count == o.pos_count && n.awaiting
                            == Awaiting::User
                    } else if is(a, seq!['-', '-', 'l', 'u', 'a', '-', 'm', 'e', 't', 'a']) {
                        r is Next && n.options == o.options && n.pos_count == o.pos_count && n.awaiting
                            == Awaiting::LuaMeta
                    } else if is(a, seq!['-', '-', 'd', 'e', 'f', 'a', 'u', 'l', 't', 's']) {
                        r is Next && n.options == o.options && n.pos_count == o.pos_count && n.awaiting
                            == Awaiting::Defaults
                    } else if o.pos_count == 0 {
                        &&& r is Next
                        &&& n.pos_count == 1
                        &&& n.options.provider_name == o.options.provider_name
                        &&& n.options.user_script == o.options.user_script
                        &&& if is(a, seq!['-']) {
                            n.options.provider_arg@.len() == 0 && n.awaiting == Awaiting::Nothing
                        } else if is(a, seq!['-', '-']) {
                            n.options.provider_arg == o.options.provider_arg && n.awaiting == Awaiting::ProviderArg
                        } else {
                            n.options.provider_arg == arg && n.awaiting == Awaiting::Nothing
                        }
                    } else if o.pos_count == 1 {
                        if provider_names().contains(a) {
                            &&& r is Next
                            &&& n.pos_count == 2
                            &&& n.options.provider_name == arg
                            &&& n.options.provider_arg == o.options.provider_arg
                            &&& n.options.user_script == o.options.user_script
                            &&& n.awaiting == Awaiting::Nothing
                        } else {
                            r == ParseAction::Fail(OptionsError::NotProvider(arg)) && n == o
                        }
                    } else {
                        r == ParseAction::Fail(OptionsError::UnexpectedArg(arg)) && n == o
                    },
                }
            }),
    {
        match self.awaiting {
            Awaiting::User => {
                self.awaiting = Awaiting::Nothing;
                return ParseAction::CheckUser(arg);
            },
            Awaiting::LuaMeta => {
                return ParseAction::LuaMeta(arg);
            },
            Awaiting::Defaults => {
                return ParseAction::Defaults(arg);
            },
            Awaiting::ProviderArg => {
                self.options.provider_arg = arg;
                self.awaiting = Awaiting::Nothing;
                return ParseAction::Next;
            },
            Awaiting::Nothing => {},
        }
        let a = chars_of(arg.as_str());
        let s = a.as_slice();
        if same_chars(s, &['-', '-', 'h', 'e', 'l', 'p']) || same_chars(s, &['-', 'h']) {
            return ParseAction::Help;
        }
        if same_chars(s, &['-', '-', 'l', 'i', 's', 't']) || same_chars(s, &['-', 'l']) {
            return ParseAction::List;
        }
        if same_chars(s, &['-', '-', 'u', 's', 'e', 'r']) || same_chars(s, &['-', 'u']) {
            self.awaiting = Awaiting::User;
            return ParseAction::Next;
        }
        if same_chars(s, &['-', '-', 'l', 'u', 'a', '-', 'm', 'e', 't', 'a']) {
            self.awaiting = Awaiting::LuaMeta;
            return ParseAction::Next;
        }
        if same_chars(s, &['-', '-', 'd', 'e', 'f', 'a', 'u', 'l', 't', 's']) {
            self.awaiting = Awaiting::Defaults;
            return ParseAction::Next;
        }
        if self.pos_count == 0 {
            self.pos_count = 1;
            let dash = s.len() == 1 && s[0] == '-';
            let dashes = s.len() == 2 && s[0] == '-' && s[1] == '-';
            proof {
                if dash {
                    assert(a@ =~= seq!['-']);
                }
                if dashes {
                    assert(a@ =~= seq!['-', '-']);
                }
            }
            if dash {
                self.options.provider_arg = String::new();
            } else if dashes {
                self.awaiting = Awaiting::ProviderArg;
            } else {
                self.options.provider_arg = arg;
            }
            return ParseAction::Next;
        }
        if self.pos_count == 1 {
            if !is_provider(arg.as_str()) {
                return ParseAction::Fail(OptionsError::NotProvider(arg));
            }
            self.pos_count = 2;
            self.options.provider_name = arg;
            return ParseAction::Next;
        }
        ParseAction::Fail(OptionsError::UnexpectedArg(arg))
    }

    /// The user script `user` was checked: a file becomes the user script;
    /// anything else is refused.
    pub fn user_checked(&mut self, user: String, is_file: bool) -> (r: Option<OptionsError>)
        ensures
            is_file ==> r is None && final(self).options.user_script == Some(user)
                && final(self).options.provider_arg == old(self).options.provider_arg
                && final(self).options.provider_name == old(self).options.provider_name
                && final(self).pos_count == old(self).pos_count && final(self).awaiting == old(self).awaiting,
            !is_file ==> r == Some(OptionsError::UserNotFile(user)) && *final(self) == *old(self),
    {
        if is_file {
            self.options.user_script = Some(user);
            None
        } else {
            Some(OptionsError::UserNotFile(user))
        }
    }

    /// The arguments ran out: an option waiting for its value gets its
    /// default (`-` to write to the standard output, an empty provider
    /// argument), except `--user`, which needs one.
    pub fn end_of_args(&mut self) -> (r: ParseAction)
        ensures
            match old(self).awaiting {
                Awaiting::User => r == ParseAction::Fail(OptionsError::UserArgMissing) && *final(self) == *old(self),
                Awaiting::LuaMeta => (r matches ParseAction::LuaMeta(f) && f@ == seq!['-']) && *final(self) == *old(self),
                Awaiting::Defaults => (r matches ParseAction::Defaults(f) && f@ == seq!['-']) && *final(self) == *old(self),
                Awaiting::ProviderArg => r is Next && final(self).options.provider_arg@.len() == 0
                    && final(self).options.provider_name == old(self).options.provider_name
                    && final(self).options.user_script == old(self).options.user_script
                    && final(self).pos_count == old(self).pos_count && final(self).awaiting == Awaiting::Nothing,
                Awaiting::Nothing => r is Next && *final(self) == *old(self),
            },
    {
        match self.awaiting {
            Awaiting::User => ParseAction::Fail(OptionsError::UserArgMissing),
            Awaiting::LuaMeta => ParseAction::LuaMeta(str_of(&['-'])),
            Awaiting::Defaults => ParseAction::Defaults(str_of(&['-'])),
            Awaiting::ProviderArg => {
                self.options.provider_arg = String::new();
                self.awaiting = Awaiting::Nothing;
                ParseAction::Next
            },
            Awaiting::Nothing => ParseAction::Next,
        }
    }

    /// The options read, once the arguments ran out: with only the
    /// provider's argument given, its provider is guessed (see `guess`;
    /// `arg_is_dir` tells whether the argument names a directory).
    pub fn finish(self, arg_is_dir: bool) -> (r: Result<Options, OptionsError>)
        requires
            self.awaiting == Awaiting::Nothing,
        ensures
            self.pos_count == 1 ==> match guessed(self.options.provider_arg@, arg_is_dir) {
                Some(g) => (r matches Ok(o) && o.provider_name@ == g && o.provider_arg == self.options.provider_arg
                    && o.user_script == self.options.user_script),
                None => r == Err::<Options, OptionsError>(OptionsError::ProviderNeeded),
            },
            self.pos_count != 1 ==> r == Ok::<Options, OptionsError>(self.options),
    {
        let mut o = self.options;
        if self.pos_count == 1 {
            match guess(o.provider_arg.as_str(), arg_is_dir) {
                Some(name) => {
                    o.provider_name = name;
                },
                None => {
                    return Err(OptionsError::ProviderNeeded);
                },
            }
        }
        Ok(o)
    }
}

} // verus!
