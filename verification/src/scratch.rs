use vstd::prelude::*;
use crate::fisovec::Order;
use crate::readline::{lex_less, lex_lt, same_chars};
use crate::text::chars_of;
use crate::tree::{NodePath, Provider};

verus! {

/// A tree to fill by hand: a root named `...`, nothing below until nodes
/// are added, all shown, ordered by name.
pub struct Scratch;

impl Scratch {
    /// The scratch tree (its argument is not used).
    pub fn new(_arg: &str) -> (r: Scratch) {
        Scratch
    }

    /// No argument calls for a scratch tree.
    pub fn guess(_arg: &str) -> (b: bool)
        ensures
            !b,
    {
        false
    }
}

/// How two names are ordered: as strings, character by character.
pub open spec fn name_order(a: Seq<char>, b: Seq<char>) -> Order {
    if lex_lt(a, b) {
        Order::Less
    } else if a == b {
        Order::Equal
    } else {
        Order::Greater
    }
}

impl Provider<String> for Scratch {
    /// Nothing is below any node until it is added.
    open spec fn gives(&self, path: Seq<String>, out: Seq<String>) -> bool {
        out.len() == 0
    }

    /// Every node is shown.
    open spec fn keeps(&self, path: Seq<String>) -> bool {
        true
    }

    /// By the names of the last nodes.
    open spec fn orders(&self, left: Seq<String>, right: Seq<String>) -> Order {
        name_order(left.last()@, right.last()@)
    }

    /// By its name.
    open spec fn shows(&self, path: Seq<String>) -> Seq<char> {
        path.last()@
    }

    fn provide_root(&self) -> (r: String)
        ensures
            r@ == seq!['.', '.', '.'],
    {
        crate::text::string_of(&['.', '.', '.'])
    }

    fn provide(&mut self, path: &NodePath<String>) -> (r: Vec<String>)
        ensures
            r@.len() == 0,
    {
        Vec::new()
    }

    fn order(&self, left: &NodePath<String>, right: &NodePath<String>) -> (r: Order)
        ensures
            r == name_order(left.tail.fragment@, right.tail.fragment@),
    {
        let l = chars_of(left.tail.fragment.as_str());
        let g = chars_of(right.tail.fragment.as_str());
        if lex_less(l.as_slice(), g.as_slice()) {
            Order::Less
        } else if same_chars(l.as_slice(), g.as_slice()) {
            Order::Equal
        } else {
            Order::Greater
        }
    }

    fn keep(&self, path: &NodePath<String>) -> (b: bool)
        ensures
            b,
    {
        true
    }

    fn display(&self, path: &NodePath<String>) -> (r: String)
        ensures
            r@ == path.tail.fragment@,
    {
        path.tail.fragment.clone()
    }
}

} // verus!
