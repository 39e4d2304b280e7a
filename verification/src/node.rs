//! The node capability and the default node type.
//!
//! A ring can route to any caller-supplied node type that offers a stable
//! textual identity (used for hashing and display) and cheap duplication
//! (the ring stores its own copies, never the caller's values).

use crate::digits::{dec_chars, push_decimal};
use vstd::prelude::*;
use vstd::string::StringExecFns;

verus! {

/// What a ring node must offer: a stable textual identity and duplication.
///
/// `id` is the mathematical identity; `identity` must render exactly those
/// characters, and `duplicate` must return a value equal to the original.
pub trait RingNode: Sized {
    /// The identity characters, as a mathematical function of the node.
    spec fn id(&self) -> Seq<char>;

    /// Renders the stable identity string.
    fn identity(&self) -> (s: String)
        ensures
            s@ == self.id(),
    ;

    /// Duplicates the node; the ring keeps copies, so later caller-side
    /// changes to the original value cannot affect ring state.
    fn duplicate(&self) -> (r: Self)
        ensures
            r == *self,
    ;
}

/// A convenience node type holding a host name and a port; its identity
/// is `"{host}:{port}"`. Callers are free to use their own node type instead.
#[derive(Clone, Debug, PartialEq)]
pub struct NodeInfo {
    pub host: &'static str,
    pub port: u16,
}

impl RingNode for NodeInfo {
    open spec fn id(&self) -> Seq<char> {
        self.host@ + seq![':'] + dec_chars(self.port as int)
    }

    fn identity(&self) -> (s: String) {
        let mut s: String = self.host.to_owned();
        s.append(":");
        push_decimal(&mut s, self.port as u64);
        proof {
            reveal_strlit(":");
            assert(s@ =~= self.id());
        }
        s
    }

    fn duplicate(&self) -> (r: Self) {
        NodeInfo { host: self.host, port: self.port }
    }
}

} // verus!
