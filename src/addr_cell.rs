//! The server's address as learnt from its ICE candidate: a write-once
//! state. Tasks that share it hold it behind a lock of their own and move
//! it on only through `receive_candidate`.

use vstd::prelude::*;
use crate::address::{address_text, SocketAddress};
use crate::candidate::{candidate_address, parse_candidate, split_on, port_ok};

verus! {

/// What is known of the server's address.
#[derive(Clone, Copy, Debug, PartialEq, Eq, Structural)]
pub enum ServerAddr {
    Finding,
    Found(SocketAddress),
}

impl ServerAddr {
    /// The state after a candidate line has been received: a resolved
    /// address stays as it is; otherwise the line's address is taken when
    /// the line carries one.
    pub open spec fn after(self, line: Seq<char>) -> ServerAddr {
        match self {
            ServerAddr::Found(_) => self,
            ServerAddr::Finding => match candidate_address(line) {
                Some(a) => ServerAddr::Found(a),
                None => ServerAddr::Finding,
            },
        }
    }

    /// The state after each of `lines` has been received, in order.
    pub open spec fn after_all(self, lines: Seq<Seq<char>>) -> ServerAddr
        decreases lines.len(),
    {
        if lines.len() == 0 {
            self
        } else {
            self.after_all(lines.drop_last()).after(lines.last())
        }
    }

    /// The text that tags a log line: `ip:port` once found, empty before.
    pub open spec fn tag_text(self) -> Seq<char> {
        match self {
            ServerAddr::Found(a) => address_text(a),
            ServerAddr::Finding => Seq::<char>::empty(),
        }
    }

    pub fn with_candidate(self, line: &str) -> (r: ServerAddr)
        ensures
            r == self.after(line@),
    {
        match self {
            ServerAddr::Found(_) => self,
            ServerAddr::Finding => match parse_candidate(line) {
                Some(a) => ServerAddr::Found(a),
                None => ServerAddr::Finding,
            },
        }
    }

    /// Moves the state on by a received candidate line: a found address is
    /// never replaced, and a line without an address changes nothing.
    pub fn receive_candidate(&mut self, line: &str)
        ensures
            *final(self) == old(self).after(line@),
    {
        *self = self.with_candidate(line);
    }

    pub fn tag(&self) -> (r: String)
        ensures
            r@ == self.tag_text(),
    {
        match self {
            ServerAddr::Found(a) => a.to_text(),
            ServerAddr::Finding => String::new(),
        }
    }
}

/// Once found, the address stays found, and the same, whatever lines follow.
pub proof fn lemma_found_stays_found(s: ServerAddr, lines: Seq<Seq<char>>)
    requires
        s is Found,
    ensures
        s.after_all(lines) == s,
    decreases lines.len(),
{
    if lines.len() > 0 {
        lemma_found_stays_found(s, lines.drop_last());
    }
}

/// A line with too few fields, or whose port field is not a number, leaves
/// an unresolved address unresolved.
pub proof fn lemma_malformed_keeps_finding(line: Seq<char>)
    requires
        split_on(line, ' ').len() < 6 || !port_ok(split_on(line, ' ')[5]),
    ensures
        ServerAddr::Finding.after(line) == ServerAddr::Finding,
{
}

} // verus!
