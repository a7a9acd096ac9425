//! Configuration for a listening server. The listener itself is I/O glue and
//! lives outside the verified library; this type only carries the address it
//! binds to.
use vstd::prelude::*;

verus! {

/// The address a server listens on.
pub struct Server {
    addr: String,
}

impl Server {
    /// The address this server was built with, as a sequence of characters.
    pub closed spec fn address(&self) -> Seq<char> {
        self.addr@
    }

    /// Builds a server bound to the given address.
    pub fn new(addr: String) -> (s: Server)
        ensures
            s.address() == addr@,
    {
        Server { addr }
    }

    /// The address this server was built with.
    pub fn addr(&self) -> (a: &String)
        ensures
            a@ == self.address(),
    {
        &self.addr
    }
}

} // verus!
