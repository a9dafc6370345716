//! Socket addresses, as the proxy sees them.

use vstd::prelude::*;

verus! {

/// A socket address in its textual form, `host:port`, with an IPv6 host in
/// square brackets. The proxy never looks inside an address: it tells two
/// apart, hands them on and prints them, so the text is all it keeps. Two
/// addresses are the same when their texts are.
#[derive(Debug, PartialEq, Eq, Hash)]
pub struct SocketAddress(pub String);

impl View for SocketAddress {
    type V = Seq<char>;

    open spec fn view(&self) -> Seq<char> {
        self.0@
    }
}

impl DeepView for SocketAddress {
    type V = Seq<char>;

    open spec fn deep_view(&self) -> Seq<char> {
        self.0@
    }
}

impl Clone for SocketAddress {
    fn clone(&self) -> (copy: Self)
        ensures
            copy@ == self@,
    {
        SocketAddress(self.0.clone())
    }
}

impl SocketAddress {
    /// The address that `text` spells.
    pub fn new(text: &str) -> (addr: Self)
        ensures
            addr@ == text@,
    {
        SocketAddress(String::from_str(text))
    }

    /// The text of the address.
    pub fn as_str(&self) -> (text: &str)
        ensures
            text@ == self@,
    {
        self.0.as_str()
    }
}

} // verus!
