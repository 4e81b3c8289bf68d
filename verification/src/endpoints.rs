//! Groups of endpoints.
use vstd::prelude::*;

use crate::addr::SocketAddr;

verus! {

/// The addresses that serve a name on one port.
#[derive(Debug, PartialEq, Eq)]
pub struct EndpointGroup {
    addrs: Vec<SocketAddr>,
}

impl View for EndpointGroup {
    type V = Seq<SocketAddr>;

    closed spec fn view(&self) -> Seq<SocketAddr> {
        self.addrs@
    }
}

impl EndpointGroup {
    pub fn from_dns_addrs(addrs: Vec<SocketAddr>) -> (group: EndpointGroup)
        ensures
            group@ == addrs@,
    {
        EndpointGroup { addrs }
    }

    /// The addresses of the group, in order.
    pub fn addrs(&self) -> (addrs: &[SocketAddr])
        ensures
            addrs@ == self@,
    {
        self.addrs.as_slice()
    }
}

} // verus!
