//! Network endpoints of data nodes.

use vstd::prelude::*;
use vstd::string::*;

use crate::decimal::{decimal, decimal_string};

verus! {

/// A data node's endpoint, with a port as on the wire of the node service.
#[derive(Debug, Clone)]
pub struct NodeAddress {
    pub host: String,
    pub port: u16,
}

/// A data node's endpoint as the name node records it.
#[derive(Debug, Clone)]
pub struct SerializableNodeAddress {
    pub host: String,
    pub port: u32,
}

/// An endpoint as a value: host text and port.
pub type AddrModel = (Seq<char>, u32);

impl View for SerializableNodeAddress {
    type V = AddrModel;

    open spec fn view(&self) -> AddrModel {
        (self.host@, self.port)
    }
}

/// The `host:port` text of an endpoint.
pub open spec fn uri_of(a: AddrModel) -> Seq<char> {
    a.0 + seq![':'] + decimal(a.1 as nat)
}

impl SerializableNodeAddress {
    pub fn new(host: String, port: u32) -> (r: SerializableNodeAddress)
        ensures
            r@ == (host@, port),
    {
        SerializableNodeAddress { host, port }
    }

    /// `host:port`, the form in which a replica chain names its next hops.
    pub fn uri(&self) -> (r: String)
        ensures
            r@ == uri_of(self@),
    {
        let mut s = self.host.clone();
        proof { reveal_strlit(":"); }
        s.append(":");
        let digits = decimal_string(self.port);
        s.append(digits.as_str());
        s
    }

    /// This endpoint with a 16-bit port, if the port fits.
    pub fn to_node_address(&self) -> (r: Option<NodeAddress>)
        ensures
            self.port <= 65535 ==> r is Some && r->Some_0.host@ == self.host@ && r->Some_0.port as u32
                == self.port,
            self.port > 65535 ==> r is None,
    {
        if self.port <= 65535 {
            Some(NodeAddress { host: self.host.clone(), port: self.port as u16 })
        } else {
            None
        }
    }

    /// A copy of this endpoint.
    pub fn duplicate(&self) -> (r: SerializableNodeAddress)
        ensures
            r@ == self@,
    {
        SerializableNodeAddress { host: self.host.clone(), port: self.port }
    }
}

impl From<NodeAddress> for SerializableNodeAddress {
    fn from(a: NodeAddress) -> (r: SerializableNodeAddress) {
        SerializableNodeAddress { host: a.host, port: a.port as u32 }
    }
}

impl vstd::std_specs::convert::FromSpecImpl<NodeAddress> for SerializableNodeAddress {
    open spec fn obeys_from_spec() -> bool {
        true
    }

    open spec fn from_spec(a: NodeAddress) -> SerializableNodeAddress {
        SerializableNodeAddress { host: a.host, port: a.port as u32 }
    }
}

} // verus!
