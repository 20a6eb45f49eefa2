//! The UDP transport: one DNS query, one reply datagram.
//!
//! A transport holds only its destination string.  Each send classifies that
//! string afresh, binds an ephemeral local endpoint of the matching family,
//! pins it to the peer, writes the serialized request as one datagram and
//! reads one reply into a fixed-capacity buffer.  This module carries the
//! decisions of that exchange — the classification, the bind family, the
//! peer port, the receive window — while the socket calls themselves stay
//! with the caller that owns the I/O.

use vstd::prelude::*;

use crate::addr::{address_class, classify, dest_bytes, AddressClass};

verus! {

/// The standard DNS port, used when the destination does not carry its own.
pub const DNS_PORT: u16 = 53;

/// The fixed capacity of the receive buffer, in bytes.  A longer reply is
/// silently cut to this many bytes by datagram semantics.
pub const RECV_BUFFER_LEN: usize = 4096;

/// Why one send/receive exchange failed.  No failure is retried: each is
/// mapped to a variant and returned, and the endpoint is released either way.
#[derive(Debug, Clone, PartialEq, Eq)]
pub enum TransportError {
    /// The destination is not an IPv4 or IPv6 literal; no socket is touched.
    UnsupportedAddress,
    /// Binding, pinning, writing or reading the socket failed.
    NetworkError(String),
    /// The request could not be turned into wire bytes.
    SerializationError(String),
    /// The received bytes are not a well-formed reply.
    ParseError(String),
}

/// Which wildcard address the local endpoint binds to.
#[derive(Clone, Copy, PartialEq, Eq, Structural, Debug)]
pub enum IpFamily {
    V4,
    V6,
}

/// Where the pinned peer's port comes from.
#[derive(Clone, Copy, PartialEq, Eq, Structural, Debug)]
pub enum PeerTarget {
    /// Pin to the destination paired with `DNS_PORT`.
    HostWithDefaultPort,
    /// The destination already reads `host:port`: pin to it as given.
    FullAddrAsGiven,
}

/// The socket decisions of one exchange.  The bind family and the peer pin
/// both come from the one classification of the destination, so a family
/// mismatch between them cannot arise.
#[derive(Clone, Copy, PartialEq, Eq, Structural, Debug)]
pub struct DatagramPlan {
    pub family: IpFamily,
    pub target: PeerTarget,
}

/// The plan a destination's bytes yield, if the destination is supported.
pub open spec fn plan_of(b: Seq<u8>) -> Option<DatagramPlan> {
    match address_class(b) {
        AddressClass::Ipv4 { explicit_port } => Some(
            DatagramPlan {
                family: IpFamily::V4,
                target: if explicit_port {
                    PeerTarget::FullAddrAsGiven
                } else {
                    PeerTarget::HostWithDefaultPort
                },
            },
        ),
        AddressClass::Ipv6 => Some(
            DatagramPlan { family: IpFamily::V6, target: PeerTarget::HostWithDefaultPort },
        ),
        AddressClass::Invalid => None,
    }
}

/// The UDP transport: delivers one DNS query to a resolver over a datagram
/// socket and hands back the reply bytes for parsing.
pub struct UdpTransport {
    addr: String,
}

impl View for UdpTransport {
    type V = Seq<char>;

    closed spec fn view(&self) -> Seq<char> {
        self.addr@
    }
}

impl UdpTransport {
    /// Creates a new UDP transport that connects to the given host.  Nothing
    /// is validated or resolved here: a bad destination fails per send.
    pub fn new(addr: String) -> (t: Self)
        ensures
            t@ == addr@,
    {
        UdpTransport { addr }
    }

    /// The destination string, exactly as given at construction.
    pub fn addr(&self) -> (a: &str)
        ensures
            a@ == self@,
    {
        self.addr.as_str()
    }

    /// Classifies the destination and decides the whole socket lifecycle of
    /// one exchange: which wildcard address to bind and which peer to pin.
    /// A destination that is no IP literal is refused here, before any
    /// socket exists.
    pub fn plan(&self) -> (r: Result<DatagramPlan, TransportError>)
        ensures
            match r {
                Ok(p) => plan_of(dest_bytes(self@)) == Some(p),
                Err(e) => plan_of(dest_bytes(self@)) is None && e
                    == TransportError::UnsupportedAddress,
            },
    {
        match classify(self.addr.as_str()) {
            AddressClass::Ipv4 { explicit_port } => Ok(
                DatagramPlan {
                    family: IpFamily::V4,
                    target: if explicit_port {
                        PeerTarget::FullAddrAsGiven
                    } else {
                        PeerTarget::HostWithDefaultPort
                    },
                },
            ),
            AddressClass::Ipv6 => Ok(
                DatagramPlan { family: IpFamily::V6, target: PeerTarget::HostWithDefaultPort },
            ),
            AddressClass::Invalid => Err(TransportError::UnsupportedAddress),
        }
    }
}

// ---------------------------------------------------------------------------
// Laws of the plan.
// ---------------------------------------------------------------------------

/// Law: for a destination that is a bare IPv4 literal, the endpoint binds to
/// the IPv4 wildcard and the peer pin targets the host with the default DNS
/// port.
pub proof fn lemma_plan_bare_ipv4(b: Seq<u8>)
    requires
        crate::addr::is_ipv4_bytes(b),
        !crate::addr::has_port_separator(b),
    ensures
        plan_of(b) == Some(
            DatagramPlan { family: IpFamily::V4, target: PeerTarget::HostWithDefaultPort },
        ),
{
    crate::addr::lemma_bare_ipv4_default_port(b);
}

/// Law: for a destination whose host portion is an IPv4 literal followed by
/// a port separator, the endpoint binds to the IPv4 wildcard and the peer
/// pin takes the destination's own `host:port`, not the default port.
pub proof fn lemma_plan_ipv4_explicit_port(b: Seq<u8>)
    requires
        crate::addr::is_ipv4_bytes(crate::addr::host_part(b)),
        crate::addr::has_port_separator(b),
    ensures
        plan_of(b) == Some(
            DatagramPlan { family: IpFamily::V4, target: PeerTarget::FullAddrAsGiven },
        ),
{
    crate::addr::lemma_ipv4_with_explicit_port(b);
}

/// Law: for a destination that is an IPv6 literal, the endpoint binds to the
/// IPv6 wildcard and the peer pin targets the host with the default DNS
/// port.
pub proof fn lemma_plan_ipv6(b: Seq<u8>)
    requires
        crate::addr::is_ipv6_bytes(b),
    ensures
        plan_of(b) == Some(
            DatagramPlan { family: IpFamily::V6, target: PeerTarget::HostWithDefaultPort },
        ),
{
    crate::addr::lemma_ipv6_classifies_as_ipv6(b);
}

/// Law: a destination that is no IP literal yields no plan at all, so the
/// send is refused before any socket exists.
pub proof fn lemma_plan_non_literal(b: Seq<u8>)
    requires
        !crate::addr::is_ipv4_bytes(crate::addr::host_part(b)),
        !crate::addr::is_ipv6_bytes(b),
    ensures
        plan_of(b) is None,
{
    crate::addr::lemma_non_literal_is_invalid(b);
}

/// Law: the bind family of every plan matches the classification of the one
/// parse that also chose the peer pin, so a family mismatch between the
/// local bind and the pinned peer cannot arise.
pub proof fn lemma_plan_family_matches_class(b: Seq<u8>)
    ensures
        match plan_of(b) {
            Some(p) => (p.family == IpFamily::V4 <==> address_class(b) is Ipv4) && (p.family
                == IpFamily::V6 <==> address_class(b) is Ipv6),
            None => address_class(b) is Invalid,
        },
{
}

/// A fresh, zeroed receive buffer of the fixed capacity, allocated per call
/// and never shared.
pub fn recv_buffer() -> (b: Vec<u8>)
    ensures
        b@.len() == RECV_BUFFER_LEN,
        forall|i: int| 0 <= i < b@.len() ==> b@[i] == 0,
{
    let mut b: Vec<u8> = Vec::new();
    let mut i: usize = 0;
    while i < RECV_BUFFER_LEN
        invariant
            i <= RECV_BUFFER_LEN,
            b@.len() == i,
            forall|t: int| 0 <= t < b@.len() ==> b@[t] == 0,
        decreases RECV_BUFFER_LEN - i,
    {
        b.push(0);
        i += 1;
    }
    b
}

/// The bytes the parse step receives: the first `received` bytes of the
/// buffer.  Whatever lies beyond them was never written by the read and is
/// discarded, so an oversize reply is cut at the buffer capacity.
pub fn reply_window(buf: Vec<u8>, received: usize) -> (r: Vec<u8>)
    requires
        received <= buf@.len(),
    ensures
        r@ == buf@.take(received as int),
{
    let mut b = buf;
    b.truncate(received);
    b
}

} // verus!
