//! A datagram (UDP) transport step for a DNS client.
//!
//! The library holds the decision logic of the transport: classifying a
//! destination string as an IPv4 literal, an IPv6 literal, or unsupported;
//! choosing the bind family and the peer port from that classification; and
//! windowing the received datagram to the bytes actually read. The socket
//! calls themselves are connectionless I/O and live outside the library.

pub mod addr;
pub mod transport;
