//! What the packet filter is told of a packet.

use etherparse::NetSlice::{Arp, Ipv4, Ipv6};
use etherparse::SlicedPacket;
use etherparse::TransportSlice::{Icmpv4, Icmpv6, Tcp, Udp};
use vstd::prelude::*;

use self::NetPart::{AddressResolution, Version4, Version6};
use self::TransportPart::{IcmpForVersion4, IcmpForVersion6, NoTransport, TcpPorts, UdpPorts};
use crate::types::Packet;

verus! {

/// An address of either version of the Internet Protocol.
#[derive(Clone, Copy, Debug, PartialEq, Eq)]
pub enum IpAddr {
    /// Of version 4.
    V4([u8; 4]),
    /// Of version 6.
    V6([u8; 16]),
}

/// The number of the protocol that a packet carries.
#[derive(Clone, Copy, Debug, PartialEq, Eq, Structural)]
pub struct IpProto(pub u8);

/// The network layer of a packet.
#[derive(Clone, Copy, Debug, PartialEq, Eq)]
pub enum NetPart {
    /// Version 4: the number of what follows the header and its extensions, the source and the
    /// destination.
    Version4(u8, [u8; 4], [u8; 4]),
    /// Version 6: the number of what follows the header and its extensions, the source and the
    /// destination.
    Version6(u8, [u8; 16], [u8; 16]),
    /// An address resolution packet, which is no IP packet.
    AddressResolution,
}

/// The transport layer of a packet.
#[derive(Clone, Copy, Debug, PartialEq, Eq)]
pub enum TransportPart {
    /// UDP: the source port and the destination port.
    UdpPorts(u16, u16),
    /// TCP: the source port and the destination port.
    TcpPorts(u16, u16),
    /// ICMP for version 4.
    IcmpForVersion4,
    /// ICMP for version 6.
    IcmpForVersion6,
    /// None of these, or only a fragment of one.
    NoTransport,
}

/// The headers of a packet, as far as they matter here.
#[derive(Clone, Copy, Debug, PartialEq, Eq)]
pub struct SlicedIp {
    /// The network layer.
    pub net: NetPart,
    /// The transport layer.
    pub transport: TransportPart,
}

/// What a packet filter decides on.
#[derive(Clone, Copy, Debug, PartialEq, Eq)]
pub struct PacketInfo {
    /// The protocol.
    pub ip_proto: IpProto,
    /// The port that the packet is sent to, or zero.
    pub port: u16,
    /// Where the packet comes from.
    pub src: IpAddr,
    /// Where the packet goes.
    pub dst: IpAddr,
}

/// The headers that `etherparse::SlicedPacket::from_ip` finds in `data`; none where it reports an
/// error or no network layer.
pub uninterp spec fn sliced_ip(data: Seq<u8>) -> Option<SlicedIp>;

/// The number that the header at the front of `data` gives for what follows it, where that is no
/// extension header: an authentication header behind version 4; hop-by-hop options, a routing
/// header, a fragment header, an authentication header or destination options behind version 6.
pub open spec fn plain_protocol(data: Seq<u8>) -> Option<u8> {
    let proto = if data[0] / 16 == 4 {
        data[9]
    } else {
        data[6]
    };
    let extended = if data[0] / 16 == 4 {
        proto == 51
    } else {
        proto == 0 || proto == 43 || proto == 44 || proto == 51 || proto == 60
    };
    if extended {
        None
    } else {
        Some(proto)
    }
}

/// Where the header at the front of `data` ends.
pub open spec fn header_end(data: Seq<u8>) -> int {
    if data[0] / 16 == 4 {
        4 * (data[0] % 16) as int
    } else {
        40
    }
}

/// Whether the header at the front of `data` says that a fragment follows. In version 6 only an
/// extension header can say so.
pub open spec fn is_fragment(data: Seq<u8>) -> bool {
    data[0] / 16 == 4 && !(data[6] % 64 == 0 && data[7] == 0)
}

/// The number in two bytes of `data`, the higher first.
pub open spec fn number_at(data: Seq<u8>, i: int) -> int {
    data[i] * 256 + data[i + 1]
}

/// Whether `transport` is the one with the number `proto`: UDP and TCP are found unless the packet
/// is a fragment, and nowhere else. Both ports stand at the front of what follows the header.
pub open spec fn plain_transport(transport: TransportPart, proto: u8, data: Seq<u8>) -> bool {
    &&& transport is UdpPorts <==> proto == 17 && !is_fragment(data)
    &&& transport is TcpPorts <==> proto == 6 && !is_fragment(data)
    &&& match transport {
        TransportPart::UdpPorts(from, to) => {
            &&& header_end(data) + 8 <= data.len()
            &&& from == number_at(data, header_end(data))
            &&& to == number_at(data, header_end(data) + 2)
        },
        TransportPart::TcpPorts(from, to) => {
            &&& header_end(data) + 20 <= data.len()
            &&& from == number_at(data, header_end(data))
            &&& to == number_at(data, header_end(data) + 2)
        },
        _ => true,
    }
}

/// Whether `sliced` agrees with the header at the front of `data`: the addresses stand where the
/// version puts them, and a transport layer is only found behind its own protocol number. Where no
/// extension header follows, the header gives the protocol number and says where the ports are.
pub open spec fn agrees_with_header(sliced: SlicedIp, data: Seq<u8>) -> bool {
    match sliced.net {
        NetPart::Version4(proto, src, dst) => {
            &&& data.len() >= 20
            &&& data[0] / 16 == 4
            &&& src@ == data.subrange(12, 16)
            &&& dst@ == data.subrange(16, 20)
            &&& sliced.transport is UdpPorts ==> proto == 17
            &&& sliced.transport is TcpPorts ==> proto == 6
            &&& plain_protocol(data) matches Some(plain) ==> proto == plain && plain_transport(
                sliced.transport,
                proto,
                data,
            )
        },
        NetPart::Version6(proto, src, dst) => {
            &&& data.len() >= 40
            &&& data[0] / 16 == 6
            &&& src@ == data.subrange(8, 24)
            &&& dst@ == data.subrange(24, 40)
            &&& sliced.transport is UdpPorts ==> proto == 17
            &&& sliced.transport is TcpPorts ==> proto == 6
            &&& plain_protocol(data) matches Some(plain) ==> proto == plain && plain_transport(
                sliced.transport,
                proto,
                data,
            )
        },
        NetPart::AddressResolution => false,
    }
}

/// `etherparse::SlicedPacket::from_ip`: depends on the bytes alone. Where it succeeds the network
/// layer is of version 4 or 6 with the addresses read from their place in the header, and UDP or
/// TCP is only found behind the number of that protocol. Where no extension header follows, the
/// protocol number is that of the header, UDP and TCP are found exactly behind their numbers unless
/// the packet is a fragment, and the ports are the two numbers behind the header and its options.
/// How they are found behind extension headers, and which bytes are refused for their lengths, is
/// not said.
#[verifier::external_body]
fn slice_ip(data: &[u8]) -> (sliced: Option<SlicedIp>)
    ensures
        sliced == sliced_ip(data@),
        sliced matches Some(s) ==> agrees_with_header(s, data@),
{
    let pkt = SlicedPacket::from_ip(data).ok()?;
    let net = match pkt.net? {
        Ipv4(ip) => Version4(ip.payload().ip_number.0, ip.header().source(), ip.header().destination()),
        Ipv6(ip) => Version6(ip.payload().ip_number.0, ip.header().source(), ip.header().destination()),
        Arp(_) => AddressResolution,
    };
    let transport = match pkt.transport {
        Some(Udp(udp)) => UdpPorts(udp.source_port(), udp.destination_port()),
        Some(Tcp(tcp)) => TcpPorts(tcp.source_port(), tcp.destination_port()),
        Some(Icmpv4(_)) => IcmpForVersion4,
        Some(Icmpv6(_)) => IcmpForVersion6,
        None => NoTransport,
    };
    Some(SlicedIp { net, transport })
}

/// What is told of a packet with the headers `sliced`.
pub open spec fn info_of(sliced: SlicedIp) -> PacketInfo {
    let (proto, src, dst) = match sliced.net {
        NetPart::Version4(proto, src, dst) => (proto, IpAddr::V4(src), IpAddr::V4(dst)),
        NetPart::Version6(proto, src, dst) => (proto, IpAddr::V6(src), IpAddr::V6(dst)),
        NetPart::AddressResolution => arbitrary(),
    };
    let port = match sliced.transport {
        TransportPart::UdpPorts(_, destination) => destination,
        TransportPart::TcpPorts(_, destination) => destination,
        _ => 0,
    };
    PacketInfo { ip_proto: IpProto(proto), port, src, dst }
}

/// What is told of a packet, or nothing where it does not look like an IP packet.
pub open spec fn inspected(data: Seq<u8>) -> Option<PacketInfo> {
    match sliced_ip(data) {
        Some(sliced) => Some(info_of(sliced)),
        None => None,
    }
}

/// Whether `info` says of a packet what its header at the front of `data` says: it has the
/// addresses that stand there, and a port only where the protocol is TCP or UDP. Where no extension
/// header follows, it has the protocol of the header, and the destination port behind the header if
/// that is TCP or UDP and the packet is no fragment.
pub open spec fn told_truly(info: PacketInfo, data: Seq<u8>) -> bool {
    &&& match (info.src, info.dst) {
        (IpAddr::V4(src), IpAddr::V4(dst)) => {
            &&& data.len() >= 20
            &&& data[0] / 16 == 4
            &&& src@ == data.subrange(12, 16)
            &&& dst@ == data.subrange(16, 20)
        },
        (IpAddr::V6(src), IpAddr::V6(dst)) => {
            &&& data.len() >= 40
            &&& data[0] / 16 == 6
            &&& src@ == data.subrange(8, 24)
            &&& dst@ == data.subrange(24, 40)
        },
        _ => false,
    }
    &&& info.port != 0 ==> info.ip_proto == IpProto(6) || info.ip_proto == IpProto(17)
    &&& plain_protocol(data) matches Some(proto) ==> {
        &&& info.ip_proto == IpProto(proto)
        &&& info.port == (if (proto == 6 || proto == 17) && !is_fragment(data) {
            number_at(data, header_end(data) + 2)
        } else {
            0
        })
    }
}

/// Picks what the packet filter is told out of the headers of a packet.
pub fn packet_info(sliced: &SlicedIp) -> (info: PacketInfo)
    requires
        !(sliced.net is AddressResolution),
    ensures
        info == info_of(*sliced),
{
    let (proto, src, dst): (u8, IpAddr, IpAddr) = match sliced.net {
        NetPart::Version4(proto, src, dst) => (proto, IpAddr::V4(src), IpAddr::V4(dst)),
        NetPart::Version6(proto, src, dst) => (proto, IpAddr::V6(src), IpAddr::V6(dst)),
        NetPart::AddressResolution => vstd::pervasive::unreached(),
    };
    let port: u16 = match sliced.transport {
        TransportPart::UdpPorts(_, destination) => destination,
        TransportPart::TcpPorts(_, destination) => destination,
        _ => 0,
    };
    PacketInfo { ip_proto: IpProto(proto), port, src, dst }
}

/// Reads the headers of a packet. Nothing is returned for one that does not look like an IP
/// packet.
pub fn inspect(packet: &Packet) -> (info: Option<PacketInfo>)
    ensures
        info == inspected(packet.data@),
        info matches Some(i) ==> told_truly(i, packet.data@),
        info is Some ==> sliced_ip(packet.data@) is Some && agrees_with_header(
            sliced_ip(packet.data@)->0,
            packet.data@,
        ),
{
    match slice_ip(&packet.data) {
        Some(sliced) => Some(packet_info(&sliced)),
        None => None,
    }
}

/// A packet is told exactly where its headers can be sliced, whatever it carries: with the protocol
/// and the addresses of its network layer, and with the destination port of UDP or TCP, or zero.
pub proof fn law_packet_is_told_as_it_is_sliced(packet: Packet, res: Option<PacketInfo>)
    requires
        call_ensures(inspect, (&packet,), res),
    ensures
        match sliced_ip(packet.data@) {
            None => res is None,
            Some(sliced) => res matches Some(info) && {
                &&& match sliced.net {
                    NetPart::Version4(proto, src, dst) => info.ip_proto.0 == proto && info.src
                        == IpAddr::V4(src) && info.dst == IpAddr::V4(dst),
                    NetPart::Version6(proto, src, dst) => info.ip_proto.0 == proto && info.src
                        == IpAddr::V6(src) && info.dst == IpAddr::V6(dst),
                    NetPart::AddressResolution => false,
                }
                &&& match sliced.transport {
                    TransportPart::UdpPorts(_, to) => info.port == to,
                    TransportPart::TcpPorts(_, to) => info.port == to,
                    TransportPart::IcmpForVersion4 => info.port == 0,
                    TransportPart::IcmpForVersion6 => info.port == 0,
                    TransportPart::NoTransport => info.port == 0,
                }
            },
        },
        inspected(packet.data@) == res,
{
}

/// Two packets whose headers are sliced alike are told alike, whatever else they hold.
pub proof fn law_headers_decide_what_is_told(
    a: Packet,
    b: Packet,
    told_a: Option<PacketInfo>,
    told_b: Option<PacketInfo>,
)
    requires
        call_ensures(inspect, (&a,), told_a),
        call_ensures(inspect, (&b,), told_b),
        sliced_ip(a.data@) == sliced_ip(b.data@),
    ensures
        told_a == told_b,
{
}

/// The network layer alone gives protocol and addresses, and the transport layer alone the port.
pub proof fn law_layers_are_told_apart(sliced: SlicedIp, info: PacketInfo)
    requires
        !(sliced.net is AddressResolution),
        call_ensures(packet_info, (&sliced,), info),
    ensures
        match sliced.net {
            NetPart::Version4(proto, src, dst) => info.ip_proto.0 == proto && info.src
                == IpAddr::V4(src) && info.dst == IpAddr::V4(dst),
            NetPart::Version6(proto, src, dst) => info.ip_proto.0 == proto && info.src
                == IpAddr::V6(src) && info.dst == IpAddr::V6(dst),
            NetPart::AddressResolution => false,
        },
        sliced.transport matches TransportPart::UdpPorts(_, to) ==> info.port == to,
        sliced.transport matches TransportPart::TcpPorts(_, to) ==> info.port == to,
        !(sliced.transport is UdpPorts || sliced.transport is TcpPorts) ==> info.port == 0,
{
}

} // verus!
