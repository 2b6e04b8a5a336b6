use dataplane::packet::{
    inspect, packet_info, IpAddr, IpProto, NetPart, PacketInfo, SlicedIp, TransportPart,
};
use dataplane::types::Packet;

const SRC4: [u8; 4] = [100, 64, 0, 1];
const DST4: [u8; 4] = [100, 64, 0, 2];

/// An IPv4 packet without options.
fn ipv4(proto: u8, payload: &[u8]) -> Packet {
    let len = 20 + payload.len() as u16;
    let mut data = vec![0x45, 0];
    data.extend_from_slice(&len.to_be_bytes());
    data.extend_from_slice(&[0, 0, 0, 0, 64, proto, 0, 0]);
    data.extend_from_slice(&SRC4);
    data.extend_from_slice(&DST4);
    data.extend_from_slice(payload);
    Packet { data }
}

fn src6() -> [u8; 16] {
    let mut a = [0u8; 16];
    a[0] = 0xfd;
    a[15] = 1;
    a
}

fn dst6() -> [u8; 16] {
    let mut a = [0u8; 16];
    a[0] = 0xfd;
    a[15] = 2;
    a
}

/// An IPv6 packet without extension headers.
fn ipv6(proto: u8, payload: &[u8]) -> Packet {
    let mut data = vec![0x60, 0, 0, 0];
    data.extend_from_slice(&(payload.len() as u16).to_be_bytes());
    data.extend_from_slice(&[proto, 64]);
    data.extend_from_slice(&src6());
    data.extend_from_slice(&dst6());
    data.extend_from_slice(payload);
    Packet { data }
}

fn udp(source: u16, destination: u16) -> Vec<u8> {
    let mut data = Vec::new();
    data.extend_from_slice(&source.to_be_bytes());
    data.extend_from_slice(&destination.to_be_bytes());
    data.extend_from_slice(&[0, 8, 0, 0]);
    data
}

fn tcp(source: u16, destination: u16) -> Vec<u8> {
    let mut data = Vec::new();
    data.extend_from_slice(&source.to_be_bytes());
    data.extend_from_slice(&destination.to_be_bytes());
    data.extend_from_slice(&[0, 0, 0, 0, 0, 0, 0, 0, 0x50, 2, 0, 0, 0, 0, 0, 0]);
    data
}

#[test]
fn udp_over_version_4() {
    let info = inspect(&ipv4(17, &udp(1000, 53)));
    assert_eq!(
        info,
        Some(PacketInfo {
            ip_proto: IpProto(17),
            port: 53,
            src: IpAddr::V4(SRC4),
            dst: IpAddr::V4(DST4),
        })
    );
}

#[test]
fn tcp_over_version_4() {
    let info = inspect(&ipv4(6, &tcp(1000, 443))).unwrap();
    assert_eq!(info.ip_proto, IpProto(6));
    assert_eq!(info.port, 443);
}

#[test]
fn tcp_over_version_6() {
    let info = inspect(&ipv6(6, &tcp(1000, 22)));
    assert_eq!(
        info,
        Some(PacketInfo {
            ip_proto: IpProto(6),
            port: 22,
            src: IpAddr::V6(src6()),
            dst: IpAddr::V6(dst6()),
        })
    );
}

#[test]
fn udp_over_version_6() {
    let info = inspect(&ipv6(17, &udp(9, 41641))).unwrap();
    assert_eq!(info.ip_proto, IpProto(17));
    assert_eq!(info.port, 41641);
}

#[test]
fn other_protocols_have_port_zero() {
    let echo = inspect(&ipv4(1, &[8, 0, 0, 0, 0, 1, 0, 1])).unwrap();
    assert_eq!(echo.ip_proto, IpProto(1));
    assert_eq!(echo.port, 0);
    let unknown = inspect(&ipv4(132, &[1, 2, 3, 4])).unwrap();
    assert_eq!(unknown.ip_proto, IpProto(132));
    assert_eq!(unknown.port, 0);
}

#[test]
fn protocol_behind_an_extension_header() {
    let mut payload = vec![17, 0, 0, 0, 0, 0, 0, 0];
    payload.extend_from_slice(&udp(7, 8));
    let info = inspect(&ipv6(60, &payload)).unwrap();
    assert_eq!(info.ip_proto, IpProto(17));
    assert_eq!(info.port, 8);
}

#[test]
fn what_is_no_packet_is_not_told() {
    assert_eq!(inspect(&Packet { data: vec![] }), None);
    assert_eq!(inspect(&Packet { data: vec![0x45, 0, 0] }), None);
    assert_eq!(inspect(&Packet { data: vec![0; 60] }), None);
    let mut cut = ipv4(17, &udp(1, 2));
    cut.data.truncate(24);
    assert_eq!(inspect(&cut), None);
}

#[test]
fn info_is_picked_from_each_layer() {
    let v4 = NetPart::Version4(17, SRC4, DST4);
    let v6 = NetPart::Version6(6, src6(), dst6());
    let a = packet_info(&SlicedIp { net: v4, transport: TransportPart::UdpPorts(1000, 53) });
    assert_eq!(a.ip_proto, IpProto(17));
    assert_eq!(a.port, 53);
    assert_eq!(a.src, IpAddr::V4(SRC4));
    assert_eq!(a.dst, IpAddr::V4(DST4));
    let b = packet_info(&SlicedIp { net: v6, transport: TransportPart::TcpPorts(1000, 80) });
    assert_eq!(b.ip_proto, IpProto(6));
    assert_eq!(b.port, 80);
    assert_eq!(b.src, IpAddr::V6(src6()));
    assert_eq!(b.dst, IpAddr::V6(dst6()));
    let c = packet_info(&SlicedIp { net: v6, transport: TransportPart::NoTransport });
    assert_eq!(c.port, 0);
    let d = packet_info(&SlicedIp { net: v4, transport: TransportPart::IcmpForVersion4 });
    assert_eq!(d.port, 0);
    let e = packet_info(&SlicedIp { net: v6, transport: TransportPart::IcmpForVersion6 });
    assert_eq!(e.port, 0);
}

#[test]
fn ports_stand_behind_options() {
    let mut packet = ipv4(17, &[]);
    packet.data[0] = 0x46;
    packet.data[3] = 32;
    packet.data.extend_from_slice(&[1, 1, 1, 0]);
    packet.data.extend_from_slice(&udp(0x0102, 0x0304));
    let info = inspect(&packet).unwrap();
    assert_eq!(info.ip_proto, IpProto(17));
    assert_eq!(info.port, 0x0304);
}

#[test]
fn fragments_have_port_zero() {
    for (high, low) in [(0x20, 0), (0, 1), (0x1f, 0xff)] {
        let mut packet = ipv4(17, &udp(1, 2));
        packet.data[6] = high;
        packet.data[7] = low;
        let info = inspect(&packet).unwrap();
        assert_eq!(info.ip_proto, IpProto(17));
        assert_eq!(info.port, 0);
    }
    for high in [0x40, 0x80] {
        let mut packet = ipv4(17, &udp(1, 2));
        packet.data[6] = high;
        assert_eq!(inspect(&packet).unwrap().port, 2);
    }
}

#[test]
fn protocol_behind_an_authentication_header() {
    let mut payload = vec![6, 1, 0, 0, 0, 0, 0, 0, 0, 0, 0, 0];
    payload.extend_from_slice(&tcp(5, 6));
    let info = inspect(&ipv4(51, &payload)).unwrap();
    assert_eq!(info.ip_proto, IpProto(6));
    assert_eq!(info.port, 6);
}
