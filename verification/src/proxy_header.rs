//! The binary header of the PROXY protocol, version 2, that tells the
//! target the IPv4 address and port that the client connected from.
use vstd::prelude::*;

use crate::udp::PeerAddr;

verus! {

/// The twelve bytes that open every version 2 header.
pub open spec fn signature() -> Seq<u8> {
    seq![0x0Du8, 0x0A, 0x0D, 0x0A, 0x00, 0x0D, 0x0A, 0x51, 0x55, 0x49, 0x54, 0x0A]
}

/// The two bytes of `x`, most significant first.
pub open spec fn be16(x: u16) -> Seq<u8> {
    seq![(x >> 8u16) as u8, x as u8]
}

/// A header for a proxied TCP connection over IPv4: signature, version 2
/// with the PROXY command, TCP over IPv4, the address block length 12,
/// then source address, destination address, source port, destination
/// port.
pub open spec fn proxy_header(src_ip: Seq<u8>, src_port: u16, dst_ip: Seq<u8>, dst_port: u16) -> Seq<
    u8,
> {
    signature() + seq![0x21u8, 0x11u8] + be16(12) + src_ip + dst_ip + be16(src_port) + be16(
        dst_port,
    )
}

/// The port that the header names as the destination.
pub const PROXY_PORT: u16 = 25566;

fn push_be16(out: &mut Vec<u8>, x: u16)
    ensures
        final(out)@ == old(out)@ + be16(x),
{
    out.push((x >> 8u16) as u8);
    out.push(x as u8);
}

fn push_octets(out: &mut Vec<u8>, ip: [u8; 4])
    ensures
        final(out)@ == old(out)@ + ip@,
{
    let ghost start = out@;
    out.push(ip[0]);
    out.push(ip[1]);
    out.push(ip[2]);
    out.push(ip[3]);
    assert(out@ == start + ip@);
}

/// The PROXY version 2 header for a TCP connection from `src_ip:src_port`
/// to `dst_ip:dst_port` (addresses as their four octets).
pub fn build_proxy_header(src_ip: [u8; 4], src_port: u16, dst_ip: [u8; 4], dst_port: u16) -> (res:
    Vec<u8>)
    ensures
        res@ == proxy_header(src_ip@, src_port, dst_ip@, dst_port),
{
    let mut header: Vec<u8> = Vec::new();
    header.push(0x0D);
    header.push(0x0A);
    header.push(0x0D);
    header.push(0x0A);
    header.push(0x00);
    header.push(0x0D);
    header.push(0x0A);
    header.push(0x51);
    header.push(0x55);
    header.push(0x49);
    header.push(0x54);
    header.push(0x0A);
    assert(header@ == signature());
    header.push(0x21);
    header.push(0x11);
    push_be16(&mut header, 12);
    push_octets(&mut header, src_ip);
    push_octets(&mut header, dst_ip);
    push_be16(&mut header, src_port);
    push_be16(&mut header, dst_port);
    header
}

/// The header sent ahead of a client's data: the client's address as the
/// source, `0.0.0.0:25566` as the destination.
pub fn client_proxy_header(client_ip: [u8; 4], client_port: u16) -> (res: Vec<u8>)
    ensures
        res@ == proxy_header(client_ip@, client_port, seq![0u8, 0u8, 0u8, 0u8], PROXY_PORT),
{
    let res = build_proxy_header(client_ip, client_port, [0, 0, 0, 0], PROXY_PORT);
    assert([0u8, 0u8, 0u8, 0u8]@ == seq![0u8, 0u8, 0u8, 0u8]);
    res
}

/// The four octets of an IPv4 address held in the low 32 bits of `ip`,
/// most significant first.
pub open spec fn ipv4_octets(ip: u128) -> Seq<u8> {
    seq![(ip >> 24u128) as u8, (ip >> 16u128) as u8, (ip >> 8u128) as u8, ip as u8]
}

/// The header sent ahead of the data of a client at `client`: for an IPv4
/// client, [`client_proxy_header`] of its address and port; a client of any
/// other family gets none, and its connection is not forwarded.
pub fn header_for_client(client: PeerAddr) -> (res: Option<Vec<u8>>)
    ensures
        client.v6 ==> res is None,
        !client.v6 ==> (res matches Some(h) && h@ == proxy_header(
            ipv4_octets(client.ip),
            client.port,
            seq![0u8, 0u8, 0u8, 0u8],
            PROXY_PORT,
        )),
{
    if client.v6 {
        None
    } else {
        let ip = client.ip;
        let octets: [u8; 4] = [(ip >> 24u128) as u8, (ip >> 16u128) as u8, (ip >> 8u128) as u8, ip as u8];
        assert(octets@ == ipv4_octets(ip));
        Some(client_proxy_header(octets, client.port))
    }
}

/// A header is 28 bytes long, and each address and port can be read back
/// at its fixed offset.
pub proof fn lemma_proxy_header_layout(src_ip: Seq<u8>, src_port: u16, dst_ip: Seq<u8>, dst_port: u16)
    requires
        src_ip.len() == 4,
        dst_ip.len() == 4,
    ensures
        ({
            let h = proxy_header(src_ip, src_port, dst_ip, dst_port);
            &&& h.len() == 28
            &&& h.take(12) == signature()
            &&& h[12] == 0x21u8
            &&& h[13] == 0x11u8
            &&& h.subrange(16, 20) == src_ip
            &&& h.subrange(20, 24) == dst_ip
            &&& h[24] as u16 * 256 + h[25] as u16 == src_port
            &&& h[26] as u16 * 256 + h[27] as u16 == dst_port
            &&& h[14] as u16 * 256 + h[15] as u16 == h.len() - 16
        }),
{
    let h = proxy_header(src_ip, src_port, dst_ip, dst_port);
    assert(h.take(12) == signature());
    assert(h.subrange(16, 20) == src_ip);
    assert(h.subrange(20, 24) == dst_ip);
    assert(((src_port >> 8u16) as u8) as u16 * 256 + (src_port as u8) as u16 == src_port) by (
    bit_vector);
    assert(((dst_port >> 8u16) as u8) as u16 * 256 + (dst_port as u8) as u16 == dst_port) by (
    bit_vector);
    assert(((12u16 >> 8u16) as u8) == 0 && (12u16 as u8) == 12) by (bit_vector);
}

/// Every byte of a header: the twelve signature bytes, 0x21 (version 2,
/// PROXY command) and 0x11 (TCP over IPv4) whatever the addresses, the
/// block length 12, the source and destination addresses as given, and the
/// two ports most significant byte first.
pub proof fn lemma_proxy_header_bytes(src_ip: Seq<u8>, src_port: u16, dst_ip: Seq<u8>, dst_port: u16)
    requires
        src_ip.len() == 4,
        dst_ip.len() == 4,
    ensures
        ({
            let h = proxy_header(src_ip, src_port, dst_ip, dst_port);
            &&& h.len() == 28
            &&& h[0] == 0x0Du8 && h[1] == 0x0Au8 && h[2] == 0x0Du8 && h[3] == 0x0Au8
            &&& h[4] == 0x00u8 && h[5] == 0x0Du8 && h[6] == 0x0Au8 && h[7] == 0x51u8
            &&& h[8] == 0x55u8 && h[9] == 0x49u8 && h[10] == 0x54u8 && h[11] == 0x0Au8
            &&& h[12] == 0x21u8 && h[13] == 0x11u8
            &&& h[14] == 0u8 && h[15] == 12u8
            &&& forall|i: int| 0 <= i < 4 ==> h[16 + i] == src_ip[i] && h[20 + i] == dst_ip[i]
            &&& h[24] as int == src_port as int / 256 && h[25] as int == src_port as int % 256
            &&& h[26] as int == dst_port as int / 256 && h[27] as int == dst_port as int % 256
        }),
{
    let h = proxy_header(src_ip, src_port, dst_ip, dst_port);
    let (sh, sl) = ((src_port >> 8u16) as u8, src_port as u8);
    let (dh, dl) = ((dst_port >> 8u16) as u8, dst_port as u8);
    assert(sh as u16 == src_port / 256 && sl as u16 == src_port % 256) by (bit_vector)
        requires
            sh == (src_port >> 8u16) as u8,
            sl == src_port as u8,
    ;
    assert(dh as u16 == dst_port / 256 && dl as u16 == dst_port % 256) by (bit_vector)
        requires
            dh == (dst_port >> 8u16) as u8,
            dl == dst_port as u8,
    ;
    assert(((12u16 >> 8u16) as u8) == 0 && (12u16 as u8) == 12) by (bit_vector);
    let want = seq![
        0x0Du8, 0x0A, 0x0D, 0x0A, 0x00, 0x0D, 0x0A, 0x51, 0x55, 0x49, 0x54, 0x0A,
        0x21, 0x11, 0, 12,
        src_ip[0], src_ip[1], src_ip[2], src_ip[3],
        dst_ip[0], dst_ip[1], dst_ip[2], dst_ip[3],
        sh, sl, dh, dl,
    ];
    assert(h =~= want);
}

/// The header sent for an IPv4 client at `ip:port` names that address,
/// most significant octet first, and that port as the source, and
/// 0.0.0.0:25566 as the destination, under the PROXY command.
pub proof fn lemma_client_header_bytes(ip: u128, port: u16)
    ensures
        ({
            let h = proxy_header(ipv4_octets(ip), port, seq![0u8, 0u8, 0u8, 0u8], PROXY_PORT);
            &&& h.len() == 28
            &&& h[12] == 0x21u8 && h[13] == 0x11u8
            &&& h[16] as int == (ip as int / 0x1000000) % 256
            &&& h[17] as int == (ip as int / 0x10000) % 256
            &&& h[18] as int == (ip as int / 0x100) % 256
            &&& h[19] as int == ip as int % 256
            &&& h[20] == 0u8 && h[21] == 0u8 && h[22] == 0u8 && h[23] == 0u8
            &&& h[24] as int == port as int / 256 && h[25] as int == port as int % 256
            &&& h[26] == 0x63u8 && h[27] == 0xDEu8
        }),
{
    let o = ipv4_octets(ip);
    lemma_proxy_header_bytes(o, port, seq![0u8, 0u8, 0u8, 0u8], PROXY_PORT);
    assert(((ip >> 24u128) as u8) as u128 == (ip / 0x1000000) % 256 && ((ip >> 16u128) as u8) as u128
        == (ip / 0x10000) % 256 && ((ip >> 8u128) as u8) as u128 == (ip / 0x100) % 256 && (
    ip as u8) as u128 == ip % 256) by (bit_vector);
    assert(o[0] == (ip >> 24u128) as u8);
    assert(o[3] == ip as u8);
}

} // verus!
