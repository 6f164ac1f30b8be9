//! The status exchange that a game client opens with: a handshake and a
//! status request, answered with a status text; then a ping, answered with
//! a pong that echoes the ping's timestamp.
use vstd::prelude::*;
use vstd::utf8::encode_utf8;

use crate::varint::{
    lemma_varint_roundtrip, lemma_varint_shape, varint, varint_read, write_varint, VarintReader,
    VarintStep,
};

verus! {

// ---------------------------------------------------------------------
// Packets
// ---------------------------------------------------------------------

/// A status packet around the text bytes `data`: the length of the rest,
/// the packet id 0, the length of the text, the text. Lengths are written
/// modulo 65536.
#[verifier::opaque]
pub open spec fn status_packet(data: Seq<u8>) -> Seq<u8> {
    let text_len = varint(data.len() % 65536);
    let body_len = (1 + text_len.len() + data.len()) % 65536;
    varint(body_len) + varint(0) + text_len + data
}

/// The eight bytes of `x`, most significant first.
pub open spec fn be_bytes(x: u64) -> Seq<u8> {
    seq![
        (x >> 56u64) as u8,
        (x >> 48u64) as u8,
        (x >> 40u64) as u8,
        (x >> 32u64) as u8,
        (x >> 24u64) as u8,
        (x >> 16u64) as u8,
        (x >> 8u64) as u8,
        x as u8,
    ]
}

/// The number whose eight bytes, most significant first, are `b`.
pub open spec fn be_value(b: Seq<u8>) -> u64 {
    (b[0] as u64) << 56u64 | (b[1] as u64) << 48u64 | (b[2] as u64) << 40u64 | (b[3] as u64)
        << 32u64 | (b[4] as u64) << 24u64 | (b[5] as u64) << 16u64 | (b[6] as u64) << 8u64 | (
    b[7] as u64)
}

/// A pong packet: the length 9, the packet id 1, the payload in eight bytes.
#[verifier::opaque]
pub open spec fn pong_packet(payload: i64) -> Seq<u8> {
    varint(9) + varint(1) + be_bytes(payload as u64)
}

/// The timestamp that a ping body (the packet id, then eight bytes)
/// carries.
pub open spec fn ping_value(ping: Seq<u8>) -> i64 {
    be_value(ping.subrange(1, 9)) as i64
}

fn append_bytes(out: &mut Vec<u8>, src: &[u8])
    ensures
        final(out)@ == old(out)@ + src@,
{
    let ghost start = out@;
    let mut i: usize = 0;
    while i < src.len()
        invariant
            i <= src.len(),
            out@ == start + src@.take(i as int),
        decreases src.len() - i,
    {
        out.push(src[i]);
        assert(src@.take(i + 1) == src@.take(i as int).push(src@[i as int]));
        i = i + 1;
    }
    assert(src@.take(src.len() as int) == src@);
}

/// The status response that carries the text `fake`, in UTF-8.
pub fn build_status_response(fake: String) -> (res: Vec<u8>)
    ensures
        res@ == status_packet(encode_utf8(fake@)),
{
    reveal(status_packet);
    reveal(pong_packet);
    let data = fake.as_str().as_bytes();
    let mut packet: Vec<u8> = Vec::new();
    let packet_id = write_varint(0);
    let text_len: u16 = (data.len() % 65536) as u16;
    let string_length = write_varint(text_len);
    proof {
        lemma_varint_shape(text_len);
    }
    let body_len: u16 = ((1 + string_length.len() + (data.len() % 65536)) % 65536) as u16;
    assert(body_len as nat == (1 + string_length@.len() + data@.len()) % 65536) by (
    nonlinear_arith)
        requires
            body_len as nat == (1 + string_length@.len() + (data@.len() % 65536)) % 65536,
    ;
    let packet_length = write_varint(body_len);
    append_bytes(&mut packet, &packet_length);
    append_bytes(&mut packet, &packet_id);
    append_bytes(&mut packet, &string_length);
    append_bytes(&mut packet, data);
    packet
}

fn push_be_bytes(out: &mut Vec<u8>, x: u64)
    ensures
        final(out)@ == old(out)@ + be_bytes(x),
{
    let ghost start = out@;
    out.push((x >> 56u64) as u8);
    out.push((x >> 48u64) as u8);
    out.push((x >> 40u64) as u8);
    out.push((x >> 32u64) as u8);
    out.push((x >> 24u64) as u8);
    out.push((x >> 16u64) as u8);
    out.push((x >> 8u64) as u8);
    out.push(x as u8);
    assert(out@ == start + be_bytes(x));
}

/// The pong that answers a ping carrying `payload`.
pub fn build_pong_response(payload: i64) -> (res: Vec<u8>)
    ensures
        res@ == pong_packet(payload),
{
    reveal(status_packet);
    reveal(pong_packet);
    let mut packet: Vec<u8> = Vec::new();
    let packet_id = write_varint(1);
    proof {
        lemma_varint_shape(1);
    }
    let data_length = packet_id.len() + 8;
    let packet_length = write_varint(data_length as u16);
    append_bytes(&mut packet, &packet_length);
    append_bytes(&mut packet, &packet_id);
    push_be_bytes(&mut packet, payload as u64);
    packet
}

/// The timestamp of a ping body: bytes 1 to 8, most significant first.
pub fn ping_timestamp(ping: &[u8]) -> (res: i64)
    requires
        ping.len() >= 9,
    ensures
        res == ping_value(ping@),
{
    let ghost b = ping@.subrange(1, 9);
    let x: u64 = (ping[1] as u64) << 56u64 | (ping[2] as u64) << 48u64 | (ping[3] as u64) << 40u64
        | (ping[4] as u64) << 32u64 | (ping[5] as u64) << 24u64 | (ping[6] as u64) << 16u64 | (
    ping[7] as u64) << 8u64 | (ping[8] as u64);
    assert(x == be_value(b));
    x as i64
}

// ---------------------------------------------------------------------
// Laws of the packets
// ---------------------------------------------------------------------

/// When the text has at most 65531 bytes, the length that opens a
/// status packet is the number of bytes that follow it, and the text length
/// field holds the length of the text.
#[verifier::rlimit(40)]
pub proof fn lemma_status_packet_frame(data: Seq<u8>)
    requires
        data.len() <= 65531,
    ensures
        ({
            let p = status_packet(data);
            let n = varint((1 + varint(data.len()).len() + data.len()) % 65536).len();
            &&& varint_read(p) == Some((((p.len() - n) as nat) as u16, n))
            &&& p[n as int] == 0
            &&& varint_read(p.skip((n + 1) as int)) == Some(
                (data.len() as u16, varint(data.len()).len()),
            )
            &&& p.skip((n + 1 + varint(data.len()).len()) as int) == data
        }),
{
    reveal(status_packet);
    reveal(pong_packet);
    let d = data.len() as u16;
    lemma_varint_shape(d);
    let tl = varint(d as nat);
    assert(data.len() % 65536 == data.len());
    let body = (1 + tl.len() + data.len()) as u16;
    assert((1 + tl.len() + data.len()) % 65536 == body as nat);
    lemma_varint_shape(body);
    let head = varint(body as nat);
    let n = head.len();
    let rest = seq![0u8] + tl + data;
    assert(varint(0) == seq![0u8]);
    let p = status_packet(data);
    assert(p == head + varint(0) + tl + data);
    assert(p == head + rest);
    assert(rest.len() == body as nat);
    lemma_varint_roundtrip(body, rest);
    assert(p.len() - n == body as nat);
    assert(p.skip(n as int) == rest);
    assert(p.skip((n + 1) as int) == tl + data);
    lemma_varint_roundtrip(d, data);
    assert(p.skip((n + 1 + tl.len()) as int) == data);
}

/// A pong's payload is the eight bytes of the ping it answers: the
/// timestamp comes back exactly as it came.
pub proof fn lemma_pong_echoes_ping(ping: Seq<u8>)
    requires
        ping.len() >= 9,
    ensures
        pong_packet(ping_value(ping)) == seq![9u8, 1u8] + ping.subrange(1, 9),
{
    reveal(status_packet);
    reveal(pong_packet);
    let b = ping.subrange(1, 9);
    let x = be_value(b);
    let (b0, b1, b2, b3, b4, b5, b6, b7) = (b[0], b[1], b[2], b[3], b[4], b[5], b[6], b[7]);
    assert(x == (b0 as u64) << 56u64 | (b1 as u64) << 48u64 | (b2 as u64) << 40u64 | (b3 as u64)
        << 32u64 | (b4 as u64) << 24u64 | (b5 as u64) << 16u64 | (b6 as u64) << 8u64 | (b7 as u64));
    assert(((x as i64) as u64) == x) by (bit_vector);
    assert({
        &&& (x >> 56u64) as u8 == b0
        &&& (x >> 48u64) as u8 == b1
        &&& (x >> 40u64) as u8 == b2
        &&& (x >> 32u64) as u8 == b3
        &&& (x >> 24u64) as u8 == b4
        &&& (x >> 16u64) as u8 == b5
        &&& (x >> 8u64) as u8 == b6
        &&& x as u8 == b7
    }) by (bit_vector)
        requires
            x == (b0 as u64) << 56u64 | (b1 as u64) << 48u64 | (b2 as u64) << 40u64 | (b3 as u64)
                << 32u64 | (b4 as u64) << 24u64 | (b5 as u64) << 16u64 | (b6 as u64) << 8u64 | (
            b7 as u64),
    ;
    assert(be_bytes(x) == b);
    assert(varint(9) == seq![9u8]);
    assert(varint(1) == seq![1u8]);
}

/// Writing a timestamp as a ping does and reading it back gives it again.
pub proof fn lemma_ping_value_roundtrip(t: i64)
    ensures
        ping_value(seq![1u8] + be_bytes(t as u64)) == t,
{
    let x = t as u64;
    let p = seq![1u8] + be_bytes(x);
    assert(p.subrange(1, 9) == be_bytes(x));
    assert(be_value(be_bytes(x)) == x) by {
        let b = be_bytes(x);
        assert(((x >> 56u64) as u8 as u64) << 56u64 | ((x >> 48u64) as u8 as u64) << 48u64 | ((x
            >> 40u64) as u8 as u64) << 40u64 | ((x >> 32u64) as u8 as u64) << 32u64 | ((x
            >> 24u64) as u8 as u64) << 24u64 | ((x >> 16u64) as u8 as u64) << 16u64 | ((x
            >> 8u64) as u8 as u64) << 8u64 | (x as u8 as u64) == x) by (bit_vector);
    }
    assert((x as i64) == t) by (bit_vector)
        requires
            x == t as u64,
    ;
}

} // verus!
