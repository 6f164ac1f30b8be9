use multiproxy::pipe::{pipe_step, PipeAction, PipeEvent, PipeStop};
use multiproxy::proxy_header::{build_proxy_header, client_proxy_header, header_for_client};
use multiproxy::udp::PeerAddr;
use multiproxy::status::{build_pong_response, build_status_response, ping_timestamp};
use multiproxy::varint::{write_varint, VarintReader, VarintStep};

fn decode(bytes: &[u8]) -> VarintStep {
    let mut r = VarintReader::new();
    let mut last = VarintStep::More;
    for b in bytes {
        last = r.feed(*b);
        if last != VarintStep::More {
            break;
        }
    }
    last
}

#[test]
fn write_varint_examples() {
    assert_eq!(write_varint(0), vec![0]);
    assert_eq!(write_varint(1), vec![1]);
    assert_eq!(write_varint(127), vec![0x7f]);
    assert_eq!(write_varint(128), vec![0x80, 0x01]);
    assert_eq!(write_varint(300), vec![0xac, 0x02]);
    assert_eq!(write_varint(16383), vec![0xff, 0x7f]);
    assert_eq!(write_varint(16384), vec![0x80, 0x80, 0x01]);
    assert_eq!(write_varint(65535), vec![0xff, 0xff, 0x03]);
}

#[test]
fn varint_roundtrip_all_values() {
    for v in 0..=65535u16 {
        let bytes = write_varint(v);
        let mut r = VarintReader::new();
        for (i, b) in bytes.iter().enumerate() {
            let step = r.feed(*b);
            if i + 1 < bytes.len() {
                assert_eq!(step, VarintStep::More);
            } else {
                assert_eq!(step, VarintStep::Done(v));
            }
        }
    }
}

#[test]
fn varint_reader_edge_cases() {
    // high bits beyond sixteen are dropped, as the sixteen-bit register did
    assert_eq!(decode(&[0xff, 0xff, 0x7f]), VarintStep::Done(0xffff));
    assert_eq!(decode(&[0x80, 0x80, 0x04]), VarintStep::Done(0));
    // a fourth byte is refused, whatever it holds
    assert_eq!(decode(&[0x80, 0x80, 0x80, 0x00]), VarintStep::TooLong);
    // non-minimal encodings are read
    assert_eq!(decode(&[0x81, 0x00]), VarintStep::Done(1));
    // the reader starts over after a value
    let mut r = VarintReader::new();
    assert_eq!(r.feed(0x05), VarintStep::Done(5));
    assert_eq!(r.feed(0x80), VarintStep::More);
    assert_eq!(r.feed(0x01), VarintStep::Done(128));
}

#[test]
fn status_response_layout() {
    assert_eq!(build_status_response("hi".to_string()), vec![4, 0, 2, b'h', b'i']);
    assert_eq!(build_status_response(String::new()), vec![2, 0, 0]);
    // UTF-8 bytes are counted, not characters
    assert_eq!(build_status_response("é".to_string()), vec![4, 0, 2, 0xc3, 0xa9]);
    let text = "x".repeat(200);
    let p = build_status_response(text.clone());
    // length 1 + 2 + 200 = 203 = 0xcb 0x01; text length 200 = 0xc8 0x01
    assert_eq!(&p[..5], &[0xcb, 0x01, 0x00, 0xc8, 0x01]);
    assert_eq!(&p[5..], text.as_bytes());
}

#[test]
fn status_response_frame_length_matches() {
    for n in [0usize, 1, 124, 125, 126, 127, 128, 16380, 16381, 16382, 16383, 16384, 65529] {
        let p = build_status_response("a".repeat(n));
        match decode(&p) {
            VarintStep::Done(len) => {
                let head = write_varint(len).len();
                assert_eq!(len as usize, p.len() - head, "text of {} bytes", n);
            }
            other => panic!("no length: {:?}", other),
        }
    }
}

#[test]
fn pong_layout() {
    assert_eq!(
        build_pong_response(0x0102030405060708),
        vec![9, 1, 1, 2, 3, 4, 5, 6, 7, 8]
    );
    assert_eq!(build_pong_response(-1), vec![9, 1, 0xff, 0xff, 0xff, 0xff, 0xff, 0xff, 0xff, 0xff]);
    assert_eq!(build_pong_response(0), vec![9, 1, 0, 0, 0, 0, 0, 0, 0, 0]);
}

#[test]
fn ping_timestamp_reads_big_endian() {
    let ping = [1u8, 0, 0, 0, 0, 0, 0, 1, 0, 99];
    assert_eq!(ping_timestamp(&ping), 256);
    for t in [0i64, 1, -1, i64::MIN, i64::MAX, 1_700_000_000_000] {
        let mut ping = vec![1u8];
        ping.extend_from_slice(&t.to_be_bytes());
        assert_eq!(ping_timestamp(&ping), t);
        let pong = build_pong_response(ping_timestamp(&ping));
        assert_eq!(&pong[2..], &ping[1..9]);
    }
}

#[test]
fn proxy_header_layout() {
    let h = build_proxy_header([192, 168, 1, 2], 5000, [10, 0, 0, 1], 25566);
    assert_eq!(
        h,
        vec![
            0x0D, 0x0A, 0x0D, 0x0A, 0x00, 0x0D, 0x0A, 0x51, 0x55, 0x49, 0x54, 0x0A, 0x21, 0x11,
            0x00, 0x0C, 192, 168, 1, 2, 10, 0, 0, 1, 0x13, 0x88, 0x63, 0xDE,
        ]
    );
    let c = client_proxy_header([1, 2, 3, 4], 65535);
    assert_eq!(c.len(), 28);
    assert_eq!(&c[16..24], &[1, 2, 3, 4, 0, 0, 0, 0]);
    assert_eq!(&c[24..], &[0xff, 0xff, 0x63, 0xDE]);
}

#[test]
fn pipe_decisions() {
    assert_eq!(pipe_step(PipeEvent::Read(10)), PipeAction::Write(10));
    assert_eq!(pipe_step(PipeEvent::Read(0)), PipeAction::Stop(PipeStop::Closed));
    assert_eq!(pipe_step(PipeEvent::ReadFailed), PipeAction::Stop(PipeStop::ReadFailed));
    assert_eq!(pipe_step(PipeEvent::WriteFailed), PipeAction::Stop(PipeStop::WriteFailed));
    assert_eq!(pipe_step(PipeEvent::Written), PipeAction::Read);
}

#[test]
fn header_only_for_ipv4_clients() {
    let v4 = PeerAddr { v6: false, ip: 0xC0A80102, port: 5000, flowinfo: 0, scope_id: 0 };
    assert_eq!(header_for_client(v4), Some(client_proxy_header([192, 168, 1, 2], 5000)));
    let v6 = PeerAddr { v6: true, ip: 1, port: 5000, flowinfo: 0, scope_id: 0 };
    assert_eq!(header_for_client(v6), None);
}
