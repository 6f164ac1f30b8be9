use multiproxy::session::{status_text, Abort, Phase, SessionAction, SessionEvent, StatusSession, DEFAULT_STATUS};
use multiproxy::status::build_status_response;
use multiproxy::udp::{ClientTable, PeerAddr};
use multiproxy::varint::write_varint;

fn feed_length(s: StatusSession, n: u16) -> (StatusSession, SessionAction) {
    let bytes = write_varint(n);
    let mut s = s;
    let mut last = SessionAction::ReadByte;
    for (i, b) in bytes.iter().enumerate() {
        let (next, a) = s.step(SessionEvent::Byte(*b));
        s = next;
        if i + 1 < bytes.len() {
            assert!(matches!(a, SessionAction::ReadByte));
        }
        last = a;
    }
    (s, last)
}

#[test]
fn status_text_default_and_custom() {
    assert_eq!(status_text(None), DEFAULT_STATUS);
    assert_eq!(status_text(Some("{}".to_string())), "{}");
    assert!(DEFAULT_STATUS.contains("\"protocol\":774"));
}

#[test]
fn full_status_conversation() {
    let (s, a) = StatusSession::new("{\"x\":1}".to_string());
    assert!(matches!(a, SessionAction::ReadByte));
    let handshake = vec![0u8; 200];
    let (s, a) = feed_length(s, 200);
    assert!(matches!(a, SessionAction::ReadExact(200)));
    assert_eq!(s.phase(), Phase::Handshake);
    let (s, a) = s.step(SessionEvent::Data(handshake));
    assert!(matches!(a, SessionAction::ReadByte));
    let (s, a) = feed_length(s, 1);
    assert!(matches!(a, SessionAction::ReadExact(1)));
    let (s, a) = s.step(SessionEvent::Data(vec![0]));
    match a {
        SessionAction::Send(p) => assert_eq!(p, build_status_response("{\"x\":1}".to_string())),
        _ => panic!("expected the status"),
    }
    let (s, a) = s.step(SessionEvent::Sent);
    assert!(matches!(a, SessionAction::ReadByte));
    let (s, a) = feed_length(s, 9);
    assert!(matches!(a, SessionAction::ReadExact(9)));
    let mut ping = vec![1u8];
    ping.extend_from_slice(&1234567i64.to_be_bytes());
    let (s, a) = s.step(SessionEvent::Data(ping.clone()));
    match a {
        SessionAction::Send(p) => {
            assert_eq!(&p[..2], &[9, 1]);
            assert_eq!(&p[2..], &ping[1..]);
        }
        _ => panic!("expected the pong"),
    }
    let (s, a) = s.step(SessionEvent::Sent);
    assert!(matches!(a, SessionAction::Close));
    assert_eq!(s.phase(), Phase::Closed);
}

#[test]
fn conversation_failures() {
    // the peer goes away before the handshake length ends
    let (s, _) = StatusSession::new(String::new());
    let (s, a) = s.step(SessionEvent::Byte(0x80));
    assert!(matches!(a, SessionAction::ReadByte));
    let (s, a) = s.step(SessionEvent::Failed);
    assert!(matches!(a, SessionAction::Close));
    assert_eq!(s.phase(), Phase::Closed);

    // a length of four bytes
    let (s, _) = StatusSession::new(String::new());
    let mut s = s;
    for _ in 0..3 {
        let (next, a) = s.step(SessionEvent::Byte(0xff));
        assert!(matches!(a, SessionAction::ReadByte));
        s = next;
    }
    let (_, a) = s.step(SessionEvent::Byte(0x01));
    assert!(matches!(a, SessionAction::Abort(Abort::VarintTooLong)));

    // a ping too short to hold a timestamp
    let (s, _) = StatusSession::new(String::new());
    let (s, _) = feed_length(s, 0);
    let (s, _) = s.step(SessionEvent::Data(vec![]));
    let (s, _) = feed_length(s, 0);
    let (s, _) = s.step(SessionEvent::Data(vec![]));
    let (s, _) = s.step(SessionEvent::Sent);
    let (s, a) = feed_length(s, 3);
    assert!(matches!(a, SessionAction::ReadExact(3)));
    let (_, a) = s.step(SessionEvent::Data(vec![1, 2, 3]));
    assert!(matches!(a, SessionAction::Abort(Abort::ShortPing(3))));

    // a failed send of the status closes
    let (s, _) = StatusSession::new(String::new());
    let (s, _) = feed_length(s, 0);
    let (s, _) = s.step(SessionEvent::Data(vec![]));
    let (s, _) = feed_length(s, 0);
    let (s, a) = s.step(SessionEvent::Data(vec![]));
    assert!(matches!(a, SessionAction::Send(_)));
    let (_, a) = s.step(SessionEvent::Failed);
    assert!(matches!(a, SessionAction::Close));

    // an event out of turn closes
    let (s, _) = StatusSession::new(String::new());
    let (_, a) = s.step(SessionEvent::Sent);
    assert!(matches!(a, SessionAction::Close));
}

fn peer(port: u16) -> PeerAddr {
    PeerAddr { v6: false, ip: 0x7f000001, port, flowinfo: 0, scope_id: 0 }
}

#[test]
fn client_table_tracks_and_expires() {
    let mut t: ClientTable<&'static str> = ClientTable::new();
    assert_eq!(t.len(), 0);
    t.insert(peer(1), peer(100), "one", 0);
    t.insert(peer(2), peer(200), "two", 500_000_000);
    assert_eq!(t.len(), 2);
    assert_eq!(t.get(peer(1)).map(|e| e.conn), Some("one"));
    assert!(t.get(peer(3)).is_none());
    assert!(t.touch(peer(1), 3_000_000_000));
    assert!(!t.touch(peer(3), 3_000_000_000));
    assert_eq!(t.get(peer(1)).map(|e| e.last_seen), Some(3_000_000_000));

    let mut all = t.peers();
    all.sort_by_key(|p| p.port);
    assert_eq!(all, vec![peer(1), peer(2)]);

    // no timeout: nothing expires
    assert!(t.expired(u64::MAX, None).is_empty());
    // peer 2: 3.5 s - 0.5 s = 3 whole seconds, not more than 3
    assert!(t.expired(3_500_000_000, Some(3)).is_empty());
    // peer 2: 4.4 s elapsed -> 4 > 3
    assert_eq!(t.expired(4_900_000_000, Some(3)), vec![peer(2)]);
    // a clock reading before the last activity counts as no time
    assert!(t.expired(0, Some(0)).is_empty());

    let gone = t.remove(peer(2)).expect("present");
    assert_eq!(gone.local, peer(200));
    assert!(t.remove(peer(2)).is_none());
    assert_eq!(t.len(), 1);
}

fn conversation(handshake: Vec<u8>, request: Vec<u8>, ping: Vec<u8>) -> Vec<Vec<u8>> {
    let mut sent = Vec::new();
    let (s, _) = StatusSession::new("{}".to_string());
    let (s, _) = feed_length(s, handshake.len() as u16);
    let (s, _) = s.step(SessionEvent::Data(handshake));
    let (s, _) = feed_length(s, request.len() as u16);
    let (s, a) = s.step(SessionEvent::Data(request));
    if let SessionAction::Send(p) = a {
        sent.push(p);
    }
    let (s, _) = s.step(SessionEvent::Sent);
    let (s, _) = feed_length(s, ping.len() as u16);
    let (s, a) = s.step(SessionEvent::Data(ping));
    if let SessionAction::Send(p) = a {
        sent.push(p);
    }
    let (_, a) = s.step(SessionEvent::Sent);
    assert!(matches!(a, SessionAction::Close));
    sent
}

#[test]
fn replies_ignore_handshake_and_request_contents() {
    let ping: Vec<u8> = (0u8..20).collect();
    let one = conversation(vec![1; 300], vec![2, 3], ping.clone());
    let two = conversation(vec![9; 300], vec![7, 7], ping.clone());
    assert_eq!(one, two);
    assert_eq!(one.len(), 2);
    assert_eq!(&one[1][..2], &[9, 1]);
    assert_eq!(&one[1][2..], &ping[1..9]);
}
