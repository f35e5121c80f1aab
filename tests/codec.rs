use bgp_track::api::{url, ReputationConfig};
use bgp_track::codec::{encode_event, encode_new_event, encode_record, EncodeError};
use bgp_track::event::{Direction, PathSegment, RouteEvent};
use bgp_track::ingest::{batch_bounds, encode_batch, encode_events, loader_step, Frame, LoaderAction, BATCH_SIZE};
use bgp_track::net::{IpAddress, Prefix};
use bgp_track::parse::parse_record;
use bgp_track::store::EventStore;

const ID: [u8; 16] = [
    0x01, 0x23, 0x45, 0x67, 0x89, 0xab, 0xcd, 0xef, 0x01, 0x23, 0x45, 0x67, 0x89, 0xab, 0xcd, 0xef,
];

fn announce() -> RouteEvent {
    RouteEvent {
        origin: 65000,
        prefix: Prefix { addr: IpAddress::V4(0x0102_0300), len: 24 },
        timestamp: 1_660_687_200_500_000,
        direction: Direction::Announce,
        as_path: Some(vec![
            PathSegment { sequence: true, confederated: false, asns: vec![3356, 65000] },
            PathSegment { sequence: false, confederated: true, asns: vec![7] },
        ]),
    }
}

fn withdraw_v6() -> RouteEvent {
    RouteEvent {
        origin: 4_294_967_295,
        prefix: Prefix { addr: IpAddress::V6((0x2001_0db8u128 << 96) | 1), len: 128 },
        timestamp: 7,
        direction: Direction::Withdraw,
        as_path: None,
    }
}

#[test]
fn encoding_escapes_the_path_field() {
    let line = encode_event(ID, &announce()).unwrap();
    let expected = String::from("01234567-89ab-cdef-0123-456789abcdef,65000,0,1660687200.500000,1.2.3.0/24,")
        + r#""{""(t,f,\""{3356,65000}\"")"",""(f,t,\""{7}\"")""}""#
        + "\n";
    assert_eq!(String::from_utf8(line).unwrap(), expected);
}

#[test]
fn encoding_of_ipv6_withdrawal_without_path() {
    let line = encode_event(ID, &withdraw_v6()).unwrap();
    let expected = "01234567-89ab-cdef-0123-456789abcdef,4294967295,1,0.000007,2001:db8:0:0:0:0:0:1/128,\"{}\"\n";
    assert_eq!(String::from_utf8(line).unwrap(), expected);
}

#[test]
fn announcement_without_path_is_refused() {
    let mut ev = announce();
    ev.as_path = None;
    assert_eq!(encode_event(ID, &ev), Err(EncodeError::MissingAsPath));
    assert_eq!(encode_new_event(&ev), Err(EncodeError::MissingAsPath));
}

#[test]
fn overlong_mask_is_refused() {
    let mut ev = announce();
    ev.prefix.len = 33;
    assert_eq!(encode_event(ID, &ev), Err(EncodeError::InvalidPrefix));
}

#[test]
fn round_trip_through_parser() {
    let events = vec![
        announce(),
        withdraw_v6(),
        RouteEvent {
            origin: 0,
            prefix: Prefix { addr: IpAddress::V4(0), len: 0 },
            timestamp: 999_999,
            direction: Direction::Announce,
            as_path: Some(vec![PathSegment { sequence: false, confederated: false, asns: vec![] }]),
        },
        RouteEvent {
            origin: 13335,
            prefix: Prefix { addr: IpAddress::V6(u128::MAX), len: 64 },
            timestamp: u64::MAX,
            direction: Direction::Announce,
            as_path: Some(vec![]),
        },
    ];
    for ev in events {
        let line = encode_event(ID, &ev).unwrap();
        let a = parse_record(&line).expect("line parses back");
        assert_eq!(a.id, ID);
        assert_eq!(a.origin, ev.origin);
        assert_eq!(a.withdrawal, ev.direction == Direction::Withdraw);
        assert_eq!(a.timestamp, ev.timestamp);
        assert_eq!(a.prefix, ev.prefix);
        let path = ev.as_path.clone().unwrap_or_default();
        assert_eq!(a.as_path.len(), path.len());
        for (x, y) in a.as_path.iter().zip(path.iter()) {
            assert_eq!(x.sequence, y.sequence);
            assert_eq!(x.confederated, y.confederated);
            assert_eq!(x.asns, y.asns);
        }
        assert_eq!(encode_record(&a), line);
    }
}

#[test]
fn fresh_identifiers_differ() {
    let a = encode_new_event(&announce()).unwrap();
    let b = encode_new_event(&announce()).unwrap();
    assert_ne!(a[..36], b[..36]);
    assert_eq!(a[36..], b[36..]);
}

#[test]
fn parser_rejects_non_canonical_lines() {
    let good = String::from_utf8(encode_event(ID, &announce()).unwrap()).unwrap();
    assert!(parse_record(good.as_bytes()).is_some());
    let bad = [
        good.replace(",65000,0,", ",065000,0,"),
        good.replace(",65000,0,", ",65000,2,"),
        good.replace("01234567-", "01234567+"),
        good.replace("89ab-cdef-0123", "89AB-cdef-0123"),
        good.replace("/24", "/33"),
        good.replace(".500000", ".5"),
        good.trim_end().to_string(),
        good.clone() + "x",
        String::new(),
    ];
    for line in bad.iter() {
        assert!(parse_record(line.as_bytes()).is_none(), "accepted {:?}", line);
    }
}

#[test]
fn batches_cover_the_references() {
    assert_eq!(batch_bounds(25, BATCH_SIZE), vec![(0, 12), (12, 24), (24, 25)]);
    assert_eq!(batch_bounds(24, 12), vec![(0, 12), (12, 24)]);
    assert!(batch_bounds(0, 12).is_empty());
    assert_eq!(batch_bounds(3, 1), vec![(0, 1), (1, 2), (2, 3)]);
}

#[test]
fn batch_encoding_skips_unstorable_events() {
    let mut broken = announce();
    broken.as_path = None;
    let events = vec![announce(), broken, withdraw_v6()];
    let ids = vec![ID, ID, ID];
    let (bytes, skipped) = encode_batch(&events, &ids);
    assert_eq!(skipped, 1);
    let mut expected = encode_event(ID, &events[0]).unwrap();
    expected.extend(encode_event(ID, &events[2]).unwrap());
    assert_eq!(bytes, expected);
    let (fresh, skipped) = encode_events(&events);
    assert_eq!(skipped, 1);
    assert_eq!(fresh.len(), expected.len());
}

#[test]
fn loader_rotates_sessions_on_batch_ends() {
    assert_eq!(loader_step(false, &Frame::Data(vec![1])), (LoaderAction::Load { open_session: true }, true));
    assert_eq!(loader_step(true, &Frame::Data(vec![1])), (LoaderAction::Load { open_session: false }, true));
    assert_eq!(loader_step(true, &Frame::EndOfBatch), (LoaderAction::EndBatch { finish_session: true }, false));
    assert_eq!(loader_step(false, &Frame::EndOfBatch), (LoaderAction::EndBatch { finish_session: false }, false));
    assert_eq!(loader_step(true, &Frame::EndOfStream), (LoaderAction::Stop { finish_session: true }, false));
    assert_eq!(loader_step(false, &Frame::EndOfStream), (LoaderAction::Stop { finish_session: false }, false));
}

#[test]
fn url_puts_the_token_in_its_slot() {
    let config = ReputationConfig {
        endpoint: "https://api.example.com/".to_string(),
        token: "t0k3n".to_string(),
    };
    let single = vec![("access_token".to_string(), String::new())];
    assert_eq!(url(&config, "asns/65000", &single), "https://api.example.com/asns/65000?access_token=t0k3n");
    let several = vec![("ids".to_string(), "1,2".to_string()), ("access_token".to_string(), "old".to_string())];
    assert_eq!(url(&config, "asns/", &several), "https://api.example.com/asns/?ids=1,2&access_token=t0k3n");
}

#[test]
fn encoded_batch_loads_back_into_the_store() {
    let mut broken = announce();
    broken.as_path = None;
    let events = vec![announce(), broken, withdraw_v6()];
    let mut other = ID;
    other[0] = 0xff;
    let (bytes, skipped) = encode_batch(&events, &vec![ID, ID, other]);
    assert_eq!(skipped, 1);
    let mut store = EventStore::new();
    assert!(store.load_batch(&bytes));
    assert_eq!(store.len(), 2);
    let first = store.get(0);
    assert_eq!(first.id, ID);
    assert_eq!(first.origin, 65000);
    assert!(!first.withdrawal);
    assert_eq!(first.timestamp, 1_660_687_200_500_000);
    assert_eq!(first.prefix, announce().prefix);
    assert_eq!(first.as_path.len(), 2);
    assert_eq!(first.as_path[0].asns, vec![3356, 65000]);
    assert!(first.as_path[1].confederated && !first.as_path[1].sequence);
    let second = store.get(1);
    assert_eq!(second.id, other);
    assert!(second.withdrawal);
    assert_eq!(second.prefix, withdraw_v6().prefix);
    assert!(second.as_path.is_empty());
}

#[test]
fn batch_with_a_bad_line_loads_nothing() {
    let mut store = EventStore::new();
    let mut bytes = encode_event(ID, &announce()).unwrap();
    bytes.extend_from_slice(b"not a record\n");
    assert!(!store.load_batch(&bytes));
    assert_eq!(store.len(), 0);
    let unterminated = encode_event(ID, &announce()).unwrap();
    assert!(!store.load_batch(&unterminated[..unterminated.len() - 1]));
    assert_eq!(store.len(), 0);
    assert!(store.load_batch(&[]));
    assert_eq!(store.len(), 0);
}
