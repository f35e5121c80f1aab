use bgp_track::detect::{find_short_lived, query_window, PotentialHijack, ShortLivedScan};
use bgp_track::event::{Announcement, PathSegment};
use bgp_track::net::{IpAddress, Prefix};
use bgp_track::store::EventStore;

const US: u64 = 1_000_000;

fn prefix_1_2_3() -> Prefix {
    Prefix { addr: IpAddress::V4(0x0102_0300), len: 24 }
}

fn record(n: u8, origin: u32, withdrawal: bool, seconds: u64, prefix: Prefix) -> Announcement {
    let mut id = [0u8; 16];
    id[15] = n;
    Announcement {
        id,
        origin,
        withdrawal,
        timestamp: seconds * US,
        prefix,
        as_path: vec![PathSegment { sequence: true, confederated: false, asns: vec![3356, origin] }],
    }
}

fn store_of(records: Vec<Announcement>) -> EventStore {
    let mut store = EventStore::new();
    for r in records {
        store.append(r);
    }
    store
}

fn sorted(mut v: Vec<PotentialHijack>) -> Vec<PotentialHijack> {
    v.sort_by_key(|h| (h.origin, h.ann_time, h.wd_time));
    v
}

#[test]
fn withdraw_inside_window_is_found() {
    let store = store_of(vec![
        record(1, 65000, false, 100, prefix_1_2_3()),
        record(2, 65000, true, 200, prefix_1_2_3()),
    ]);
    let found = find_short_lived(&store, 900, 0, 2000, None, 3600);
    assert_eq!(
        found,
        vec![PotentialHijack {
            origin: 65000,
            prefix: prefix_1_2_3(),
            ann_time: 100 * US,
            wd_time: 200 * US,
        }]
    );
}

#[test]
fn withdraw_outside_window_is_ignored() {
    let store = store_of(vec![
        record(1, 65000, false, 100, prefix_1_2_3()),
        record(2, 65000, true, 1200, prefix_1_2_3()),
    ]);
    let found = find_short_lived(&store, 900, 0, 2000, None, 3600);
    assert!(found.is_empty());
}

#[test]
fn pair_across_chunk_boundary_found_once() {
    let store = store_of(vec![
        record(1, 65000, false, 990, prefix_1_2_3()),
        record(2, 65000, true, 1010, prefix_1_2_3()),
    ]);
    let found = find_short_lived(&store, 900, 0, 2000, None, 1000);
    assert_eq!(
        found,
        vec![PotentialHijack {
            origin: 65000,
            prefix: prefix_1_2_3(),
            ann_time: 990 * US,
            wd_time: 1010 * US,
        }]
    );
    let mut scan = ShortLivedScan::new(900, 0, 2000, None, 1000);
    assert_eq!(scan.next_chunk(&store).map(|v| v.len()), Some(1));
    assert_eq!(scan.next_chunk(&store).map(|v| v.len()), Some(0));
    assert!(scan.next_chunk(&store).is_none());
}

#[test]
fn earliest_withdraw_wins() {
    let store = store_of(vec![
        record(1, 65000, false, 100, prefix_1_2_3()),
        record(2, 65000, true, 500, prefix_1_2_3()),
        record(3, 65000, true, 300, prefix_1_2_3()),
        record(4, 65000, true, 100, prefix_1_2_3()),
        record(5, 65001, true, 150, prefix_1_2_3()),
    ]);
    let found = query_window(&store, 900, 0, 1000, None);
    assert_eq!(found.len(), 1);
    assert_eq!(found[0].wd_time, 300 * US);
}

#[test]
fn other_origin_or_prefix_does_not_pair() {
    let other = Prefix { addr: IpAddress::V4(0x0102_0400), len: 24 };
    let store = store_of(vec![
        record(1, 65000, false, 100, prefix_1_2_3()),
        record(2, 65001, true, 200, prefix_1_2_3()),
        record(3, 65000, true, 200, other),
    ]);
    assert!(query_window(&store, 900, 0, 1000, None).is_empty());
}

#[test]
fn window_bound_is_inclusive() {
    let store = store_of(vec![
        record(1, 65000, false, 100, prefix_1_2_3()),
        record(2, 65000, true, 1000, prefix_1_2_3()),
    ]);
    let found = query_window(&store, 900, 0, 1000, None);
    assert_eq!(found.len(), 1);
    assert_eq!(found[0].wd_time, 1000 * US);
}

#[test]
fn chunked_scan_matches_single_scan() {
    let mut records = Vec::new();
    let mut n: u8 = 0;
    for (i, t) in [5u64, 37, 64, 99, 130, 171, 199].iter().enumerate() {
        n += 1;
        records.push(record(n, 65000 + (i as u32 % 2), false, *t, prefix_1_2_3()));
        n += 1;
        records.push(record(n, 65000 + (i as u32 % 2), true, *t + 25, prefix_1_2_3()));
    }
    let store = store_of(records);
    let whole = sorted(query_window(&store, 30, 0, 200, None));
    assert_eq!(whole.len(), 7);
    for chunk in [1u32, 7, 33, 50, 199, 200, 1000] {
        let chunked = sorted(find_short_lived(&store, 30, 0, 200, None, chunk));
        assert_eq!(chunked, whole, "chunk size {}", chunk);
    }
}

#[test]
fn limit_caps_each_chunk() {
    let mut records = Vec::new();
    let mut n: u8 = 0;
    for t in [10u64, 20, 30, 110, 120, 130] {
        n += 1;
        records.push(record(n, 65000, false, t, prefix_1_2_3()));
    }
    n += 1;
    records.push(record(n, 65000, true, 140, prefix_1_2_3()));
    let store = store_of(records);
    assert_eq!(find_short_lived(&store, 200, 0, 200, None, 100).len(), 6);
    assert_eq!(find_short_lived(&store, 200, 0, 200, Some(2), 100).len(), 4);
    assert_eq!(find_short_lived(&store, 200, 0, 200, Some(2), 200).len(), 2);
}

#[test]
fn empty_range_finds_nothing() {
    let store = store_of(vec![
        record(1, 65000, false, 100, prefix_1_2_3()),
        record(2, 65000, true, 200, prefix_1_2_3()),
    ]);
    assert!(find_short_lived(&store, 900, 500, 500, None, 10).is_empty());
    assert!(find_short_lived(&store, 900, 600, 500, None, 10).is_empty());
}

#[test]
fn single_second_final_chunk() {
    let store = store_of(vec![
        record(1, 65000, false, 1000, prefix_1_2_3()),
        record(2, 65000, true, 1001, prefix_1_2_3()),
    ]);
    let mut scan = ShortLivedScan::new(900, 0, 1001, None, 500);
    assert_eq!(scan.next_range(), Some((0, 500)));
    assert_eq!(scan.next_range(), Some((500, 1000)));
    assert_eq!(scan.next_range(), Some((1000, 1001)));
    assert_eq!(scan.next_range(), None);
    assert_eq!(find_short_lived(&store, 900, 0, 1001, None, 500).len(), 1);
}

#[test]
fn ip_search_finds_covering_announcements() {
    let host = Prefix { addr: IpAddress::V4(0x0102_0305), len: 32 };
    let store = store_of(vec![
        record(1, 65000, false, 100, prefix_1_2_3()),
        record(2, 65000, true, 200, prefix_1_2_3()),
        record(3, 65001, false, 300, host),
        record(4, 65002, false, 400, Prefix { addr: IpAddress::V4(0x0A00_0000), len: 8 }),
    ]);
    let found = store.ip_search(IpAddress::V4(0x0102_0305));
    assert_eq!(found.len(), 2);
    assert_eq!(found[0].origin, 65000);
    assert_eq!(found[0].prefix, prefix_1_2_3());
    assert!(!found[0].withdrawal);
    assert_eq!(found[1].origin, 65001);
    assert_eq!(found[1].prefix, host);
    assert_eq!(store.ip_search(IpAddress::V4(0x0102_0306)).len(), 1);
    assert!(store.ip_search(IpAddress::V6(1)).is_empty());
}

#[test]
fn prefix_containment() {
    let p = prefix_1_2_3();
    assert!(p.contains(IpAddress::V4(0x0102_03FF)));
    assert!(!p.contains(IpAddress::V4(0x0102_0400)));
    assert!(Prefix { addr: IpAddress::V4(0), len: 0 }.contains(IpAddress::V4(0xFFFF_FFFF)));
    let v6 = Prefix { addr: IpAddress::V6(0x2001_0db8 << 96), len: 32 };
    assert!(v6.contains(IpAddress::V6((0x2001_0db8 << 96) | 7)));
    assert!(!v6.contains(IpAddress::V4(7)));
    assert!(Prefix { addr: IpAddress::V4(0x0102_0305), len: 32 }.contains(IpAddress::V4(0x0102_0305)));
    assert!(!Prefix { addr: IpAddress::V4(0x0102_0305), len: 32 }.contains(IpAddress::V4(0x0102_0304)));
}
