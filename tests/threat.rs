use bgp_track::detect::PotentialHijack;
use bgp_track::net::{IpAddress, Prefix};
use bgp_track::threat::{
    classify, classify_all, count_known_bad, group_by_origin, is_flagged, split_sorted, verdict_from,
    AsnGroup, CidrList, ReputationError, ReputationReport, ThreatVerdict,
};

fn v4(a: u32, len: u8) -> Prefix {
    Prefix { addr: IpAddress::V4(a), len }
}

fn finding(origin: u32, prefix: Prefix, t: u64) -> PotentialHijack {
    PotentialHijack { origin, prefix, ann_time: t, wd_time: t + 1 }
}

fn report(categories: Vec<Option<&str>>, cidrs: CidrList) -> ReputationReport {
    ReputationReport { categories: categories.into_iter().map(|c| c.map(String::from)).collect(), cidrs }
}

fn listed(entries: Vec<Option<&str>>) -> CidrList {
    CidrList::Listed(entries.into_iter().map(|c| c.map(String::from)).collect())
}

#[test]
fn two_origins_one_failed_lookup() {
    let findings = vec![finding(65001, v4(0x0A00_0000, 8), 5), finding(65000, v4(0x0102_0300, 24), 7)];
    let groups = group_by_origin(findings);
    assert_eq!(groups.len(), 2);
    assert_eq!(groups[0].origin, 65000);
    assert_eq!(groups[0].members.len(), 1);
    assert_eq!(groups[1].origin, 65001);
    assert_eq!(groups[1].members.len(), 1);
    let reports = vec![
        Err(ReputationError::LookupFailed),
        Ok(report(vec![Some("malicious")], listed(vec![Some("10.0.0.0/8")]))),
    ];
    let verdicts = classify_all(&groups, &reports);
    assert_eq!(verdicts.len(), 2);
    assert_eq!(verdicts[0], Err(ReputationError::LookupFailed));
    assert_eq!(
        verdicts[1],
        Ok(ThreatVerdict { origin: 65001, matched: 1, total: 1, flagged: true })
    );
}

#[test]
fn grouping_partitions_findings() {
    let findings = vec![
        finding(3, v4(1, 32), 1),
        finding(1, v4(2, 32), 2),
        finding(3, v4(3, 32), 3),
        finding(2, v4(4, 32), 4),
        finding(1, v4(5, 32), 5),
        finding(3, v4(6, 32), 6),
    ];
    let groups = group_by_origin(findings.clone());
    let origins: Vec<u32> = groups.iter().map(|g| g.origin).collect();
    assert_eq!(origins, vec![1, 2, 3]);
    let sizes: Vec<usize> = groups.iter().map(|g| g.members.len()).collect();
    assert_eq!(sizes, vec![2, 1, 3]);
    for g in &groups {
        assert!(g.members.iter().all(|h| h.origin == g.origin));
    }
    let mut all: Vec<PotentialHijack> = groups.into_iter().flat_map(|g| g.members).collect();
    let mut expected = findings;
    all.sort_by_key(|h| h.ann_time);
    expected.sort_by_key(|h| h.ann_time);
    assert_eq!(all, expected);
}

#[test]
fn grouping_of_nothing_is_empty() {
    assert!(group_by_origin(Vec::new()).is_empty());
    assert!(split_sorted(&Vec::new()).is_empty());
}

#[test]
fn split_sorted_cuts_at_origin_changes() {
    let sorted = vec![finding(1, v4(1, 32), 1), finding(1, v4(2, 32), 2), finding(4, v4(3, 32), 3)];
    let groups = split_sorted(&sorted);
    assert_eq!(groups.len(), 2);
    assert_eq!(groups[0].members, sorted[0..2].to_vec());
    assert_eq!(groups[1].members, sorted[2..3].to_vec());
}

fn group(origin: u32, prefixes: Vec<Prefix>) -> AsnGroup {
    AsnGroup { origin, members: prefixes.into_iter().map(|p| finding(origin, p, 0)).collect() }
}

#[test]
fn classify_counts_exact_prefix_matches() {
    let g = group(65000, vec![v4(0x0102_0300, 24), v4(0x0102_0300, 25), v4(0x0A00_0000, 8), v4(0x0102_0300, 24)]);
    let r = report(
        vec![Some("spam"), None],
        listed(vec![Some("1.2.3.0/24"), None, Some("192.168.0.0/16")]),
    );
    assert_eq!(
        classify(&g, &r),
        Ok(ThreatVerdict { origin: 65000, matched: 2, total: 4, flagged: false })
    );
}

#[test]
fn classify_reads_ipv6_and_netmask_forms() {
    let g = group(
        7,
        vec![
            Prefix { addr: IpAddress::V6(0x2001_0db8 << 96), len: 32 },
            v4(0x0A00_0000, 8),
        ],
    );
    let r = report(vec![], listed(vec![Some("2001:db8::/32"), Some("10.0.0.0/255.0.0.0")]));
    assert_eq!(classify(&g, &r), Ok(ThreatVerdict { origin: 7, matched: 2, total: 2, flagged: false }));
}

#[test]
fn classify_without_ranges_is_zero() {
    let g = group(9, vec![v4(1, 32)]);
    assert_eq!(
        classify(&g, &report(vec![], CidrList::Absent)),
        Ok(ThreatVerdict { origin: 9, matched: 0, total: 1, flagged: false })
    );
    assert_eq!(
        classify(&g, &report(vec![Some("malicious")], CidrList::Absent)),
        Ok(ThreatVerdict { origin: 9, matched: 0, total: 1, flagged: true })
    );
}

#[test]
fn classify_errors() {
    let g = group(9, vec![v4(1, 32)]);
    assert_eq!(
        classify(&g, &report(vec![], CidrList::Malformed)),
        Err(ReputationError::MalformedCidrList)
    );
    assert_eq!(
        classify(&g, &report(vec![], listed(vec![Some("not a network")]))),
        Err(ReputationError::BadCidr)
    );
    assert_eq!(
        classify(&g, &report(vec![], listed(vec![Some("1.2.3.0/33")]))),
        Err(ReputationError::BadCidr)
    );
}

#[test]
fn flag_needs_exact_category() {
    let cats = |v: Vec<Option<&str>>| v.into_iter().map(|c| c.map(String::from)).collect::<Vec<_>>();
    assert!(is_flagged(&cats(vec![Some("spam"), Some("malicious")])));
    assert!(!is_flagged(&cats(vec![Some("Malicious"), None, Some("malicious ")])));
    assert!(!is_flagged(&Vec::new()));
}

#[test]
fn verdict_from_known_blocks() {
    let g = group(5, vec![v4(1, 32), v4(2, 32), v4(1, 32)]);
    assert_eq!(count_known_bad(&g, &vec![v4(1, 32)]), 2);
    assert_eq!(count_known_bad(&g, &vec![v4(1, 31)]), 0);
    assert_eq!(
        verdict_from(&g, true, &vec![v4(2, 32), v4(9, 32)]),
        ThreatVerdict { origin: 5, matched: 1, total: 3, flagged: true }
    );
}
