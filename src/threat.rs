//! Grouping of findings by origin network and cross-referencing each group
//! against the reputation data reported for its origin.

use vstd::prelude::*;
use vstd::multiset::Multiset;
use itertools::Itertools;
use crate::detect::PotentialHijack;
use crate::net::Prefix;

verus! {

broadcast use vstd::seq_lib::group_to_multiset_ensures, vstd::multiset::group_multiset_axioms;

/// The findings that share one origin network.
#[derive(Clone, Debug)]
pub struct AsnGroup {
    pub origin: u32,
    pub members: Vec<PotentialHijack>,
}

/// The members of the groups, one group after the other.
pub open spec fn concat_members(groups: Seq<AsnGroup>) -> Seq<PotentialHijack>
    decreases groups.len(),
{
    if groups.len() == 0 {
        seq![]
    } else {
        concat_members(groups.drop_last()) + groups.last().members@
    }
}

/// Findings ordered by origin.
pub open spec fn sorted_by_origin(s: Seq<PotentialHijack>) -> bool {
    forall|i: int, j: int| 0 <= i < j < s.len() ==> s[i].origin <= s[j].origin
}

/// Each group is non-empty and holds findings of its own origin alone, and the
/// origins strictly increase from group to group.
pub open spec fn well_grouped(groups: Seq<AsnGroup>) -> bool {
    &&& forall|g: int| 0 <= g < groups.len() ==> #[trigger] groups[g].members@.len() > 0
    &&& forall|g: int, k: int|
        0 <= g < groups.len() && 0 <= k < groups[g].members@.len()
            ==> #[trigger] groups[g].members@[k].origin == groups[g].origin
    &&& forall|g1: int, g2: int|
        0 <= g1 < g2 < groups.len() ==> groups[g1].origin < groups[g2].origin
}

/// Relies on itertools::Itertools::sorted_unstable_by_key: the same findings,
/// ordered by the key, here the origin.
#[verifier::external_body]
fn sort_by_origin(findings: Vec<PotentialHijack>) -> (r: Vec<PotentialHijack>)
    ensures
        r@.to_multiset() == findings@.to_multiset(),
        sorted_by_origin(r@),
{
    findings.into_iter().sorted_unstable_by_key(|h| h.origin).collect()
}

/// Splits findings ordered by origin into groups at each change of origin, in
/// one pass.
pub fn split_sorted(sorted: &Vec<PotentialHijack>) -> (r: Vec<AsnGroup>)
    requires
        sorted_by_origin(sorted@),
    ensures
        concat_members(r@) == sorted@,
        well_grouped(r@),
{
    let n = sorted.len();
    let mut groups: Vec<AsnGroup> = Vec::new();
    let mut current: Vec<PotentialHijack> = Vec::new();
    let mut origin: u32 = 0;
    let mut i: usize = 0;
    while i < n
        invariant
            n == sorted@.len(),
            i <= n,
            sorted_by_origin(sorted@),
            concat_members(groups@) + current@ == sorted@.take(i as int),
            well_grouped(groups@),
            i > 0 ==> current@.len() > 0,
            current@.len() > 0 ==> origin == sorted@[i - 1].origin,
            forall|k: int| 0 <= k < current@.len() ==> #[trigger] current@[k].origin == origin,
            current@.len() > 0 ==> forall|g: int|
                0 <= g < groups@.len() ==> #[trigger] groups@[g].origin < origin,
        decreases n - i,
    {
        let h = sorted[i];
        if current.len() > 0 && h.origin != origin {
            let ghost before = groups@;
            let group = AsnGroup { origin, members: current };
            groups.push(group);
            current = Vec::new();
            proof {
                assert(groups@.drop_last() == before);
                assert(concat_members(groups@) == concat_members(before) + group.members@);
                assert(sorted@[i - 1].origin <= h.origin);
            }
        }
        let ghost prev = current@;
        current.push(h);
        origin = h.origin;
        proof {
            assert(sorted@.take(i as int + 1) =~= sorted@.take(i as int).push(h));
            assert(concat_members(groups@) + current@ =~= (concat_members(groups@) + prev).push(h));
        }
        i = i + 1;
    }
    if current.len() > 0 {
        let ghost before = groups@;
        let group = AsnGroup { origin, members: current };
        groups.push(group);
        proof {
            assert(groups@.drop_last() == before);
        }
    } else {
        assert(concat_members(groups@) + current@ =~= concat_members(groups@));
    }
    proof {
        assert(sorted@.take(n as int) =~= sorted@);
    }
    groups
}

/// Some group is of origin `o`.
pub open spec fn has_group(groups: Seq<AsnGroup>, o: u32) -> bool {
    exists|g: int| 0 <= g < groups.len() && groups[g].origin == o
}

/// Some finding is of origin `o`.
pub open spec fn occurs(findings: Seq<PotentialHijack>, o: u32) -> bool {
    exists|i: int| 0 <= i < findings.len() && findings[i].origin == o
}

/// A finding is among the members of the groups exactly when some group holds it.
proof fn lemma_concat_members_contains(groups: Seq<AsnGroup>, h: PotentialHijack)
    ensures
        concat_members(groups).contains(h) <==> exists|g: int, k: int|
            0 <= g < groups.len() && 0 <= k < groups[g].members@.len() && groups[g].members@[k]
                == h,
    decreases groups.len(),
{
    if groups.len() > 0 {
        let init = groups.drop_last();
        let last = groups.last().members@;
        lemma_concat_members_contains(init, h);
        let all = concat_members(groups);
        assert(all == concat_members(init) + last);
        if all.contains(h) {
            let i = choose|i: int| 0 <= i < all.len() && all[i] == h;
            if i < concat_members(init).len() {
                assert(concat_members(init)[i] == h);
                let (g, k) = choose|g: int, k: int|
                    0 <= g < init.len() && 0 <= k < init[g].members@.len() && init[g].members@[k]
                        == h;
                assert(groups[g] == init[g]);
            } else {
                let k = i - concat_members(init).len();
                assert(last[k] == h);
                assert(groups[groups.len() - 1].members@[k] == h);
            }
        }
        if exists|g: int, k: int|
            0 <= g < groups.len() && 0 <= k < groups[g].members@.len() && groups[g].members@[k]
                == h {
            let (g, k) = choose|g: int, k: int|
                0 <= g < groups.len() && 0 <= k < groups[g].members@.len() && groups[g].members@[k]
                    == h;
            if g < init.len() {
                assert(init[g] == groups[g]);
                let j = choose|j: int|
                    0 <= j < concat_members(init).len() && concat_members(init)[j] == h;
                assert(all[j] == h);
            } else {
                assert(all[concat_members(init).len() + k] == last[k]);
            }
        }
    }
}

/// The findings of `m` whose origin is `o`, counted with multiplicity.
pub open spec fn of_origin(m: Multiset<PotentialHijack>, o: u32) -> Multiset<PotentialHijack> {
    m.filter(|h: PotentialHijack| h.origin == o)
}

/// Among well-grouped groups, a finding of the origin of group `g` occurs in
/// all the members as often as in that group.
proof fn lemma_count_in_group(groups: Seq<AsnGroup>, g: int, h: PotentialHijack)
    requires
        well_grouped(groups),
        0 <= g < groups.len(),
        h.origin == groups[g].origin,
    ensures
        concat_members(groups).to_multiset().count(h) == groups[g].members@.to_multiset().count(h),
    decreases groups.len(),
{
    let init = groups.drop_last();
    let last = groups.last().members@;
    vstd::seq_lib::lemma_multiset_commutative(concat_members(init), last);
    assert(well_grouped(init)) by {
        assert forall|j: int| 0 <= j < init.len() implies #[trigger] init[j] == groups[j] by {}
    }
    if g == groups.len() - 1 {
        if concat_members(init).to_multiset().count(h) > 0 {
            assert(concat_members(init).contains(h));
            lemma_concat_members_contains(init, h);
            let (j, k) = choose|j: int, k: int|
                0 <= j < init.len() && 0 <= k < init[j].members@.len() && init[j].members@[k] == h;
            assert(init[j] == groups[j]);
            assert(groups[j].members@[k].origin == groups[j].origin);
        }
    } else {
        lemma_count_in_group(init, g, h);
        assert(init[g] == groups[g]);
        if last.to_multiset().count(h) > 0 {
            assert(last.contains(h));
            let k = choose|k: int| 0 <= k < last.len() && last[k] == h;
            assert(groups[groups.len() - 1].members@[k].origin == groups[groups.len() - 1].origin);
        }
    }
}

/// Sorts findings by origin and splits them into one group per origin. The
/// groups partition the findings: together they hold every finding exactly as
/// often as the input does, none is empty, and each holds one origin alone.
/// Every origin among the findings has its group and every group's origin
/// occurs among them; as group origins differ, there are as many groups as
/// distinct origins.
pub fn group_by_origin(findings: Vec<PotentialHijack>) -> (r: Vec<AsnGroup>)
    ensures
        concat_members(r@).to_multiset() == findings@.to_multiset(),
        well_grouped(r@),
        forall|i: int| 0 <= i < findings@.len() ==> has_group(r@, #[trigger] findings@[i].origin),
        forall|g: int| 0 <= g < r@.len() ==> occurs(findings@, #[trigger] r@[g].origin),
        forall|g: int|
            0 <= g < r@.len() ==> #[trigger] r@[g].members@.to_multiset() == of_origin(
                findings@.to_multiset(),
                r@[g].origin,
            ),
{
    let ghost input = findings@;
    let sorted = sort_by_origin(findings);
    let groups = split_sorted(&sorted);
    proof {
        let all = concat_members(groups@);
        assert forall|i: int| 0 <= i < input.len() implies has_group(
            groups@,
            #[trigger] input[i].origin,
        ) by {
            let h = input[i];
            assert(input.contains(h));
            assert(input.to_multiset().count(h) > 0);
            assert(all.to_multiset().count(h) > 0);
            assert(all.contains(h));
            lemma_concat_members_contains(groups@, h);
            let (g, k) = choose|g: int, k: int|
                0 <= g < groups@.len() && 0 <= k < groups@[g].members@.len()
                    && groups@[g].members@[k] == h;
            assert(groups@[g].members@[k].origin == groups@[g].origin);
        }
        assert forall|g: int| 0 <= g < groups@.len() implies occurs(
            input,
            #[trigger] groups@[g].origin,
        ) by {
            let h = groups@[g].members@[0];
            assert(groups@[g].members@.len() > 0);
            lemma_concat_members_contains(groups@, h);
            assert(all.contains(h));
            assert(all.to_multiset().count(h) > 0);
            assert(input.to_multiset().count(h) > 0);
            assert(input.contains(h));
            let i = choose|i: int| 0 <= i < input.len() && input[i] == h;
            assert(groups@[g].members@[0].origin == groups@[g].origin);
        }
        assert forall|g: int| 0 <= g < groups@.len() implies #[trigger] groups@[g].members@.to_multiset()
            == of_origin(input.to_multiset(), groups@[g].origin) by {
            let o = groups@[g].origin;
            let ms = groups@[g].members@.to_multiset();
            assert forall|h: PotentialHijack| ms.count(h) == #[trigger] of_origin(
                input.to_multiset(),
                o,
            ).count(h) by {
                if h.origin == o {
                    lemma_count_in_group(groups@, g, h);
                } else if ms.count(h) > 0 {
                    assert(groups@[g].members@.contains(h));
                    let k = choose|k: int|
                        0 <= k < groups@[g].members@.len() && groups@[g].members@[k] == h;
                    assert(groups@[g].members@[k].origin == o);
                }
            }
            assert(ms =~= of_origin(input.to_multiset(), o));
        }
    }
    groups
}

/// What the reputation service reports under an origin's known-bad ranges.
pub enum CidrList {
    /// No ranges are on record for the origin.
    Absent,
    /// Something other than a list stands where the list belongs.
    Malformed,
    /// The listed entries; `None` stands for an entry that is not text.
    Listed(Vec<Option<String>>),
}

/// The reputation data reported for one origin network: its threat categories
/// (`None` for an entry that is not text) and its known-bad address ranges.
pub struct ReputationReport {
    pub categories: Vec<Option<String>>,
    pub cidrs: CidrList,
}

/// The cross-reference of one group: how many of its findings name a prefix on
/// the origin's known-bad list, out of how many, and whether the origin itself
/// is flagged malicious.
#[derive(Clone, Copy, Debug, PartialEq, Eq, Structural, Hash)]
pub struct ThreatVerdict {
    pub origin: u32,
    pub matched: usize,
    pub total: usize,
    pub flagged: bool,
}

/// Why a group could not be cross-referenced.
#[derive(Clone, Copy, Debug, PartialEq, Eq, Structural, Hash)]
pub enum ReputationError {
    /// The service could not be asked, or did not answer.
    LookupFailed,
    /// The known-bad ranges were reported as something other than a list.
    MalformedCidrList,
    /// A listed range is not a valid address block.
    BadCidr,
}

/// What `ipnetwork::IpNetwork::from_str` makes of a text: the address block
/// it denotes, if any.
pub uninterp spec fn network_from_text(s: Seq<char>) -> Option<Prefix>;

/// Relies on ipnetwork::IpNetwork::from_str to read an address block written
/// as `address`, `address/length` or `address/netmask`.
#[verifier::external_body]
fn parse_network(s: &str) -> (r: Option<Prefix>)
    ensures
        r == network_from_text(s@),
        r matches Some(p) ==> p.wf(),
{
    match s.parse::<ipnetwork::IpNetwork>() {
        Ok(ipnetwork::IpNetwork::V4(n)) => Some(
            Prefix { addr: crate::net::IpAddress::V4(u32::from(n.ip())), len: n.prefix() },
        ),
        Ok(ipnetwork::IpNetwork::V6(n)) => Some(
            Prefix { addr: crate::net::IpAddress::V6(u128::from(n.ip())), len: n.prefix() },
        ),
        Err(_) => None,
    }
}

/// The category that marks an origin as malicious.
pub open spec fn is_malicious_tag(c: Option<String>) -> bool {
    c matches Some(s) && s@ == "malicious"@
}

/// Some category marks the origin as malicious.
pub open spec fn flagged_by(categories: Seq<Option<String>>) -> bool {
    exists|k: int| 0 <= k < categories.len() && is_malicious_tag(#[trigger] categories[k])
}

/// The blocks that the text entries denote, skipping entries that are not
/// text; `None` when some text entry is not a valid block.
pub open spec fn known_bad_of(entries: Seq<Option<String>>) -> Option<Seq<Prefix>>
    decreases entries.len(),
{
    if entries.len() == 0 {
        Some(seq![])
    } else {
        match known_bad_of(entries.drop_last()) {
            None => None,
            Some(blocks) => match entries.last() {
                None => Some(blocks),
                Some(s) => match network_from_text(s@) {
                    Some(p) => Some(blocks.push(p)),
                    None => None,
                },
            },
        }
    }
}

/// How many of `prefixes` appear in `known_bad`, counted with multiplicity.
pub open spec fn count_known(prefixes: Seq<Prefix>, known_bad: Seq<Prefix>) -> nat
    decreases prefixes.len(),
{
    if prefixes.len() == 0 {
        0
    } else {
        count_known(prefixes.drop_last(), known_bad) + if known_bad.contains(prefixes.last()) {
            1nat
        } else {
            0nat
        }
    }
}

/// The prefixes of a group's findings, in order.
pub open spec fn group_prefixes(group: AsnGroup) -> Seq<Prefix> {
    group.members@.map_values(|h: PotentialHijack| h.prefix)
}

/// The verdict for a group once the origin's known-bad blocks are known.
pub open spec fn verdict_for(group: AsnGroup, flagged: bool, known_bad: Seq<Prefix>) -> ThreatVerdict {
    ThreatVerdict {
        origin: group.origin,
        matched: count_known(group_prefixes(group), known_bad) as usize,
        total: group.members@.len() as usize,
        flagged,
    }
}

/// The cross-reference of a group against the report for its origin.
pub open spec fn classification(group: AsnGroup, report: ReputationReport) -> Result<
    ThreatVerdict,
    ReputationError,
> {
    let flagged = flagged_by(report.categories@);
    match report.cidrs {
        CidrList::Absent => Ok(verdict_for(group, flagged, seq![])),
        CidrList::Malformed => Err(ReputationError::MalformedCidrList),
        CidrList::Listed(entries) => match known_bad_of(entries@) {
            Some(blocks) => Ok(verdict_for(group, flagged, blocks)),
            None => Err(ReputationError::BadCidr),
        },
    }
}

/// Whether some category marks the origin as malicious.
pub fn is_flagged(categories: &Vec<Option<String>>) -> (r: bool)
    ensures
        r == flagged_by(categories@),
{
    let tag = String::from_str("malicious");
    let mut i: usize = 0;
    while i < categories.len()
        invariant
            i <= categories@.len(),
            tag@ == "malicious"@,
            forall|k: int| 0 <= k < i ==> !is_malicious_tag(#[trigger] categories@[k]),
        decreases categories@.len() - i,
    {
        if let Some(c) = &categories[i] {
            if *c == tag {
                return true;
            }
        }
        i = i + 1;
    }
    false
}

/// Whether `p` is one of `blocks`.
fn listed(blocks: &Vec<Prefix>, p: Prefix) -> (r: bool)
    ensures
        r == blocks@.contains(p),
{
    let mut i: usize = 0;
    while i < blocks.len()
        invariant
            i <= blocks@.len(),
            forall|k: int| 0 <= k < i ==> blocks@[k] != p,
        decreases blocks@.len() - i,
    {
        if blocks[i] == p {
            return true;
        }
        i = i + 1;
    }
    false
}

/// How many of the group's findings name a prefix that is one of `known_bad`
/// exactly (same family, address and length).
pub fn count_known_bad(group: &AsnGroup, known_bad: &Vec<Prefix>) -> (r: usize)
    ensures
        r == count_known(group_prefixes(*group), known_bad@),
{
    let n = group.members.len();
    let mut count: usize = 0;
    let mut i: usize = 0;
    while i < n
        invariant
            n == group.members@.len(),
            i <= n,
            count <= i,
            count == count_known(group_prefixes(*group).take(i as int), known_bad@),
        decreases n - i,
    {
        let p = group.members[i].prefix;
        proof {
            assert(group_prefixes(*group).take(i as int + 1).drop_last() =~= group_prefixes(
                *group,
            ).take(i as int));
        }
        if listed(known_bad, p) {
            count = count + 1;
        }
        i = i + 1;
    }
    proof {
        assert(group_prefixes(*group).take(n as int) =~= group_prefixes(*group));
    }
    count
}

/// The verdict for a group from the origin's flag and known-bad blocks.
pub fn verdict_from(group: &AsnGroup, flagged: bool, known_bad: &Vec<Prefix>) -> (r: ThreatVerdict)
    ensures
        r == verdict_for(*group, flagged, known_bad@),
{
    ThreatVerdict {
        origin: group.origin,
        matched: count_known_bad(group, known_bad),
        total: group.members.len(),
        flagged,
    }
}

/// An entry that spoils a prefix of the list spoils the whole list.
proof fn lemma_known_bad_spoiled(entries: Seq<Option<String>>, k: int)
    requires
        0 <= k <= entries.len(),
        known_bad_of(entries.take(k)) is None,
    ensures
        known_bad_of(entries) is None,
    decreases entries.len(),
{
    if k < entries.len() {
        assert(entries.drop_last().take(k) =~= entries.take(k));
        lemma_known_bad_spoiled(entries.drop_last(), k);
    } else {
        assert(entries.take(k) =~= entries);
    }
}

/// Reads the listed known-bad ranges, skipping entries that are not text.
fn read_known_bad(entries: &Vec<Option<String>>) -> (r: Option<Vec<Prefix>>)
    ensures
        r matches Some(v) ==> known_bad_of(entries@) == Some(v@),
        r is None ==> known_bad_of(entries@) is None,
{
    let mut blocks: Vec<Prefix> = Vec::new();
    let mut i: usize = 0;
    while i < entries.len()
        invariant
            i <= entries@.len(),
            known_bad_of(entries@.take(i as int)) == Some(blocks@),
        decreases entries@.len() - i,
    {
        proof {
            assert(entries@.take(i as int + 1).drop_last() =~= entries@.take(i as int));
        }
        if let Some(s) = &entries[i] {
            match parse_network(s.as_str()) {
                Some(p) => blocks.push(p),
                None => {
                    proof {
                        lemma_known_bad_spoiled(entries@, i as int + 1);
                    }
                    return None;
                },
            }
        }
        i = i + 1;
    }
    proof {
        assert(entries@.take(entries@.len() as int) =~= entries@);
    }
    Some(blocks)
}

/// Cross-references a group against the report for its origin: the verdict,
/// or the reason the report cannot be used.
pub fn classify(group: &AsnGroup, report: &ReputationReport) -> (r: Result<
    ThreatVerdict,
    ReputationError,
>)
    ensures
        r == classification(*group, *report),
{
    let flagged = is_flagged(&report.categories);
    match &report.cidrs {
        CidrList::Absent => {
            let none: Vec<Prefix> = Vec::new();
            Ok(verdict_from(group, flagged, &none))
        },
        CidrList::Malformed => Err(ReputationError::MalformedCidrList),
        CidrList::Listed(entries) => match read_known_bad(entries) {
            Some(blocks) => Ok(verdict_from(group, flagged, &blocks)),
            None => Err(ReputationError::BadCidr),
        },
    }
}

/// Cross-references each group against the outcome of its own lookup. A failed
/// lookup or an unusable report affects its own group alone.
pub fn classify_all(
    groups: &Vec<AsnGroup>,
    reports: &Vec<Result<ReputationReport, ReputationError>>,
) -> (r: Vec<Result<ThreatVerdict, ReputationError>>)
    requires
        groups@.len() == reports@.len(),
    ensures
        r@.len() == groups@.len(),
        forall|k: int|
            0 <= k < groups@.len() ==> #[trigger] r@[k] == match reports@[k] {
                Ok(report) => classification(groups@[k], report),
                Err(e) => Err(e),
            },
{
    let mut out: Vec<Result<ThreatVerdict, ReputationError>> = Vec::new();
    let mut i: usize = 0;
    while i < groups.len()
        invariant
            i <= groups@.len(),
            groups@.len() == reports@.len(),
            out@.len() == i,
            forall|k: int|
                0 <= k < i ==> #[trigger] out@[k] == match reports@[k] {
                    Ok(report) => classification(groups@[k], report),
                    Err(e) => Err(e),
                },
        decreases groups@.len() - i,
    {
        let v = match &reports[i] {
            Ok(report) => classify(&groups[i], report),
            Err(e) => Err(*e),
        };
        out.push(v);
        i = i + 1;
    }
    out
}

} // verus!
