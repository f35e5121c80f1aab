//! The record text is canonical: two records with the same line are the same
//! record. Each piece of a line is told apart from what follows it, either by
//! its fixed length or by the first byte after it, which cannot continue it.

use vstd::prelude::*;
use crate::codec::{
    hex_pair,
    id_text_from,
    six_digits,
    timestamp_text,
    octets,
    groups,
    address_text,
    prefix_text,
    flag_char,
    asn_values,
    segment_open,
    segment_list_open,
    segment_close,
    segment_text,
    segments_text,
    path_text,
    direction_char,
    after_prefix,
    after_timestamp,
    after_origin,
    after_id,
    record_text,
    persisted,
};
use crate::event::{AnnouncementView, PathSegmentView, RouteEvent};
use crate::net::{IpAddress, Prefix};
use crate::parse::{lemma_six_digits, lemma_octets, lemma_groups, lemma_list_head, lemma_decimal_is_hex};
use crate::text::{
    digit_value,
    digits_of,
    list_text,
    lemma_digits_spell,
    lemma_digit_round_trip,
};

verus! {

/// Pieces of equal length that are followed by the same text are equal, and
/// so are their rests.
proof fn lemma_split(a1: Seq<u8>, r1: Seq<u8>, a2: Seq<u8>, r2: Seq<u8>)
    requires
        a1 + r1 == a2 + r2,
        a1.len() == a2.len(),
    ensures
        a1 == a2,
        r1 == r2,
{
    assert((a1 + r1).len() == a1.len() + r1.len());
    assert((a2 + r2).len() == a2.len() + r2.len());
    assert(r1.len() == r2.len());
    assert forall|k: int| 0 <= k < a1.len() implies a1[k] == a2[k] by {
        assert((a1 + r1)[k] == a1[k]);
        assert((a2 + r2)[k] == a2[k]);
    }
    assert forall|k: int| 0 <= k < r1.len() implies r1[k] == r2[k] by {
        assert((a1 + r1)[a1.len() + k] == r1[k]);
        assert((a2 + r2)[a2.len() + k] == r2[k]);
    }
    assert(a1 =~= a2);
    assert(r1 =~= r2);
}

/// Shortest digits followed by something that is not a digit are read
/// unambiguously.
pub proof fn lemma_digits_unique(n: nat, m: nat, r1: Seq<u8>, r2: Seq<u8>, hex: bool)
    requires
        digits_of(n, hex) + r1 == digits_of(m, hex) + r2,
        r1.len() == 0 || digit_value(r1[0], hex) is None,
        r2.len() == 0 || digit_value(r2[0], hex) is None,
    ensures
        n == m,
        r1 == r2,
{
    let a = digits_of(n, hex);
    let b = digits_of(m, hex);
    lemma_digits_spell(n, hex);
    lemma_digits_spell(m, hex);
    if a.len() < b.len() {
        assert((a + r1).len() == (b + r2).len());
        assert((a + r1)[a.len() as int] == r1[0]);
        assert((b + r2)[a.len() as int] == b[a.len() as int]);
        assert(digit_value(b[a.len() as int], hex) is Some);
    } else if b.len() < a.len() {
        assert((a + r1).len() == (b + r2).len());
        assert((b + r2)[b.len() as int] == r2[0]);
        assert((a + r1)[b.len() as int] == a[b.len() as int]);
        assert(digit_value(a[b.len() as int], hex) is Some);
    } else {
        lemma_split(a, r1, b, r2);
    }
}

/// What a list of numbers from the `j`-th on begins with.
proof fn lemma_list_first(ls: Seq<nat>, hex: bool, sep: u8, j: nat, r: Seq<u8>)
    requires
        j <= ls.len(),
        r.len() > 0,
    ensures
        (list_text(ls, hex, sep, j) + r).len() > 0,
        j == ls.len() ==> (list_text(ls, hex, sep, j) + r)[0] == r[0],
        j < ls.len() && j > 0 ==> (list_text(ls, hex, sep, j) + r)[0] == sep,
        j < ls.len() && j == 0 ==> digit_value((list_text(ls, hex, sep, j) + r)[0], hex) is Some,
{
    if j < ls.len() {
        lemma_digits_spell(ls[j as int], hex);
        let d = digits_of(ls[j as int], hex);
        if j > 0 {
            assert(list_text(ls, hex, sep, j) + r =~= seq![sep] + (d + list_text(
                ls,
                hex,
                sep,
                j + 1,
            ) + r));
        } else {
            assert(list_text(ls, hex, sep, j) + r =~= d + (list_text(ls, hex, sep, j + 1) + r));
            assert(digit_value(d[0], hex) is Some);
        }
    } else {
        assert(list_text(ls, hex, sep, j) + r =~= r);
    }
}

/// Lists of numbers followed by something that is neither a digit nor the
/// separator are read unambiguously.
#[verifier::rlimit(40)]
pub proof fn lemma_list_unique(
    ls1: Seq<nat>,
    ls2: Seq<nat>,
    hex: bool,
    sep: u8,
    j: nat,
    r1: Seq<u8>,
    r2: Seq<u8>,
)
    requires
        j <= ls1.len(),
        j <= ls2.len(),
        digit_value(sep, hex) is None,
        r1.len() > 0 && r1[0] != sep && digit_value(r1[0], hex) is None,
        r2.len() > 0 && r2[0] != sep && digit_value(r2[0], hex) is None,
        list_text(ls1, hex, sep, j) + r1 == list_text(ls2, hex, sep, j) + r2,
    ensures
        ls1.len() == ls2.len(),
        forall|k: int| j <= k < ls1.len() ==> ls1[k] == ls2[k],
        r1 == r2,
    decreases ls1.len() + ls2.len() - 2 * j,
{
    lemma_list_first(ls1, hex, sep, j, r1);
    lemma_list_first(ls2, hex, sep, j, r2);
    if j == ls1.len() && j == ls2.len() {
        assert(list_text(ls1, hex, sep, j) + r1 =~= r1);
        assert(list_text(ls2, hex, sep, j) + r2 =~= r2);
    } else if j < ls1.len() && j < ls2.len() {
        let d1 = digits_of(ls1[j as int], hex);
        let d2 = digits_of(ls2[j as int], hex);
        let t1 = list_text(ls1, hex, sep, j + 1) + r1;
        let t2 = list_text(ls2, hex, sep, j + 1) + r2;
        lemma_list_first(ls1, hex, sep, j + 1, r1);
        lemma_list_first(ls2, hex, sep, j + 1, r2);
        if j > 0 {
            assert(list_text(ls1, hex, sep, j) + r1 =~= seq![sep] + (d1 + t1));
            assert(list_text(ls2, hex, sep, j) + r2 =~= seq![sep] + (d2 + t2));
            lemma_split(seq![sep], d1 + t1, seq![sep], d2 + t2);
        } else {
            assert(list_text(ls1, hex, sep, j) + r1 =~= d1 + t1);
            assert(list_text(ls2, hex, sep, j) + r2 =~= d2 + t2);
        }
        lemma_digits_unique(ls1[j as int], ls2[j as int], t1, t2, hex);
        lemma_list_unique(ls1, ls2, hex, sep, j + 1, r1, r2);
    }
}

/// Identifier texts followed by the same kind of text are read unambiguously.
proof fn lemma_id_unique(id1: Seq<u8>, id2: Seq<u8>, k: nat, r1: Seq<u8>, r2: Seq<u8>)
    requires
        id1.len() == 16,
        id2.len() == 16,
        k <= 16,
        id_text_from(id1, k) + r1 == id_text_from(id2, k) + r2,
    ensures
        forall|j: int| k <= j < 16 ==> id1[j] == id2[j],
        r1 == r2,
    decreases 16 - k,
{
    if k >= 16 {
        assert(id_text_from(id1, k) + r1 =~= r1);
        assert(id_text_from(id2, k) + r2 =~= r2);
    } else {
        let hyphen: Seq<u8> = if k == 4 || k == 6 || k == 8 || k == 10 {
            seq![45u8]
        } else {
            seq![]
        };
        let t1 = id_text_from(id1, k + 1) + r1;
        let t2 = id_text_from(id2, k + 1) + r2;
        assert(id_text_from(id1, k) + r1 =~= hyphen + (hex_pair(id1[k as int]) + t1));
        assert(id_text_from(id2, k) + r2 =~= hyphen + (hex_pair(id2[k as int]) + t2));
        lemma_split(hyphen, hex_pair(id1[k as int]) + t1, hyphen, hex_pair(id2[k as int]) + t2);
        lemma_split(hex_pair(id1[k as int]), t1, hex_pair(id2[k as int]), t2);
        let b1 = id1[k as int];
        let b2 = id2[k as int];
        lemma_digit_round_trip((b1 / 16) as nat, true);
        lemma_digit_round_trip((b1 % 16) as nat, true);
        lemma_digit_round_trip((b2 / 16) as nat, true);
        lemma_digit_round_trip((b2 % 16) as nat, true);
        assert(hex_pair(b1)[0] == hex_pair(b2)[0]);
        assert(hex_pair(b1)[1] == hex_pair(b2)[1]);
        lemma_id_unique(id1, id2, k + 1, r1, r2);
    }
}

/// Timestamp texts followed by the same kind of text are read unambiguously.
proof fn lemma_timestamp_unique(t1: u64, t2: u64, r1: Seq<u8>, r2: Seq<u8>)
    requires
        timestamp_text(t1) + r1 == timestamp_text(t2) + r2,
    ensures
        t1 == t2,
        r1 == r2,
{
    let s1 = (t1 / 1_000_000) as nat;
    let s2 = (t2 / 1_000_000) as nat;
    let m1 = (t1 % 1_000_000) as nat;
    let m2 = (t2 % 1_000_000) as nat;
    let u1 = seq![46u8] + (six_digits(m1) + r1);
    let u2 = seq![46u8] + (six_digits(m2) + r2);
    assert(timestamp_text(t1) + r1 =~= digits_of(s1, false) + u1);
    assert(timestamp_text(t2) + r2 =~= digits_of(s2, false) + u2);
    assert(u1[0] == 46u8);
    assert(u2[0] == 46u8);
    lemma_digits_unique(s1, s2, u1, u2, false);
    lemma_split(seq![46u8], six_digits(m1) + r1, seq![46u8], six_digits(m2) + r2);
    lemma_split(six_digits(m1), r1, six_digits(m2), r2);
    lemma_six_digits(m1);
    lemma_six_digits(m2);
    let d1 = six_digits(m1);
    let d2 = six_digits(m2);
    assert(d1[0] == d2[0] && d1[1] == d2[1] && d1[2] == d2[2] && d1[3] == d2[3] && d1[4] == d2[4]
        && d1[5] == d2[5]);
}

/// An IPv4 address text and an IPv6 address text never stand at the same place.
proof fn lemma_families_differ(x: u32, y: u128, r1: Seq<u8>, r2: Seq<u8>)
    ensures
        list_text(octets(x), false, 46, 0) + r1 != list_text(groups(y), true, 58, 0) + r2,
{
    let o = octets(x);
    let g = groups(y);
    lemma_list_head(o, false, 46);
    lemma_list_head(g, true, 58);
    let a = digits_of(o[0], false);
    let b = digits_of(g[0], true);
    lemma_digits_spell(o[0], false);
    lemma_digits_spell(g[0], true);
    let u1 = seq![46u8] + digits_of(o[1], false) + list_text(o, false, 46, 2) + r1;
    let u2 = seq![58u8] + digits_of(g[1], true) + list_text(g, true, 58, 2) + r2;
    let s1 = list_text(o, false, 46, 0) + r1;
    let s2 = list_text(g, true, 58, 0) + r2;
    assert(s1 =~= a + u1);
    assert(s2 =~= b + u2);
    if s1 == s2 {
        if a.len() < b.len() {
            assert(s1[a.len() as int] == 46u8);
            assert(s2[a.len() as int] == b[a.len() as int]);
            assert(digit_value(b[a.len() as int], true) is Some);
        } else if b.len() < a.len() {
            assert(s2[b.len() as int] == 58u8);
            assert(s1[b.len() as int] == a[b.len() as int]);
            assert(digit_value(a[b.len() as int], false) is Some);
            lemma_decimal_is_hex(a[b.len() as int]);
        } else {
            assert(s1[a.len() as int] == 46u8);
            assert(s2[a.len() as int] == 58u8);
        }
    }
}

/// Prefix texts followed by something that is not a digit are read unambiguously.
proof fn lemma_prefix_unique(p1: Prefix, p2: Prefix, r1: Seq<u8>, r2: Seq<u8>)
    requires
        prefix_text(p1) + r1 == prefix_text(p2) + r2,
        r1.len() > 0 && digit_value(r1[0], false) is None,
        r2.len() > 0 && digit_value(r2[0], false) is None,
    ensures
        p1 == p2,
        r1 == r2,
{
    let u1 = seq![47u8] + (digits_of(p1.len as nat, false) + r1);
    let u2 = seq![47u8] + (digits_of(p2.len as nat, false) + r2);
    assert(prefix_text(p1) + r1 =~= address_text(p1.addr) + u1);
    assert(prefix_text(p2) + r2 =~= address_text(p2.addr) + u2);
    assert(u1[0] == 47u8);
    assert(u2[0] == 47u8);
    match (p1.addr, p2.addr) {
        (IpAddress::V4(x), IpAddress::V4(y)) => {
            lemma_list_unique(octets(x), octets(y), false, 46, 0, u1, u2);
            lemma_octets(x);
            lemma_octets(y);
            assert(octets(x)[0] == octets(y)[0] && octets(x)[1] == octets(y)[1] && octets(x)[2]
                == octets(y)[2] && octets(x)[3] == octets(y)[3]);
        },
        (IpAddress::V6(x), IpAddress::V6(y)) => {
            lemma_list_unique(groups(x), groups(y), true, 58, 0, u1, u2);
            lemma_groups(x);
            lemma_groups(y);
            assert(groups(x)[0] == groups(y)[0] && groups(x)[1] == groups(y)[1] && groups(x)[2]
                == groups(y)[2] && groups(x)[3] == groups(y)[3] && groups(x)[4] == groups(y)[4]
                && groups(x)[5] == groups(y)[5] && groups(x)[6] == groups(y)[6] && groups(x)[7]
                == groups(y)[7]);
        },
        (IpAddress::V4(x), IpAddress::V6(y)) => {
            lemma_families_differ(x, y, u1, u2);
        },
        (IpAddress::V6(x), IpAddress::V4(y)) => {
            lemma_families_differ(y, x, u2, u1);
        },
    }
    lemma_split(seq![47u8], digits_of(p1.len as nat, false) + r1, seq![47u8], digits_of(p2.len as nat, false) + r2);
    lemma_digits_unique(p1.len as nat, p2.len as nat, r1, r2, false);
}

/// Segment texts followed by anything are read unambiguously.
proof fn lemma_segment_unique(g1: PathSegmentView, g2: PathSegmentView, r1: Seq<u8>, r2: Seq<u8>)
    requires
        segment_text(g1) + r1 == segment_text(g2) + r2,
    ensures
        g1 == g2,
        r1 == r2,
{
    let l1 = list_text(asn_values(g1.asns), false, 44, 0);
    let l2 = list_text(asn_values(g2.asns), false, 44, 0);
    let c1 = segment_close() + r1;
    let c2 = segment_close() + r2;
    let f1 = seq![flag_char(g1.sequence), 44u8, flag_char(g1.confederated)];
    let f2 = seq![flag_char(g2.sequence), 44u8, flag_char(g2.confederated)];
    assert(segment_text(g1) + r1 =~= segment_open() + (f1 + (segment_list_open() + (l1 + c1))));
    assert(segment_text(g2) + r2 =~= segment_open() + (f2 + (segment_list_open() + (l2 + c2))));
    lemma_split(segment_open(), f1 + (segment_list_open() + (l1 + c1)), segment_open(), f2 + (
    segment_list_open() + (l2 + c2)));
    lemma_split(f1, segment_list_open() + (l1 + c1), f2, segment_list_open() + (l2 + c2));
    assert(f1[0] == f2[0] && f1[2] == f2[2]);
    lemma_split(segment_list_open(), l1 + c1, segment_list_open(), l2 + c2);
    assert(c1[0] == 125u8 && c2[0] == 125u8);
    lemma_list_unique(asn_values(g1.asns), asn_values(g2.asns), false, 44, 0, c1, c2);
    assert forall|k: int| 0 <= k < g1.asns.len() implies g1.asns[k] == g2.asns[k] by {
        assert(asn_values(g1.asns)[k] == asn_values(g2.asns)[k]);
    }
    assert(g1.asns =~= g2.asns);
    lemma_split(segment_close(), r1, segment_close(), r2);
}

/// What the segments from the `j`-th on begin with.
proof fn lemma_segments_first(segs: Seq<PathSegmentView>, j: nat, r: Seq<u8>)
    requires
        j <= segs.len(),
        r.len() > 0,
    ensures
        (segments_text(segs, j) + r).len() > 0,
        j == segs.len() ==> (segments_text(segs, j) + r)[0] == r[0],
        j < segs.len() && j > 0 ==> (segments_text(segs, j) + r)[0] == 44u8,
        j < segs.len() && j == 0 ==> (segments_text(segs, j) + r)[0] == 34u8,
{
    if j < segs.len() {
        let rest = segment_text(segs[j as int]) + segments_text(segs, j + 1) + r;
        if j > 0 {
            assert(segments_text(segs, j) + r =~= seq![44u8] + rest);
        } else {
            assert(segments_text(segs, j) + r =~= segment_open() + (seq![flag_char(
                segs[j as int].sequence,
            ), 44u8, flag_char(segs[j as int].confederated)] + segment_list_open() + list_text(
                asn_values(segs[j as int].asns),
                false,
                44,
                0,
            ) + segment_close() + segments_text(segs, j + 1) + r));
        }
    } else {
        assert(segments_text(segs, j) + r =~= r);
    }
}

/// Lists of segments followed by a closing brace are read unambiguously.
proof fn lemma_segments_unique(
    s1: Seq<PathSegmentView>,
    s2: Seq<PathSegmentView>,
    j: nat,
    r1: Seq<u8>,
    r2: Seq<u8>,
)
    requires
        j <= s1.len(),
        j <= s2.len(),
        r1.len() > 0 && r1[0] == 125u8,
        r2.len() > 0 && r2[0] == 125u8,
        segments_text(s1, j) + r1 == segments_text(s2, j) + r2,
    ensures
        s1.len() == s2.len(),
        forall|k: int| j <= k < s1.len() ==> s1[k] == s2[k],
        r1 == r2,
    decreases s1.len() + s2.len() - 2 * j,
{
    lemma_segments_first(s1, j, r1);
    lemma_segments_first(s2, j, r2);
    if j == s1.len() && j == s2.len() {
        assert(segments_text(s1, j) + r1 =~= r1);
        assert(segments_text(s2, j) + r2 =~= r2);
    } else if j < s1.len() && j < s2.len() {
        let t1 = segments_text(s1, j + 1) + r1;
        let t2 = segments_text(s2, j + 1) + r2;
        let a1 = segment_text(s1[j as int]);
        let a2 = segment_text(s2[j as int]);
        if j > 0 {
            assert(segments_text(s1, j) + r1 =~= seq![44u8] + (a1 + t1));
            assert(segments_text(s2, j) + r2 =~= seq![44u8] + (a2 + t2));
            lemma_split(seq![44u8], a1 + t1, seq![44u8], a2 + t2);
        } else {
            assert(segments_text(s1, j) + r1 =~= a1 + t1);
            assert(segments_text(s2, j) + r2 =~= a2 + t2);
        }
        lemma_segment_unique(s1[j as int], s2[j as int], t1, t2);
        lemma_segments_unique(s1, s2, j + 1, r1, r2);
    }
}

/// Path texts followed by anything are read unambiguously.
proof fn lemma_path_unique(s1: Seq<PathSegmentView>, s2: Seq<PathSegmentView>, r1: Seq<u8>, r2: Seq<u8>)
    requires
        path_text(s1) + r1 == path_text(s2) + r2,
    ensures
        s1 == s2,
        r1 == r2,
{
    let c1 = seq![125u8, 34] + r1;
    let c2 = seq![125u8, 34] + r2;
    assert(path_text(s1) + r1 =~= seq![34u8, 123] + (segments_text(s1, 0) + c1));
    assert(path_text(s2) + r2 =~= seq![34u8, 123] + (segments_text(s2, 0) + c2));
    lemma_split(seq![34u8, 123], segments_text(s1, 0) + c1, seq![34u8, 123], segments_text(s2, 0) + c2);
    assert(c1[0] == 125u8 && c2[0] == 125u8);
    lemma_segments_unique(s1, s2, 0, c1, c2);
    assert(s1 =~= s2);
    lemma_split(seq![125u8, 34], r1, seq![125u8, 34], r2);
}

/// Distinct records have distinct lines: a line determines its record.
pub proof fn lemma_record_text_injective(v1: AnnouncementView, v2: AnnouncementView)
    requires
        v1.wf(),
        v2.wf(),
        record_text(v1) == record_text(v2),
    ensures
        v1 == v2,
{
    lemma_id_unique(v1.id, v2.id, 0, after_id(v1), after_id(v2));
    assert(v1.id =~= v2.id);
    let o1 = digits_of(v1.origin as nat, false) + after_origin(v1);
    let o2 = digits_of(v2.origin as nat, false) + after_origin(v2);
    assert(after_id(v1) =~= seq![44u8] + o1);
    assert(after_id(v2) =~= seq![44u8] + o2);
    lemma_split(seq![44u8], o1, seq![44u8], o2);
    assert(after_origin(v1)[0] == 44u8 && after_origin(v2)[0] == 44u8);
    lemma_digits_unique(v1.origin as nat, v2.origin as nat, after_origin(v1), after_origin(v2), false);
    let head1 = seq![44u8, direction_char(v1.withdrawal), 44u8];
    let head2 = seq![44u8, direction_char(v2.withdrawal), 44u8];
    let ts1 = timestamp_text(v1.timestamp) + after_timestamp(v1);
    let ts2 = timestamp_text(v2.timestamp) + after_timestamp(v2);
    assert(after_origin(v1) =~= head1 + ts1);
    assert(after_origin(v2) =~= head2 + ts2);
    lemma_split(head1, ts1, head2, ts2);
    assert(head1[1] == head2[1]);
    lemma_timestamp_unique(v1.timestamp, v2.timestamp, after_timestamp(v1), after_timestamp(v2));
    let p1 = prefix_text(v1.prefix) + after_prefix(v1);
    let p2 = prefix_text(v2.prefix) + after_prefix(v2);
    assert(after_timestamp(v1) =~= seq![44u8] + p1);
    assert(after_timestamp(v2) =~= seq![44u8] + p2);
    lemma_split(seq![44u8], p1, seq![44u8], p2);
    assert(after_prefix(v1)[0] == 44u8 && after_prefix(v2)[0] == 44u8);
    lemma_prefix_unique(v1.prefix, v2.prefix, after_prefix(v1), after_prefix(v2));
    let q1 = path_text(v1.as_path) + seq![10u8];
    let q2 = path_text(v2.as_path) + seq![10u8];
    assert(after_prefix(v1) =~= seq![44u8] + q1);
    assert(after_prefix(v2) =~= seq![44u8] + q2);
    lemma_split(seq![44u8], q1, seq![44u8], q2);
    lemma_path_unique(v1.as_path, v2.as_path, seq![10u8], seq![10u8]);
}

/// Round trip: a record read back from the line that stores an event under
/// `id` has that identifier and the event's origin, direction, timestamp,
/// prefix and AS path, segments in order.
pub proof fn lemma_round_trip(id: Seq<u8>, ev: RouteEvent, back: AnnouncementView)
    requires
        id.len() == 16,
        ev.prefix.wf(),
        back.wf(),
        record_text(back) == record_text(persisted(id, ev)),
    ensures
        back == persisted(id, ev),
{
    lemma_record_text_injective(back, persisted(id, ev));
}

/// No byte is a newline.
pub open spec fn no_newline(s: Seq<u8>) -> bool {
    forall|k: int| 0 <= k < s.len() ==> #[trigger] s[k] != 10u8
}

/// Joining texts without newlines gives a text without newlines.
proof fn lemma_no_newline_join(a: Seq<u8>, b: Seq<u8>)
    requires
        no_newline(a),
        no_newline(b),
    ensures
        no_newline(a + b),
{
    assert forall|k: int| 0 <= k < (a + b).len() implies #[trigger] (a + b)[k] != 10u8 by {
        if k < a.len() {
            assert((a + b)[k] == a[k]);
        } else {
            assert((a + b)[k] == b[k - a.len()]);
        }
    }
}

/// Digits are not newlines.
proof fn lemma_digits_no_newline(n: nat, hex: bool)
    ensures
        no_newline(digits_of(n, hex)),
{
    lemma_digits_spell(n, hex);
    let d = digits_of(n, hex);
    assert forall|k: int| 0 <= k < d.len() implies #[trigger] d[k] != 10u8 by {
        assert(digit_value(d[k], hex) is Some);
    }
}

/// A list of numbers holds no newline.
proof fn lemma_list_no_newline(ls: Seq<nat>, hex: bool, sep: u8, j: nat)
    requires
        sep != 10u8,
    ensures
        no_newline(list_text(ls, hex, sep, j)),
    decreases ls.len() - j,
{
    if j < ls.len() {
        lemma_list_no_newline(ls, hex, sep, j + 1);
        lemma_digits_no_newline(ls[j as int], hex);
        let lead: Seq<u8> = if j > 0 {
            seq![sep]
        } else {
            seq![]
        };
        assert(no_newline(lead));
        lemma_no_newline_join(lead, digits_of(ls[j as int], hex));
        lemma_no_newline_join(lead + digits_of(ls[j as int], hex), list_text(ls, hex, sep, j + 1));
    } else {
        assert(list_text(ls, hex, sep, j) =~= seq![]);
    }
}

/// An identifier's text holds no newline.
proof fn lemma_id_no_newline(id: Seq<u8>, k: nat)
    ensures
        no_newline(id_text_from(id, k)),
    decreases 16 - k,
{
    if k < 16 {
        lemma_id_no_newline(id, k + 1);
        let b = id[k as int];
        let hyphen: Seq<u8> = if k == 4 || k == 6 || k == 8 || k == 10 {
            seq![45u8]
        } else {
            seq![]
        };
        assert(no_newline(hyphen));
        assert(no_newline(hex_pair(b)));
        lemma_no_newline_join(hyphen, hex_pair(b));
        lemma_no_newline_join(hyphen + hex_pair(b), id_text_from(id, k + 1));
    } else {
        assert(id_text_from(id, k) =~= seq![]);
    }
}

/// The segments of a path hold no newline.
proof fn lemma_segments_no_newline(segs: Seq<PathSegmentView>, j: nat)
    ensures
        no_newline(segments_text(segs, j)),
    decreases segs.len() - j,
{
    if j < segs.len() {
        lemma_segments_no_newline(segs, j + 1);
        let g = segs[j as int];
        lemma_list_no_newline(asn_values(g.asns), false, 44, 0);
        let flags = seq![flag_char(g.sequence), 44u8, flag_char(g.confederated)];
        assert(no_newline(segment_open()));
        assert(no_newline(flags));
        assert(no_newline(segment_list_open()));
        assert(no_newline(segment_close()));
        lemma_no_newline_join(segment_open(), flags);
        lemma_no_newline_join(segment_open() + flags, segment_list_open());
        lemma_no_newline_join(
            segment_open() + flags + segment_list_open(),
            list_text(asn_values(g.asns), false, 44, 0),
        );
        lemma_no_newline_join(
            segment_open() + flags + segment_list_open() + list_text(asn_values(g.asns), false, 44, 0),
            segment_close(),
        );
        let lead: Seq<u8> = if j > 0 {
            seq![44u8]
        } else {
            seq![]
        };
        assert(no_newline(lead));
        lemma_no_newline_join(lead, segment_text(g));
        lemma_no_newline_join(lead + segment_text(g), segments_text(segs, j + 1));
    } else {
        assert(segments_text(segs, j) =~= seq![]);
    }
}

/// A text that ends in its only newline.
pub open spec fn one_line(s: Seq<u8>) -> bool {
    s.len() >= 1 && s.last() == 10u8 && no_newline(s.drop_last())
}

/// A text without newlines in front of a line is still one line.
proof fn lemma_one_line_join(a: Seq<u8>, b: Seq<u8>)
    requires
        no_newline(a),
        one_line(b),
    ensures
        one_line(a + b),
{
    lemma_no_newline_join(a, b.drop_last());
    assert((a + b).drop_last() =~= a + b.drop_last());
}

/// A timestamp's text holds no newline.
proof fn lemma_timestamp_no_newline(t: u64)
    ensures
        no_newline(timestamp_text(t)),
{
    lemma_digits_no_newline((t / 1_000_000) as nat, false);
    lemma_six_digits_no_newline((t % 1_000_000) as nat);
    assert(no_newline(seq![46u8]));
    lemma_no_newline_join(digits_of((t / 1_000_000) as nat, false), seq![46u8]);
    lemma_no_newline_join(
        digits_of((t / 1_000_000) as nat, false) + seq![46u8],
        six_digits((t % 1_000_000) as nat),
    );
}

/// A prefix's text holds no newline.
proof fn lemma_prefix_no_newline(p: Prefix)
    ensures
        no_newline(prefix_text(p)),
{
    match p.addr {
        IpAddress::V4(x) => lemma_list_no_newline(octets(x), false, 46, 0),
        IpAddress::V6(x) => lemma_list_no_newline(groups(x), true, 58, 0),
    }
    lemma_digits_no_newline(p.len as nat, false);
    assert(no_newline(seq![47u8]));
    lemma_no_newline_join(address_text(p.addr), seq![47u8]);
    lemma_no_newline_join(address_text(p.addr) + seq![47u8], digits_of(p.len as nat, false));
}

/// A path's text holds no newline.
proof fn lemma_path_no_newline(segs: Seq<PathSegmentView>)
    ensures
        no_newline(path_text(segs)),
{
    lemma_segments_no_newline(segs, 0);
    assert(no_newline(seq![34u8, 123]));
    assert(no_newline(seq![125u8, 34]));
    lemma_no_newline_join(seq![34u8, 123], segments_text(segs, 0));
    lemma_no_newline_join(seq![34u8, 123] + segments_text(segs, 0), seq![125u8, 34]);
}

/// A record's line is a text without newlines followed by one newline.
pub proof fn lemma_record_line(v: AnnouncementView)
    ensures
        one_line(record_text(v)),
{
    assert(no_newline(seq![44u8]));
    lemma_path_no_newline(v.as_path);
    lemma_no_newline_join(seq![44u8], path_text(v.as_path));
    assert(one_line(seq![10u8])) by {
        assert(seq![10u8].drop_last() =~= Seq::<u8>::empty());
    }
    lemma_one_line_join(seq![44u8] + path_text(v.as_path), seq![10u8]);
    lemma_prefix_no_newline(v.prefix);
    lemma_no_newline_join(seq![44u8], prefix_text(v.prefix));
    lemma_one_line_join(seq![44u8] + prefix_text(v.prefix), after_prefix(v));
    lemma_timestamp_no_newline(v.timestamp);
    let head = seq![44u8, direction_char(v.withdrawal), 44u8];
    assert(no_newline(head));
    lemma_no_newline_join(head, timestamp_text(v.timestamp));
    lemma_one_line_join(head + timestamp_text(v.timestamp), after_timestamp(v));
    lemma_digits_no_newline(v.origin as nat, false);
    lemma_no_newline_join(seq![44u8], digits_of(v.origin as nat, false));
    lemma_one_line_join(seq![44u8] + digits_of(v.origin as nat, false), after_origin(v));
    lemma_id_no_newline(v.id, 0);
    lemma_one_line_join(id_text_from(v.id, 0), after_id(v));
}

/// Six decimal digits are not newlines.
proof fn lemma_six_digits_no_newline(m: nat)
    ensures
        no_newline(six_digits(m)),
{
    let q1 = m / 10;
    let q2 = q1 / 10;
    let q3 = q2 / 10;
    let q4 = q3 / 10;
    let q5 = q4 / 10;
    lemma_digit_round_trip(q5 % 10, false);
    lemma_digit_round_trip(q4 % 10, false);
    lemma_digit_round_trip(q3 % 10, false);
    lemma_digit_round_trip(q2 % 10, false);
    lemma_digit_round_trip(q1 % 10, false);
    lemma_digit_round_trip(m % 10, false);
}

/// The lines of the records, one after the other.
pub open spec fn batch_lines(vs: Seq<AnnouncementView>) -> Seq<u8>
    decreases vs.len(),
{
    if vs.len() == 0 {
        seq![]
    } else {
        batch_lines(vs.drop_last()) + record_text(vs.last())
    }
}

/// The lines of two lists of records, one after the other.
pub proof fn lemma_batch_lines_join(a: Seq<AnnouncementView>, b: Seq<AnnouncementView>)
    ensures
        batch_lines(a + b) == batch_lines(a) + batch_lines(b),
    decreases b.len(),
{
    if b.len() == 0 {
        assert(a + b =~= a);
        assert(batch_lines(a) + batch_lines(b) =~= batch_lines(a));
    } else {
        lemma_batch_lines_join(a, b.drop_last());
        assert((a + b).drop_last() =~= a + b.drop_last());
        assert((a + b).last() == b.last());
        assert(batch_lines(a) + batch_lines(b) =~= batch_lines(a) + batch_lines(b.drop_last())
            + record_text(b.last()));
    }
}

/// The lines of records from the `k`-th on: the `k`-th record's line, then
/// the lines of the rest.
pub proof fn lemma_batch_lines_step(vs: Seq<AnnouncementView>, k: int)
    requires
        0 <= k < vs.len(),
    ensures
        batch_lines(vs.skip(k)) == record_text(vs[k]) + batch_lines(vs.skip(k + 1)),
{
    assert(vs.skip(k) =~= seq![vs[k]] + vs.skip(k + 1));
    lemma_batch_lines_join(seq![vs[k]], vs.skip(k + 1));
    let single = seq![vs[k]];
    assert(single.drop_last() =~= Seq::<AnnouncementView>::empty());
    assert(single.last() == vs[k]);
    assert(batch_lines(single.drop_last()) == Seq::<u8>::empty());
    assert(batch_lines(single) == batch_lines(single.drop_last()) + record_text(vs[k]));
    assert(batch_lines(single) =~= record_text(vs[k]));
}

/// Two lines at the same place have the same length.
proof fn lemma_lines_same_length(a: Seq<u8>, r1: Seq<u8>, b: Seq<u8>, r2: Seq<u8>)
    requires
        one_line(a),
        one_line(b),
        a + r1 == b + r2,
    ensures
        a.len() == b.len(),
{
    if a.len() < b.len() {
        assert((a + r1)[a.len() - 1] == a[a.len() - 1]);
        assert((b + r2)[a.len() - 1] == b[a.len() - 1]);
        assert(b.drop_last()[a.len() - 1] == b[a.len() - 1]);
    } else if b.len() < a.len() {
        assert((b + r2)[b.len() - 1] == b[b.len() - 1]);
        assert((a + r1)[b.len() - 1] == a[b.len() - 1]);
        assert(a.drop_last()[b.len() - 1] == a[b.len() - 1]);
    }
}

/// Distinct lists of records have distinct batches of lines.
pub proof fn lemma_batch_lines_injective(vs1: Seq<AnnouncementView>, vs2: Seq<AnnouncementView>)
    requires
        forall|i: int| 0 <= i < vs1.len() ==> #[trigger] vs1[i].wf(),
        forall|i: int| 0 <= i < vs2.len() ==> #[trigger] vs2[i].wf(),
        batch_lines(vs1) == batch_lines(vs2),
    ensures
        vs1 == vs2,
    decreases vs1.len(),
{
    assert(vs1.skip(0) =~= vs1);
    assert(vs2.skip(0) =~= vs2);
    if vs1.len() > 0 && vs2.len() > 0 {
        lemma_batch_lines_step(vs1, 0);
        lemma_batch_lines_step(vs2, 0);
        lemma_record_line(vs1[0]);
        lemma_record_line(vs2[0]);
        lemma_lines_same_length(
            record_text(vs1[0]),
            batch_lines(vs1.skip(1)),
            record_text(vs2[0]),
            batch_lines(vs2.skip(1)),
        );
        lemma_split(
            record_text(vs1[0]),
            batch_lines(vs1.skip(1)),
            record_text(vs2[0]),
            batch_lines(vs2.skip(1)),
        );
        lemma_record_text_injective(vs1[0], vs2[0]);
        assert forall|i: int| 0 <= i < vs1.skip(1).len() implies #[trigger] vs1.skip(1)[i].wf() by {
            assert(vs1.skip(1)[i] == vs1[i + 1]);
        }
        assert forall|i: int| 0 <= i < vs2.skip(1).len() implies #[trigger] vs2.skip(1)[i].wf() by {
            assert(vs2.skip(1)[i] == vs2[i + 1]);
        }
        lemma_batch_lines_injective(vs1.skip(1), vs2.skip(1));
        assert(vs1 =~= seq![vs1[0]] + vs1.skip(1));
        assert(vs2 =~= seq![vs2[0]] + vs2.skip(1));
    } else if vs1.len() > 0 {
        lemma_batch_lines_step(vs1, 0);
        lemma_record_line(vs1[0]);
        assert(batch_lines(vs2) =~= Seq::<u8>::empty());
    } else if vs2.len() > 0 {
        lemma_batch_lines_step(vs2, 0);
        lemma_record_line(vs2[0]);
        assert(batch_lines(vs1) =~= Seq::<u8>::empty());
    } else {
        assert(vs1 =~= vs2);
    }
}

} // verus!
