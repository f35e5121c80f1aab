//! The text form of a stored record, one line per record, as the store's bulk
//! loader reads it: comma-separated fields in the order identifier, origin,
//! direction (`0` announce, `1` withdraw), timestamp, prefix and AS path.
//!
//! The AS path is one quoted field holding an array of composite segments.
//! Inside it commas separate the array's elements and each segment's fields,
//! so every nesting level is quoted: the field's own quotes are doubled, and
//! within a segment the quotes around its list of network numbers are
//! escaped with a backslash. A segment with flags `t`/`f` and numbers 1, 2
//! reads `""(t,f,\""{1,2}\"")""`, and a path of two segments
//! `"{<segment>,<segment>}"`.

use vstd::prelude::*;
use crate::event::{
    Announcement,
    AnnouncementView,
    Direction,
    PathSegment,
    PathSegmentView,
    RecordId,
    RouteEvent,
    path_view,
    fresh_record_id,
};
use crate::net::{IpAddress, Prefix};
use crate::text::{digits_of, digit_char, list_text, widen, push_digits, char_of};

verus! {

/// Two lowercase hexadecimal digits of a byte.
pub open spec fn hex_pair(b: u8) -> Seq<u8> {
    seq![digit_char((b / 16) as nat), digit_char((b % 16) as nat)]
}

/// The text of an identifier from its `k`-th byte on: two hex digits per
/// byte, with a hyphen before bytes 4, 6, 8 and 10.
pub open spec fn id_text_from(id: Seq<u8>, k: nat) -> Seq<u8>
    decreases 16 - k,
{
    if k >= 16 {
        seq![]
    } else {
        (if k == 4 || k == 6 || k == 8 || k == 10 {
            seq![45u8]
        } else {
            seq![]
        }) + hex_pair(id[k as int]) + id_text_from(id, k + 1)
    }
}

/// The text of an identifier: 8-4-4-4-12 hexadecimal digits.
pub open spec fn id_text(id: Seq<u8>) -> Seq<u8> {
    id_text_from(id, 0)
}

/// The last six decimal digits of `m`, with leading zeros.
pub open spec fn six_digits(m: nat) -> Seq<u8> {
    let q1 = m / 10;
    let q2 = q1 / 10;
    let q3 = q2 / 10;
    let q4 = q3 / 10;
    let q5 = q4 / 10;
    seq![
        digit_char(q5 % 10),
        digit_char(q4 % 10),
        digit_char(q3 % 10),
        digit_char(q2 % 10),
        digit_char(q1 % 10),
        digit_char(m % 10),
    ]
}

/// A time in microseconds as seconds with six decimals.
pub open spec fn timestamp_text(t: u64) -> Seq<u8> {
    digits_of((t / 1_000_000) as nat, false) + seq![46u8] + six_digits((t % 1_000_000) as nat)
}

/// The four bytes of an IPv4 address, most significant first.
pub open spec fn octets(a: u32) -> Seq<nat> {
    let a = a as nat;
    let q1 = a / 256;
    let q2 = q1 / 256;
    let q3 = q2 / 256;
    seq![q3, q2 % 256, q1 % 256, a % 256]
}

/// The eight 16-bit groups of an IPv6 address, most significant first.
pub open spec fn groups(a: u128) -> Seq<nat> {
    let a = a as nat;
    let q1 = a / 65536;
    let q2 = q1 / 65536;
    let q3 = q2 / 65536;
    let q4 = q3 / 65536;
    let q5 = q4 / 65536;
    let q6 = q5 / 65536;
    let q7 = q6 / 65536;
    seq![
        q7,
        q6 % 65536,
        q5 % 65536,
        q4 % 65536,
        q3 % 65536,
        q2 % 65536,
        q1 % 65536,
        a % 65536,
    ]
}

/// An address in dotted decimal (IPv4) or as eight colon-separated groups of
/// hexadecimal digits (IPv6).
pub open spec fn address_text(a: IpAddress) -> Seq<u8> {
    match a {
        IpAddress::V4(x) => list_text(octets(x), false, 46, 0),
        IpAddress::V6(x) => list_text(groups(x), true, 58, 0),
    }
}

/// `address/length`.
pub open spec fn prefix_text(p: Prefix) -> Seq<u8> {
    address_text(p.addr) + seq![47u8] + digits_of(p.len as nat, false)
}

/// `t` or `f`.
pub open spec fn flag_char(b: bool) -> u8 {
    if b {
        116
    } else {
        102
    }
}

/// Network numbers as naturals.
pub open spec fn asn_values(asns: Seq<u32>) -> Seq<nat> {
    asns.map_values(|x: u32| x as nat)
}

/// The opening of a segment, up to its first flag.
pub open spec fn segment_open() -> Seq<u8> {
    seq![34u8, 34, 40]
}

/// What stands between a segment's second flag and its network numbers.
pub open spec fn segment_list_open() -> Seq<u8> {
    seq![44u8, 92, 34, 34, 123]
}

/// The closing of a segment after its network numbers.
pub open spec fn segment_close() -> Seq<u8> {
    seq![125u8, 92, 34, 34, 41, 34, 34]
}

/// One segment: `""(<seq>,<confed>,\""{<asn>,...}\"")""`.
pub open spec fn segment_text(g: PathSegmentView) -> Seq<u8> {
    segment_open() + seq![flag_char(g.sequence), 44u8, flag_char(g.confederated)]
        + segment_list_open() + list_text(asn_values(g.asns), false, 44, 0) + segment_close()
}

/// The segments from the `j`-th on, separated by commas.
pub open spec fn segments_text(segs: Seq<PathSegmentView>, j: nat) -> Seq<u8>
    decreases segs.len() - j,
{
    if j >= segs.len() {
        seq![]
    } else {
        (if j > 0 {
            seq![44u8]
        } else {
            seq![]
        }) + segment_text(segs[j as int]) + segments_text(segs, j + 1)
    }
}

/// A whole path: `"{<segment>,...}"`.
pub open spec fn path_text(segs: Seq<PathSegmentView>) -> Seq<u8> {
    seq![34u8, 123] + segments_text(segs, 0) + seq![125u8, 34]
}

/// `0` for an announcement, `1` for a withdrawal.
pub open spec fn direction_char(withdrawal: bool) -> u8 {
    if withdrawal {
        49
    } else {
        48
    }
}

/// The line of a record after its prefix.
pub open spec fn after_prefix(v: AnnouncementView) -> Seq<u8> {
    seq![44u8] + path_text(v.as_path) + seq![10u8]
}

/// The line of a record after its timestamp.
pub open spec fn after_timestamp(v: AnnouncementView) -> Seq<u8> {
    seq![44u8] + prefix_text(v.prefix) + after_prefix(v)
}

/// The line of a record after its origin.
pub open spec fn after_origin(v: AnnouncementView) -> Seq<u8> {
    seq![44u8, direction_char(v.withdrawal), 44u8] + timestamp_text(v.timestamp) + after_timestamp(
        v,
    )
}

/// The line of a record after its identifier.
pub open spec fn after_id(v: AnnouncementView) -> Seq<u8> {
    seq![44u8] + digits_of(v.origin as nat, false) + after_origin(v)
}

/// The line of a record, ending in a newline.
pub open spec fn record_text(v: AnnouncementView) -> Seq<u8> {
    id_text(v.id) + after_id(v)
}

/// The record that stores an event under the identifier `id`; an event
/// without an AS path is stored with an empty one.
pub open spec fn persisted(id: Seq<u8>, ev: RouteEvent) -> AnnouncementView {
    AnnouncementView {
        id,
        origin: ev.origin,
        withdrawal: ev.direction == Direction::Withdraw,
        timestamp: ev.timestamp,
        prefix: ev.prefix,
        as_path: match ev.as_path {
            Some(p) => path_view(p@),
            None => seq![],
        },
    }
}

/// Why an event cannot be stored.
#[derive(Clone, Copy, Debug, PartialEq, Eq, Structural, Hash)]
pub enum EncodeError {
    /// An announcement came without an AS path.
    MissingAsPath,
    /// The mask length is longer than the address.
    InvalidPrefix,
}

/// Appends the bytes of `tok`.
fn push_token(out: &mut Vec<u8>, tok: &[u8])
    ensures
        final(out)@ == old(out)@ + tok@,
{
    out.extend_from_slice(tok);
    assert(out@ =~= old(out)@ + tok@);
}

/// Appends two hex digits of a byte.
fn push_hex_pair(out: &mut Vec<u8>, b: u8)
    ensures
        final(out)@ == old(out)@ + hex_pair(b),
{
    let ghost start = out@;
    out.push(char_of(b / 16));
    out.push(char_of(b % 16));
    assert(out@ =~= start + hex_pair(b));
}

/// Appends the text of an identifier.
fn push_id(out: &mut Vec<u8>, id: &RecordId)
    ensures
        final(out)@ == old(out)@ + id_text(id@),
{
    let ghost target = old(out)@ + id_text(id@);
    let mut k: usize = 0;
    while k < 16
        invariant
            k <= 16,
            out@ + id_text_from(id@, k as nat) == target,
        decreases 16 - k,
    {
        let ghost before = out@;
        if k == 4 || k == 6 || k == 8 || k == 10 {
            out.push(45);
        }
        push_hex_pair(out, id[k]);
        assert(out@ + id_text_from(id@, (k + 1) as nat) =~= before + id_text_from(id@, k as nat));
        k = k + 1;
    }
    assert(id_text_from(id@, 16) =~= seq![]);
    assert(out@ =~= out@ + id_text_from(id@, 16));
}

/// Appends a time in microseconds as seconds with six decimals.
fn push_timestamp(out: &mut Vec<u8>, t: u64)
    ensures
        final(out)@ == old(out)@ + timestamp_text(t),
{
    let ghost start = out@;
    push_digits(out, t / 1_000_000, false);
    out.push(46);
    let m = t % 1_000_000;
    let q1 = m / 10;
    let q2 = q1 / 10;
    let q3 = q2 / 10;
    let q4 = q3 / 10;
    let q5 = q4 / 10;
    out.push(char_of((q5 % 10) as u8));
    out.push(char_of((q4 % 10) as u8));
    out.push(char_of((q3 % 10) as u8));
    out.push(char_of((q2 % 10) as u8));
    out.push(char_of((q1 % 10) as u8));
    out.push(char_of((m % 10) as u8));
    assert(out@ =~= start + timestamp_text(t));
}

/// Appends numbers in digits of the base, separated by `sep`.
fn push_list(out: &mut Vec<u8>, ls: &Vec<u64>, hex: bool, sep: u8)
    ensures
        final(out)@ == old(out)@ + list_text(widen(ls@), hex, sep, 0),
{
    let ghost target = old(out)@ + list_text(widen(ls@), hex, sep, 0);
    let mut k: usize = 0;
    while k < ls.len()
        invariant
            k <= ls@.len(),
            out@ + list_text(widen(ls@), hex, sep, k as nat) == target,
        decreases ls@.len() - k,
    {
        let ghost before = out@;
        if k > 0 {
            out.push(sep);
        }
        push_digits(out, ls[k], hex);
        assert(out@ + list_text(widen(ls@), hex, sep, (k + 1) as nat) =~= before + list_text(
            widen(ls@),
            hex,
            sep,
            k as nat,
        ));
        k = k + 1;
    }
    assert(list_text(widen(ls@), hex, sep, k as nat) =~= seq![]);
    assert(out@ =~= out@ + list_text(widen(ls@), hex, sep, k as nat));
}

/// The limbs of an address: its octets or its groups.
fn address_limbs(a: IpAddress) -> (r: Vec<u64>)
    ensures
        widen(r@) == match a {
            IpAddress::V4(x) => octets(x),
            IpAddress::V6(x) => groups(x),
        },
{
    match a {
        IpAddress::V4(x) => {
            let q1 = x / 256;
            let q2 = q1 / 256;
            let q3 = q2 / 256;
            let r: Vec<u64> = vec![q3 as u64, (q2 % 256) as u64, (q1 % 256) as u64, (x % 256) as u64];
            assert(widen(r@) =~= octets(x));
            r
        },
        IpAddress::V6(x) => {
            let q1 = x / 65536;
            let q2 = q1 / 65536;
            let q3 = q2 / 65536;
            let q4 = q3 / 65536;
            let q5 = q4 / 65536;
            let q6 = q5 / 65536;
            let q7 = q6 / 65536;
            assert(q7 < 65536) by {
                assert(x < 0x1_0000_0000_0000_0000_0000_0000_0000_0000);
            }
            let r: Vec<u64> = vec![
                q7 as u64,
                (q6 % 65536) as u64,
                (q5 % 65536) as u64,
                (q4 % 65536) as u64,
                (q3 % 65536) as u64,
                (q2 % 65536) as u64,
                (q1 % 65536) as u64,
                (x % 65536) as u64,
            ];
            assert(widen(r@) =~= groups(x));
            r
        },
    }
}

/// Appends `address/length`.
fn push_prefix(out: &mut Vec<u8>, p: Prefix)
    ensures
        final(out)@ == old(out)@ + prefix_text(p),
{
    let ghost start = out@;
    let limbs = address_limbs(p.addr);
    match p.addr {
        IpAddress::V4(_) => push_list(out, &limbs, false, 46),
        IpAddress::V6(_) => push_list(out, &limbs, true, 58),
    }
    out.push(47);
    push_digits(out, p.len as u64, false);
    assert(out@ =~= start + prefix_text(p));
}

/// The network numbers of a segment, widened.
fn widen_asns(asns: &Vec<u32>) -> (r: Vec<u64>)
    ensures
        widen(r@) == asn_values(asns@),
{
    let mut r: Vec<u64> = Vec::new();
    let mut k: usize = 0;
    while k < asns.len()
        invariant
            k <= asns@.len(),
            r@.len() == k,
            forall|j: int| 0 <= j < k ==> r@[j] == asns@[j] as u64,
        decreases asns@.len() - k,
    {
        r.push(asns[k] as u64);
        k = k + 1;
    }
    assert(widen(r@) =~= asn_values(asns@));
    r
}

/// Appends the text of one segment.
fn push_segment(out: &mut Vec<u8>, g: &PathSegment)
    ensures
        final(out)@ == old(out)@ + segment_text(g@),
{
    let ghost start = out@;
    push_token(out, &[34u8, 34, 40]);
    out.push(if g.sequence {
        116u8
    } else {
        102u8
    });
    out.push(44);
    out.push(if g.confederated {
        116u8
    } else {
        102u8
    });
    push_token(out, &[44u8, 92, 34, 34, 123]);
    let asns = widen_asns(&g.asns);
    push_list(out, &asns, false, 44);
    push_token(out, &[125u8, 92, 34, 34, 41, 34, 34]);
    assert(out@ =~= start + segment_text(g@));
}

/// Appends the text of a whole path.
fn push_path(out: &mut Vec<u8>, segs: &Vec<PathSegment>)
    ensures
        final(out)@ == old(out)@ + path_text(path_view(segs@)),
{
    let ghost view = path_view(segs@);
    let ghost target = old(out)@ + path_text(view);
    push_token(out, &[34u8, 123]);
    let mut k: usize = 0;
    while k < segs.len()
        invariant
            k <= segs@.len(),
            view == path_view(segs@),
            out@ + segments_text(view, k as nat) + seq![125u8, 34] == target,
        decreases segs@.len() - k,
    {
        let ghost before = out@;
        if k > 0 {
            out.push(44);
        }
        push_segment(out, &segs[k]);
        assert(view[k as int] == segs@[k as int]@);
        assert(out@ + segments_text(view, (k + 1) as nat) =~= before + segments_text(view, k as nat));
        k = k + 1;
    }
    assert(segments_text(view, k as nat) =~= seq![]);
    push_token(out, &[125u8, 34]);
    assert(out@ =~= target);
}

/// The line of a record.
pub fn encode_record(a: &Announcement) -> (r: Vec<u8>)
    ensures
        r@ == record_text(a@),
{
    let mut out: Vec<u8> = Vec::new();
    push_id(&mut out, &a.id);
    out.push(44);
    push_digits(&mut out, a.origin as u64, false);
    out.push(44);
    out.push(if a.withdrawal {
        49u8
    } else {
        48u8
    });
    out.push(44);
    push_timestamp(&mut out, a.timestamp);
    out.push(44);
    push_prefix(&mut out, a.prefix);
    out.push(44);
    push_path(&mut out, &a.as_path);
    out.push(10);
    assert(out@ =~= record_text(a@));
    out
}

/// The line that stores `ev` under the identifier `id`. An announcement
/// without an AS path is refused; a withdrawal without one is stored with an
/// empty path. A mask longer than the address is refused.
pub fn encode_event(id: RecordId, ev: &RouteEvent) -> (r: Result<Vec<u8>, EncodeError>)
    ensures
        ev.direction == Direction::Announce && ev.as_path is None ==> r == Err::<Vec<u8>, EncodeError>(
            EncodeError::MissingAsPath,
        ),
        !(ev.direction == Direction::Announce && ev.as_path is None) && !ev.prefix.wf() ==> r
            == Err::<Vec<u8>, EncodeError>(EncodeError::InvalidPrefix),
        !(ev.direction == Direction::Announce && ev.as_path is None) && ev.prefix.wf() ==> (r matches Ok(
            b,
        ) && b@ == record_text(persisted(id@, *ev))),
{
    if ev.direction == Direction::Announce && ev.as_path.is_none() {
        return Err(EncodeError::MissingAsPath);
    }
    if ev.prefix.len > ev.prefix.addr.bit_width() {
        return Err(EncodeError::InvalidPrefix);
    }
    let mut out: Vec<u8> = Vec::new();
    push_id(&mut out, &id);
    out.push(44);
    push_digits(&mut out, ev.origin as u64, false);
    out.push(44);
    out.push(if ev.direction == Direction::Withdraw {
        49u8
    } else {
        48u8
    });
    out.push(44);
    push_timestamp(&mut out, ev.timestamp);
    out.push(44);
    push_prefix(&mut out, ev.prefix);
    out.push(44);
    match &ev.as_path {
        Some(p) => push_path(&mut out, p),
        None => {
            let none: Vec<PathSegment> = Vec::new();
            push_path(&mut out, &none);
            assert(path_view(none@) =~= seq![]);
        },
    }
    out.push(10);
    assert(out@ =~= record_text(persisted(id@, *ev)));
    Ok(out)
}

/// The line that stores `ev` under a fresh random identifier, or why it
/// cannot be stored.
pub fn encode_new_event(ev: &RouteEvent) -> (r: Result<Vec<u8>, EncodeError>)
    ensures
        ev.direction == Direction::Announce && ev.as_path is None ==> r == Err::<Vec<u8>, EncodeError>(
            EncodeError::MissingAsPath,
        ),
        !(ev.direction == Direction::Announce && ev.as_path is None) && !ev.prefix.wf() ==> r
            == Err::<Vec<u8>, EncodeError>(EncodeError::InvalidPrefix),
        !(ev.direction == Direction::Announce && ev.as_path is None) && ev.prefix.wf() ==> (r matches Ok(
            b,
        ) && exists|id: Seq<u8>| id.len() == 16 && b@ == record_text(persisted(id, *ev))),
{
    let id = fresh_record_id();
    let r = encode_event(id, ev);
    proof {
        if r is Ok {
            assert(id@.len() == 16);
        }
    }
    r
}

} // verus!
