//! The append-only collection of stored route events.

use vstd::prelude::*;
use crate::event::Announcement;
use crate::canonical::{
    batch_lines,
    lemma_batch_lines_injective,
    one_line,
    lemma_batch_lines_join,
    lemma_batch_lines_step,
    lemma_record_line,
};
use crate::codec::record_text;
use crate::event::{AnnouncementView, PathSegment, path_view};
use crate::parse::parse_record;
use crate::text::lemma_advance;
use crate::net::IpAddress;

verus! {

/// Announcements and withdrawals in the order they were loaded. Records are
/// only ever added; nothing already stored is changed or removed.
pub struct EventStore {
    events: Vec<Announcement>,
}

impl View for EventStore {
    type V = Seq<Announcement>;

    closed spec fn view(&self) -> Seq<Announcement> {
        self.events@
    }
}

impl EventStore {
    pub fn new() -> (r: EventStore)
        ensures
            r@ == Seq::<Announcement>::empty(),
    {
        EventStore { events: Vec::new() }
    }

    pub fn len(&self) -> (r: usize)
        ensures
            r == self@.len(),
    {
        self.events.len()
    }

    /// The record at position `i`.
    pub fn get(&self, i: usize) -> (r: &Announcement)
        requires
            i < self@.len(),
        ensures
            *r == self@[i as int],
    {
        &self.events[i]
    }

    /// Adds one record at the end.
    pub fn append(&mut self, a: Announcement)
        ensures
            final(self)@ == old(self)@.push(a),
    {
        self.events.push(a);
    }

    /// Adds the records of a loaded batch at the end, in order.
    pub fn append_all(&mut self, batch: Vec<Announcement>)
        ensures
            final(self)@ == old(self)@ + batch@,
    {
        let mut batch = batch;
        self.events.append(&mut batch);
    }
}

/// The stored announcements (not withdrawals) whose prefix holds `ip`, a
/// single-address prefix equal to `ip` included, in store order.
pub open spec fn covering(events: Seq<Announcement>, ip: IpAddress) -> Seq<Announcement>
    decreases events.len(),
{
    if events.len() == 0 {
        seq![]
    } else {
        let prev = covering(events.drop_last(), ip);
        let a = events.last();
        if !a.withdrawal && a.prefix.covers(ip) {
            prev.push(a)
        } else {
            prev
        }
    }
}

/// A copy of an AS path.
fn copy_path(path: &Vec<PathSegment>) -> (r: Vec<PathSegment>)
    ensures
        path_view(r@) == path_view(path@),
{
    let mut out: Vec<PathSegment> = Vec::new();
    let mut k: usize = 0;
    while k < path.len()
        invariant
            k <= path@.len(),
            out@.len() == k,
            forall|j: int| 0 <= j < k ==> #[trigger] out@[j]@ == path@[j]@,
        decreases path@.len() - k,
    {
        let g = &path[k];
        let mut asns: Vec<u32> = Vec::new();
        let mut i: usize = 0;
        while i < g.asns.len()
            invariant
                i <= g.asns@.len(),
                asns@ == g.asns@.take(i as int),
            decreases g.asns@.len() - i,
        {
            asns.push(g.asns[i]);
            i = i + 1;
            assert(asns@ =~= g.asns@.take(i as int));
        }
        assert(g.asns@.take(i as int) =~= g.asns@);
        out.push(PathSegment { sequence: g.sequence, confederated: g.confederated, asns });
        k = k + 1;
    }
    assert(path_view(out@) =~= path_view(path@));
    out
}

/// A copy of a record.
pub fn copy_announcement(a: &Announcement) -> (r: Announcement)
    ensures
        r@ == a@,
{
    Announcement {
        id: a.id,
        origin: a.origin,
        withdrawal: a.withdrawal,
        timestamp: a.timestamp,
        prefix: a.prefix,
        as_path: copy_path(&a.as_path),
    }
}

/// The views of a list of records.
pub open spec fn views(s: Seq<Announcement>) -> Seq<AnnouncementView> {
    s.map_values(|a: Announcement| a@)
}

impl EventStore {
    /// Copies of the stored announcements whose prefix contains `ip`, a
    /// single-address prefix equal to `ip` included, in store order;
    /// withdrawals are left out.
    pub fn ip_search(&self, ip: IpAddress) -> (r: Vec<Announcement>)
        ensures
            views(r@) == views(covering(self@, ip)),
    {
        let n = self.events.len();
        let mut found: Vec<Announcement> = Vec::new();
        let mut i: usize = 0;
        while i < n
            invariant
                n == self@.len(),
                i <= n,
                views(found@) == views(covering(self@.take(i as int), ip)),
            decreases n - i,
        {
            let a = &self.events[i];
            proof {
                assert(self@.take(i as int + 1).drop_last() =~= self@.take(i as int));
            }
            if !a.withdrawal && a.prefix.contains(ip) {
                let ghost before = found@;
                found.push(copy_announcement(a));
                assert(views(found@) =~= views(before).push(a@));
            }
            i = i + 1;
        }
        assert(self@.take(n as int) =~= self@);
        found
    }
}

/// Every record is well formed.
pub open spec fn all_wf(vs: Seq<AnnouncementView>) -> bool {
    forall|i: int| 0 <= i < vs.len() ==> #[trigger] vs[i].wf()
}

/// The position of the first newline at or after `pos`, if any.
fn next_newline(bytes: &[u8], pos: usize) -> (r: Option<usize>)
    requires
        pos <= bytes@.len(),
    ensures
        r matches Some(e) ==> pos <= e < bytes@.len() && bytes@[e as int] == 10u8 && forall|j: int|
            pos <= j < e ==> bytes@[j] != 10u8,
        r is None ==> forall|j: int| pos <= j < bytes@.len() ==> bytes@[j] != 10u8,
{
    let n = bytes.len();
    let mut e: usize = pos;
    while e < n
        invariant
            n == bytes@.len(),
            pos <= e <= n,
            forall|j: int| pos <= j < e ==> bytes@[j] != 10u8,
        decreases n - e,
    {
        if bytes[e] == 10 {
            return Some(e);
        }
        e = e + 1;
    }
    None
}

/// Where a line stands in the bytes, its newline is the first one from `pos` on.
proof fn lemma_line_at(bytes: Seq<u8>, pos: int, line: Seq<u8>, rest: Seq<u8>)
    requires
        0 <= pos <= bytes.len(),
        bytes.subrange(pos, bytes.len() as int) == line + rest,
        one_line(line),
    ensures
        pos + line.len() <= bytes.len(),
        bytes[pos + line.len() - 1] == 10u8,
        forall|j: int| pos <= j < pos + line.len() - 1 ==> bytes[j] != 10u8,
        bytes.subrange(pos, pos + line.len()) == line,
        bytes.subrange(pos + line.len(), bytes.len() as int) == rest,
{
    lemma_advance(bytes, pos, line, rest);
    let tail = bytes.subrange(pos, bytes.len() as int);
    assert forall|j: int| 0 <= j < line.len() implies bytes[pos + j] == line[j] by {
        assert(tail[j] == bytes[pos + j]);
        assert((line + rest)[j] == line[j]);
    }
    assert forall|j: int| pos <= j < pos + line.len() - 1 implies bytes[j] != 10u8 by {
        assert(bytes[pos + (j - pos)] == line[j - pos]);
        assert(line.drop_last()[j - pos] == line[j - pos]);
    }
    assert(bytes[pos + (line.len() - 1)] == line[line.len() - 1]);
    assert(bytes.subrange(pos, pos + line.len()) =~= line);
}

/// The records of a batch from the `k`-th on stand in the bytes from `pos` on.
proof fn lemma_batch_rest(
    bytes: Seq<u8>,
    pos: int,
    vs: Seq<AnnouncementView>,
    k: int,
)
    requires
        0 <= k <= vs.len(),
        0 <= pos <= bytes.len(),
        batch_lines(vs) == bytes,
        batch_lines(vs.take(k)) == bytes.subrange(0, pos),
    ensures
        bytes.subrange(pos, bytes.len() as int) == batch_lines(vs.skip(k)),
        k == vs.len() ==> pos == bytes.len(),
{
    lemma_batch_lines_join(vs.take(k), vs.skip(k));
    assert(vs.take(k) + vs.skip(k) =~= vs);
    assert(bytes.subrange(0, bytes.len() as int) =~= bytes);
    lemma_advance(bytes, 0, batch_lines(vs.take(k)), batch_lines(vs.skip(k)));
    if k == vs.len() {
        assert(vs.skip(k) =~= Seq::<AnnouncementView>::empty());
    }
}

/// Reading one more line extends what has been read.
proof fn lemma_batch_grow(
    bytes: Seq<u8>,
    pos: int,
    e: int,
    before: Seq<AnnouncementView>,
    a: AnnouncementView,
)
    requires
        0 <= pos <= e < bytes.len(),
        batch_lines(before) == bytes.subrange(0, pos),
        record_text(a) == bytes.subrange(pos, e + 1),
        all_wf(before),
        a.wf(),
    ensures
        batch_lines(before.push(a)) == bytes.subrange(0, e + 1),
        all_wf(before.push(a)),
{
    assert(before.push(a).drop_last() =~= before);
    assert(bytes.subrange(0, e + 1) =~= bytes.subrange(0, pos) + bytes.subrange(pos, e + 1));
    assert forall|i: int| 0 <= i < before.push(a).len() implies #[trigger] before.push(a)[i].wf() by {
        if i < before.len() {
            assert(before.push(a)[i] == before[i]);
        }
    }
}

impl EventStore {
    /// Loads a batch of record lines. When the bytes are the lines of a list
    /// of well-formed records, those records are appended in order; otherwise
    /// nothing is appended and the result is `false`.
    pub fn load_batch(&mut self, bytes: &[u8]) -> (r: bool)
        ensures
            r ==> exists|vs: Seq<AnnouncementView>|
                all_wf(vs) && batch_lines(vs) == bytes@ && views(final(self)@) == views(old(self)@)
                    + vs,
            !r ==> final(self)@ == old(self)@,
            forall|vs: Seq<AnnouncementView>|
                all_wf(vs) && #[trigger] batch_lines(vs) == bytes@ ==> r && views(final(self)@)
                    == views(old(self)@) + vs,
    {
        let ghost chosen = choose|vs: Seq<AnnouncementView>|
            all_wf(vs) && batch_lines(vs) == bytes@;
        let ghost expected = all_wf(chosen) && batch_lines(chosen) == bytes@;
        let n = bytes.len();
        let mut parsed: Vec<Announcement> = Vec::new();
        let mut pos: usize = 0;
        proof {
            assert(views(parsed@) =~= Seq::<AnnouncementView>::empty());
            assert(bytes@.subrange(0, 0) =~= Seq::<u8>::empty());
            if expected {
                assert(chosen.take(0) =~= Seq::<AnnouncementView>::empty());
            }
        }
        while pos < n
            invariant
                n == bytes@.len(),
                pos <= n,
                batch_lines(views(parsed@)) == bytes@.subrange(0, pos as int),
                all_wf(views(parsed@)),
                expected == (all_wf(chosen) && batch_lines(chosen) == bytes@),
                (exists|vs: Seq<AnnouncementView>| all_wf(vs) && batch_lines(vs) == bytes@)
                    ==> expected,
                expected ==> parsed@.len() <= chosen.len() && views(parsed@) == chosen.take(
                    parsed@.len() as int,
                ),
            decreases n - pos,
        {
            let ghost k = parsed@.len() as int;
            proof {
                if expected {
                    lemma_batch_rest(bytes@, pos as int, chosen, k);
                    lemma_batch_lines_step(chosen, k);
                    lemma_record_line(chosen[k]);
                    lemma_line_at(
                        bytes@,
                        pos as int,
                        record_text(chosen[k]),
                        batch_lines(chosen.skip(k + 1)),
                    );
                    assert(chosen[k].wf());
                }
            }
            let e = match next_newline(bytes, pos) {
                Some(e) => e,
                None => {
                    return false;
                },
            };
            let line = vstd::slice::slice_subrange(bytes, pos, e + 1);
            proof {
                if expected {
                    let len = record_text(chosen[k]).len();
                    if e < pos + len - 1 {
                        assert(bytes@[e as int] != 10u8);
                    }
                    if e > pos + len - 1 {
                        assert(bytes@[pos + len - 1] != 10u8);
                    }
                    assert(line@ == record_text(chosen[k]));
                }
            }
            let a = match parse_record(line) {
                Some(a) => a,
                None => {
                    return false;
                },
            };
            proof {
                lemma_batch_grow(bytes@, pos as int, e as int, views(parsed@), a@);
            }
            let ghost before = views(parsed@);
            parsed.push(a);
            proof {
                assert(views(parsed@) =~= before.push(a@));
                if expected {
                    assert(chosen.take(k + 1) =~= chosen.take(k).push(chosen[k]));
                }
            }
            pos = e + 1;
        }
        proof {
            assert(bytes@.subrange(0, n as int) =~= bytes@);
        }
        let ghost added = views(parsed@);
        let ghost start = views(self@);
        self.append_all(parsed);
        proof {
            assert(views(self@) =~= start + added);
            assert forall|vs: Seq<AnnouncementView>|
                all_wf(vs) && #[trigger] batch_lines(vs) == bytes@ implies vs == added by {
                lemma_batch_lines_injective(vs, added);
            }
        }
        true
    }
}

} // verus!
