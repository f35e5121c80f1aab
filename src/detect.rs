//! Detection of short-lived announcements: an announcement of a prefix that
//! its origin withdraws again within a window of time.
//!
//! A scan over `[start, stop)` runs as a sequence of bounded sub-queries over
//! consecutive sub-ranges. Each sub-query pairs the announcements whose
//! timestamps lie in its sub-range with the earliest withdrawal of the same
//! origin and prefix that follows within the window, looking past the end of
//! the sub-range by the window so that a pair straddling a boundary is found
//! by the sub-range that holds its announcement, and by no other.

use vstd::prelude::*;
use crate::event::Announcement;
use crate::net::Prefix;
use crate::store::EventStore;

verus! {

broadcast use vstd::seq_lib::group_to_multiset_ensures, vstd::multiset::group_multiset_axioms;

pub const MICROS_PER_SECOND: u64 = 1_000_000;

/// A time in whole seconds, as microseconds.
pub open spec fn micros(seconds: int) -> int {
    seconds * 1_000_000
}

/// An announcement that its origin withdrew again within the window: the
/// announcement's time and the earliest matching withdrawal's time, both in
/// microseconds since the Unix epoch.
#[derive(Clone, Copy, Debug, PartialEq, Eq, Structural, Hash)]
pub struct PotentialHijack {
    pub origin: u32,
    pub prefix: Prefix,
    pub ann_time: u64,
    pub wd_time: u64,
}

/// `w` withdraws what the announcement `a` announced, strictly after it and
/// at most `window_us` microseconds later.
pub open spec fn withdraws_within(a: Announcement, w: Announcement, window_us: int) -> bool {
    &&& w.withdrawal
    &&& w.origin == a.origin
    &&& w.prefix == a.prefix
    &&& a.timestamp < w.timestamp
    &&& w.timestamp - a.timestamp <= window_us
}

/// The earliest time among the records of `events` that withdraw `a` within
/// the window and lie before `bound_us`.
pub open spec fn earliest_withdraw(
    events: Seq<Announcement>,
    a: Announcement,
    window_us: int,
    bound_us: int,
) -> Option<u64>
    decreases events.len(),
{
    if events.len() == 0 {
        None
    } else {
        let rest = earliest_withdraw(events.drop_last(), a, window_us, bound_us);
        let w = events.last();
        if withdraws_within(a, w, window_us) && w.timestamp < bound_us {
            match rest {
                Some(t) => if t <= w.timestamp {
                    Some(t)
                } else {
                    Some(w.timestamp)
                },
                None => Some(w.timestamp),
            }
        } else {
            rest
        }
    }
}

/// What a sub-query reports for the record at `i`: a finding when the record
/// is an announcement in `[lo_us, hi_us)` with a withdrawal to pair it with.
pub open spec fn finding_at(
    events: Seq<Announcement>,
    i: int,
    window_us: int,
    lo_us: int,
    hi_us: int,
    bound_us: int,
) -> Option<PotentialHijack> {
    let a = events[i];
    if !a.withdrawal && lo_us <= a.timestamp < hi_us {
        match earliest_withdraw(events, a, window_us, bound_us) {
            Some(t) => Some(
                PotentialHijack { origin: a.origin, prefix: a.prefix, ann_time: a.timestamp, wd_time: t },
            ),
            None => None,
        }
    } else {
        None
    }
}

/// The findings for the first `n` records, in store order.
pub open spec fn scan(
    events: Seq<Announcement>,
    n: nat,
    window_us: int,
    lo_us: int,
    hi_us: int,
    bound_us: int,
) -> Seq<PotentialHijack>
    decreases n,
{
    if n == 0 {
        seq![]
    } else {
        let prev = scan(events, (n - 1) as nat, window_us, lo_us, hi_us, bound_us);
        match finding_at(events, n - 1, window_us, lo_us, hi_us, bound_us) {
            Some(h) => prev.push(h),
            None => prev,
        }
    }
}

/// One sub-query: announcements in `[lo, hi)` seconds, paired with withdrawals
/// within `window` seconds that come before `hi + window`.
pub open spec fn window_query(events: Seq<Announcement>, window: int, lo: int, hi: int) -> Seq<
    PotentialHijack,
> {
    scan(events, events.len(), micros(window), micros(lo), micros(hi), micros(hi + window))
}

/// At most `limit` leading elements of `s`, or all of them without a limit.
pub open spec fn limited(s: Seq<PotentialHijack>, limit: Option<usize>) -> Seq<PotentialHijack> {
    match limit {
        Some(n) => if (n as int) < s.len() {
            s.take(n as int)
        } else {
            s
        },
        None => s,
    }
}

/// The end of the sub-range that starts at `cursor`.
pub open spec fn chunk_end(cursor: int, stop: int, chunk: int) -> int {
    if cursor + chunk < stop {
        cursor + chunk
    } else {
        stop
    }
}

/// The findings of a chunked scan over `[start, stop)`: the sub-queries over
/// consecutive sub-ranges of `chunk` seconds (the last one possibly shorter),
/// each capped by `limit` on its own, one after the other.
pub open spec fn chunked_scan(
    events: Seq<Announcement>,
    window: int,
    start: int,
    stop: int,
    chunk: int,
    limit: Option<usize>,
) -> Seq<PotentialHijack>
    decreases stop - start,
{
    if start >= stop || chunk < 1 {
        seq![]
    } else {
        let end = chunk_end(start, stop, chunk);
        limited(window_query(events, window, start, end), limit) + chunked_scan(
            events,
            window,
            end,
            stop,
            chunk,
            limit,
        )
    }
}

/// The earliest withdrawal in the store that pairs with `a` and lies before `bound_us`.
fn earliest_withdraw_in(store: &EventStore, a: &Announcement, window_us: u64, bound_us: u64) -> (r:
    Option<u64>)
    ensures
        r == earliest_withdraw(store@, *a, window_us as int, bound_us as int),
{
    let n = store.len();
    let mut best: Option<u64> = None;
    let mut j: usize = 0;
    while j < n
        invariant
            n == store@.len(),
            j <= n,
            best == earliest_withdraw(store@.take(j as int), *a, window_us as int, bound_us as int),
        decreases n - j,
    {
        let w = store.get(j);
        proof {
            assert(store@.take(j as int + 1).drop_last() =~= store@.take(j as int));
        }
        if w.withdrawal && w.origin == a.origin && w.prefix == a.prefix && a.timestamp < w.timestamp
            && w.timestamp - a.timestamp <= window_us && w.timestamp < bound_us {
            best =
            match best {
                Some(t) => if t <= w.timestamp {
                    Some(t)
                } else {
                    Some(w.timestamp)
                },
                None => Some(w.timestamp),
            };
        }
        j = j + 1;
    }
    proof {
        assert(store@.take(n as int) =~= store@);
    }
    best
}

/// The bounds of one sub-query, in microseconds: announcements are taken from
/// `[lo_us, hi_us)`, withdrawals at most `window_us` after them and before
/// `bound_us`.
#[derive(Clone, Copy, Debug, PartialEq, Eq, Structural, Hash)]
pub struct SubQuery {
    pub window_us: u64,
    pub lo_us: u64,
    pub hi_us: u64,
    pub bound_us: u64,
}

/// The bounds of the sub-query over `[lo, hi)` seconds with a window of
/// `window` seconds: the withdrawal bound lies one window past `hi`.
pub fn sub_query(window: u32, lo: u32, hi: u32) -> (r: SubQuery)
    ensures
        r.window_us == micros(window as int),
        r.lo_us == micros(lo as int),
        r.hi_us == micros(hi as int),
        r.bound_us == micros(hi + window),
{
    let window_us: u64 = window as u64 * MICROS_PER_SECOND;
    let hi_us: u64 = hi as u64 * MICROS_PER_SECOND;
    SubQuery { window_us, lo_us: lo as u64 * MICROS_PER_SECOND, hi_us, bound_us: hi_us + window_us }
}

/// One bounded sub-query: the announcements with `lo <= timestamp < hi`
/// (seconds), each paired with its earliest withdrawal of the same origin and
/// prefix that follows within `window` seconds and before `hi + window`, in
/// store order. With a limit, only that many leading findings are kept; the
/// limit caps this sub-query alone.
pub fn query_window(store: &EventStore, window: u32, lo: u32, hi: u32, limit: Option<usize>) -> (r:
    Vec<PotentialHijack>)
    ensures
        r@ == limited(window_query(store@, window as int, lo as int, hi as int), limit),
{
    let q = sub_query(window, lo, hi);
    let window_us = q.window_us;
    let lo_us = q.lo_us;
    let hi_us = q.hi_us;
    let bound_us = q.bound_us;
    let n = store.len();
    let mut found: Vec<PotentialHijack> = Vec::new();
    let mut i: usize = 0;
    while i < n
        invariant
            n == store@.len(),
            i <= n,
            window_us == micros(window as int),
            lo_us == micros(lo as int),
            hi_us == micros(hi as int),
            bound_us == micros(hi + window),
            found@ == scan(
                store@,
                i as nat,
                window_us as int,
                lo_us as int,
                hi_us as int,
                bound_us as int,
            ),
        decreases n - i,
    {
        let a = store.get(i);
        if !a.withdrawal && lo_us <= a.timestamp && a.timestamp < hi_us {
            match earliest_withdraw_in(store, a, window_us, bound_us) {
                Some(t) => {
                    found.push(
                        PotentialHijack {
                            origin: a.origin,
                            prefix: a.prefix,
                            ann_time: a.timestamp,
                            wd_time: t,
                        },
                    );
                },
                None => {},
            }
        }
        i = i + 1;
    }
    if let Some(cap) = limit {
        if cap < found.len() {
            found.truncate(cap);
        }
    }
    found
}

/// A chunked scan in progress: the sub-ranges from `cursor` up to `stop` are
/// still to be queried.
pub struct ShortLivedScan {
    pub window: u32,
    pub cursor: u32,
    pub stop: u32,
    pub chunk_size: u32,
    pub limit: Option<usize>,
}

impl ShortLivedScan {
    /// Sub-ranges are at least one second long.
    pub open spec fn wf(self) -> bool {
        self.chunk_size >= 1
    }

    /// What the scan still has to report over the records `events`.
    pub open spec fn remaining(self, events: Seq<Announcement>) -> Seq<PotentialHijack> {
        chunked_scan(
            events,
            self.window as int,
            self.cursor as int,
            self.stop as int,
            self.chunk_size as int,
            self.limit,
        )
    }

    /// A scan of `[start, stop)` in sub-ranges of `chunk_size` seconds.
    pub fn new(window: u32, start: u32, stop: u32, limit: Option<usize>, chunk_size: u32) -> (r:
        ShortLivedScan)
        requires
            chunk_size >= 1,
        ensures
            r.wf(),
            r == (ShortLivedScan { window, cursor: start, stop, chunk_size, limit }),
    {
        ShortLivedScan { window, cursor: start, stop, chunk_size, limit }
    }

    /// The bounds `[lo, hi)` of the next sub-range, moving the cursor past it;
    /// `None` once the whole range has been handed out.
    pub fn next_range(&mut self) -> (r: Option<(u32, u32)>)
        requires
            old(self).wf(),
        ensures
            old(self).cursor >= old(self).stop ==> r is None && *final(self) == *old(self),
            old(self).cursor < old(self).stop ==> {
                let end = chunk_end(
                    old(self).cursor as int,
                    old(self).stop as int,
                    old(self).chunk_size as int,
                );
                &&& r == Some((old(self).cursor, end as u32))
                &&& *final(self) == (ShortLivedScan { cursor: end as u32, ..*old(self) })
            },
    {
        if self.cursor >= self.stop {
            return None;
        }
        let lo = self.cursor;
        let hi: u32 = if (self.cursor as u64) + (self.chunk_size as u64) < self.stop as u64 {
            self.cursor + self.chunk_size
        } else {
            self.stop
        };
        self.cursor = hi;
        Some((lo, hi))
    }

    /// The findings of the next sub-range, moving the cursor past it; `None`
    /// once the whole range has been scanned.
    pub fn next_chunk(&mut self, store: &EventStore) -> (r: Option<Vec<PotentialHijack>>)
        requires
            old(self).wf(),
        ensures
            final(self).wf(),
            old(self).cursor >= old(self).stop ==> r is None && *final(self) == *old(self),
            old(self).cursor < old(self).stop ==> {
                let end = chunk_end(
                    old(self).cursor as int,
                    old(self).stop as int,
                    old(self).chunk_size as int,
                );
                &&& r is Some
                &&& r.unwrap()@ == limited(
                    window_query(store@, old(self).window as int, old(self).cursor as int, end),
                    old(self).limit,
                )
                &&& *final(self) == (ShortLivedScan { cursor: end as u32, ..*old(self) })
            },
            r is Some ==> r.unwrap()@ + final(self).remaining(store@) == old(self).remaining(
                store@,
            ),
    {
        match self.next_range() {
            None => None,
            Some((lo, hi)) => Some(query_window(store, self.window, lo, hi, self.limit)),
        }
    }
}

/// All findings of a chunked scan over `[start, stop)` (seconds) with
/// sub-ranges of `chunk_size` seconds. A limit caps each sub-query on its own,
/// so the whole scan may report up to `limit` findings per sub-range.
pub fn find_short_lived(
    store: &EventStore,
    window: u32,
    start: u32,
    stop: u32,
    limit: Option<usize>,
    chunk_size: u32,
) -> (r: Vec<PotentialHijack>)
    requires
        chunk_size >= 1,
    ensures
        r@ == chunked_scan(
            store@,
            window as int,
            start as int,
            stop as int,
            chunk_size as int,
            limit,
        ),
{
    let mut scan = ShortLivedScan::new(window, start, stop, limit, chunk_size);
    let mut all: Vec<PotentialHijack> = Vec::new();
    loop
        invariant
            scan.wf(),
            scan.window == window,
            scan.stop == stop,
            scan.chunk_size == chunk_size,
            scan.limit == limit,
            all@ + scan.remaining(store@) == chunked_scan(
                store@,
                window as int,
                start as int,
                stop as int,
                chunk_size as int,
                limit,
            ),
        ensures
            all@ == chunked_scan(
                store@,
                window as int,
                start as int,
                stop as int,
                chunk_size as int,
                limit,
            ),
        decreases stop - scan.cursor,
    {
        let ghost before = all@;
        match scan.next_chunk(store) {
            None => {
                assert(scan.remaining(store@) =~= seq![]);
                assert(all@ + seq![] =~= all@);
                break ;
            },
            Some(mut found) => {
                let ghost chunk = found@;
                all.append(&mut found);
                assert(before + (chunk + scan.remaining(store@)) =~= all@ + scan.remaining(
                    store@,
                ));
            },
        }
    }
    all
}

/// The earliest pairing withdrawal is the least time among the records that
/// pair with `a` before `bound_us`, and there is one exactly when some record pairs.
proof fn lemma_earliest_is_least(
    events: Seq<Announcement>,
    a: Announcement,
    window_us: int,
    bound_us: int,
)
    ensures
        earliest_withdraw(events, a, window_us, bound_us) is None <==> forall|j: int|
            0 <= j < events.len() ==> !(withdraws_within(a, events[j], window_us)
                && events[j].timestamp < bound_us),
        earliest_withdraw(events, a, window_us, bound_us) matches Some(t) ==> {
            &&& exists|j: int|
                0 <= j < events.len() && withdraws_within(a, events[j], window_us)
                    && events[j].timestamp < bound_us && events[j].timestamp == t
            &&& forall|j: int|
                0 <= j < events.len() && withdraws_within(a, events[j], window_us)
                    && events[j].timestamp < bound_us ==> t <= events[j].timestamp
        },
    decreases events.len(),
{
    if events.len() > 0 {
        let init = events.drop_last();
        lemma_earliest_is_least(init, a, window_us, bound_us);
        assert forall|j: int| 0 <= j < init.len() implies init[j] == events[j] by {}
        let last = events.len() - 1;
        assert(events[last] == events.last());
        if let Some(t) = earliest_withdraw(events, a, window_us, bound_us) {
            if withdraws_within(a, events.last(), window_us) && events.last().timestamp < bound_us
                && t == events.last().timestamp {
                assert(withdraws_within(a, events[last], window_us));
            } else {
                let j0 = choose|j: int|
                    0 <= j < init.len() && withdraws_within(a, init[j], window_us)
                        && init[j].timestamp < bound_us && init[j].timestamp == t;
                assert(events[j0] == init[j0]);
            }
        }
    }
}

/// The bound of a query does not matter once it lies past the end of the window of `a`.
proof fn lemma_bound_irrelevant(
    events: Seq<Announcement>,
    a: Announcement,
    window_us: int,
    b1: int,
    b2: int,
)
    requires
        a.timestamp + window_us < b1,
        a.timestamp + window_us < b2,
    ensures
        earliest_withdraw(events, a, window_us, b1) == earliest_withdraw(events, a, window_us, b2),
    decreases events.len(),
{
    if events.len() > 0 {
        lemma_bound_irrelevant(events.drop_last(), a, window_us, b1, b2);
    }
}

/// A sub-query finds the same pairs for any bound at or past `hi_us + window_us`.
proof fn lemma_scan_bound(
    events: Seq<Announcement>,
    n: nat,
    window_us: int,
    lo_us: int,
    hi_us: int,
    b1: int,
    b2: int,
)
    requires
        hi_us + window_us <= b1,
        hi_us + window_us <= b2,
    ensures
        scan(events, n, window_us, lo_us, hi_us, b1) == scan(events, n, window_us, lo_us, hi_us, b2),
    decreases n,
{
    if n > 0 {
        lemma_scan_bound(events, (n - 1) as nat, window_us, lo_us, hi_us, b1, b2);
        let a = events[n - 1];
        if !a.withdrawal && lo_us <= a.timestamp < hi_us {
            lemma_bound_irrelevant(events, a, window_us, b1, b2);
        }
    }
}

/// A query over an empty range finds nothing.
proof fn lemma_scan_empty(
    events: Seq<Announcement>,
    n: nat,
    window_us: int,
    lo_us: int,
    hi_us: int,
    bound_us: int,
)
    requires
        lo_us >= hi_us,
    ensures
        scan(events, n, window_us, lo_us, hi_us, bound_us) == Seq::<PotentialHijack>::empty(),
    decreases n,
{
    if n > 0 {
        lemma_scan_empty(events, (n - 1) as nat, window_us, lo_us, hi_us, bound_us);
    }
}

/// Splitting the announcement range at `mid` splits the findings, counted with multiplicity.
proof fn lemma_scan_split(
    events: Seq<Announcement>,
    n: nat,
    window_us: int,
    lo_us: int,
    mid_us: int,
    hi_us: int,
    bound_us: int,
)
    requires
        lo_us <= mid_us <= hi_us,
    ensures
        scan(events, n, window_us, lo_us, hi_us, bound_us).to_multiset() == scan(
            events,
            n,
            window_us,
            lo_us,
            mid_us,
            bound_us,
        ).to_multiset().add(scan(events, n, window_us, mid_us, hi_us, bound_us).to_multiset()),
    decreases n,
{
    if n > 0 {
        let m = (n - 1) as nat;
        lemma_scan_split(events, m, window_us, lo_us, mid_us, hi_us, bound_us);
        let whole = scan(events, m, window_us, lo_us, hi_us, bound_us).to_multiset();
        let left = scan(events, m, window_us, lo_us, mid_us, bound_us).to_multiset();
        let right = scan(events, m, window_us, mid_us, hi_us, bound_us).to_multiset();
        match finding_at(events, n - 1, window_us, lo_us, hi_us, bound_us) {
            Some(h) => {
                if events[n - 1].timestamp < mid_us {
                    assert(whole.insert(h) =~= left.insert(h).add(right));
                } else {
                    assert(whole.insert(h) =~= left.add(right.insert(h)));
                }
            },
            None => {},
        }
    }
}

/// The findings of a sub-query include the finding for each record it covers.
proof fn lemma_scan_contains(
    events: Seq<Announcement>,
    n: nat,
    window_us: int,
    lo_us: int,
    hi_us: int,
    bound_us: int,
    i: int,
)
    requires
        0 <= i < n,
        finding_at(events, i, window_us, lo_us, hi_us, bound_us) is Some,
    ensures
        scan(events, n, window_us, lo_us, hi_us, bound_us).contains(
            finding_at(events, i, window_us, lo_us, hi_us, bound_us).unwrap(),
        ),
    decreases n,
{
    let s = scan(events, n, window_us, lo_us, hi_us, bound_us);
    let h = finding_at(events, i, window_us, lo_us, hi_us, bound_us).unwrap();
    if i == n - 1 {
        assert(s[s.len() - 1] == h);
    } else {
        lemma_scan_contains(events, (n - 1) as nat, window_us, lo_us, hi_us, bound_us, i);
        let prev = scan(events, (n - 1) as nat, window_us, lo_us, hi_us, bound_us);
        let k = choose|k: int| 0 <= k < prev.len() && prev[k] == h;
        assert(s[k] == h);
    }
}

/// Pairing: an announcement at `i` that a sub-query over `[lo, hi)` covers is
/// reported exactly when some stored withdrawal of the same origin and prefix
/// follows it within the window, and then with the time of the earliest such
/// withdrawal; the report is among the sub-query's findings.
pub proof fn lemma_pairing(events: Seq<Announcement>, window: int, lo: int, hi: int, i: int)
    requires
        0 <= i < events.len(),
        !events[i].withdrawal,
        micros(lo) <= events[i].timestamp < micros(hi),
    ensures
        ({
            let f = finding_at(
                events,
                i,
                micros(window),
                micros(lo),
                micros(hi),
                micros(hi + window),
            );
            let a = events[i];
            &&& f is Some <==> exists|j: int|
                0 <= j < events.len() && withdraws_within(a, events[j], micros(window))
            &&& f matches Some(h) ==> {
                &&& h.origin == a.origin
                &&& h.prefix == a.prefix
                &&& h.ann_time == a.timestamp
                &&& exists|j: int|
                    0 <= j < events.len() && withdraws_within(a, events[j], micros(window))
                        && events[j].timestamp == h.wd_time
                &&& forall|j: int|
                    0 <= j < events.len() && withdraws_within(a, events[j], micros(window))
                        ==> h.wd_time <= events[j].timestamp
                &&& window_query(events, window, lo, hi).contains(h)
            }
        }),
{
    let a = events[i];
    let w = micros(window);
    let b = micros(hi + window);
    lemma_earliest_is_least(events, a, w, b);
    assert forall|j: int| 0 <= j < events.len() && withdraws_within(a, events[j], w) implies events[j].timestamp < b by {}
    let f = finding_at(events, i, w, micros(lo), micros(hi), b);
    if f is Some {
        lemma_scan_contains(events, events.len(), w, micros(lo), micros(hi), b, i);
    }
}

/// Chunking: without a limit, a scan of `[start, stop)` in sub-ranges of any
/// length of at least one second reports the same findings, each as often, as
/// one query over the whole range.
pub proof fn lemma_chunking_complete(
    events: Seq<Announcement>,
    window: int,
    start: int,
    stop: int,
    chunk: int,
)
    requires
        chunk >= 1,
    ensures
        chunked_scan(events, window, start, stop, chunk, None).to_multiset() == window_query(
            events,
            window,
            start,
            stop,
        ).to_multiset(),
    decreases stop - start,
{
    let n = events.len();
    if start >= stop {
        lemma_scan_empty(
            events,
            n,
            micros(window),
            micros(start),
            micros(stop),
            micros(stop + window),
        );
        assert(window_query(events, window, start, stop) =~= seq![]);
    } else {
        let end = chunk_end(start, stop, chunk);
        lemma_chunking_complete(events, window, end, stop, chunk);
        let first = window_query(events, window, start, end);
        let rest = chunked_scan(events, window, end, stop, chunk, None);
        vstd::seq_lib::lemma_multiset_commutative(first, rest);
        lemma_scan_bound(
            events,
            n,
            micros(window),
            micros(start),
            micros(end),
            micros(end + window),
            micros(stop + window),
        );
        lemma_scan_split(
            events,
            n,
            micros(window),
            micros(start),
            micros(end),
            micros(stop),
            micros(stop + window),
        );
    }
}

/// Of the first `n` records, how many are announcements in `[lo_us, hi_us)`
/// that some stored withdrawal follows within the window.
pub open spec fn qualifying_count(
    events: Seq<Announcement>,
    n: nat,
    window_us: int,
    lo_us: int,
    hi_us: int,
) -> nat
    decreases n,
{
    if n == 0 {
        0
    } else {
        let a = events[n - 1];
        qualifying_count(events, (n - 1) as nat, window_us, lo_us, hi_us) + if !a.withdrawal && lo_us
            <= a.timestamp < hi_us && exists|j: int|
            0 <= j < events.len() && withdraws_within(a, events[j], window_us) {
            1nat
        } else {
            0nat
        }
    }
}

/// No omission and no duplicate: a query over `[lo, hi)` reports exactly as
/// many findings as there are announcements in that range that some
/// withdrawal follows within the window, one for each.
pub proof fn lemma_one_finding_each(events: Seq<Announcement>, window: int, lo: int, hi: int, n: nat)
    requires
        n <= events.len(),
    ensures
        scan(events, n, micros(window), micros(lo), micros(hi), micros(hi + window)).len()
            == qualifying_count(events, n, micros(window), micros(lo), micros(hi)),
    decreases n,
{
    if n > 0 {
        lemma_one_finding_each(events, window, lo, hi, (n - 1) as nat);
        let a = events[n - 1];
        if !a.withdrawal && micros(lo) <= a.timestamp < micros(hi) {
            lemma_pairing(events, window, lo, hi, n - 1);
        }
    }
}

} // verus!
