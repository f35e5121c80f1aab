//! The decisions of the ingestion pipeline: how update-file references are
//! cut into batches, how a batch of parsed events becomes one buffer of
//! record lines, and what the loader does with each message it receives.
//!
//! Messages carry their kind as a tag, so the end of a batch or of the stream
//! can never be mistaken for record data.

use vstd::prelude::*;
use crate::canonical::batch_lines;
use crate::codec::{encode_event, persisted, record_text};
use crate::event::{AnnouncementView, Direction, RecordId, RouteEvent, fresh_record_id};
use crate::store::all_wf;

verus! {

/// How many update-file references are parsed together before the loader
/// is told that a batch has ended.
pub const BATCH_SIZE: usize = 12;

/// A message from the parsing side to the loader.
pub enum Frame {
    /// Record lines to load.
    Data(Vec<u8>),
    /// The current batch is complete.
    EndOfBatch,
    /// No more input will come.
    EndOfStream,
}

/// The batches `[lo, hi)` of `n` references from `start` on, `size` at a
/// time, the last possibly shorter.
pub open spec fn batches_from(start: int, n: int, size: int) -> Seq<(usize, usize)>
    decreases n - start,
{
    if start >= n || size < 1 {
        seq![]
    } else {
        let hi = if start + size < n {
            start + size
        } else {
            n
        };
        seq![(start as usize, hi as usize)] + batches_from(hi, n, size)
    }
}

/// The batches of `n` references, `size` at a time, in order.
pub fn batch_bounds(n: usize, size: usize) -> (r: Vec<(usize, usize)>)
    requires
        size >= 1,
    ensures
        r@ == batches_from(0, n as int, size as int),
{
    let mut out: Vec<(usize, usize)> = Vec::new();
    let mut lo: usize = 0;
    while lo < n
        invariant
            size >= 1,
            lo <= n,
            out@ + batches_from(lo as int, n as int, size as int) == batches_from(
                0,
                n as int,
                size as int,
            ),
        decreases n - lo,
    {
        let hi = if n - lo > size {
            lo + size
        } else {
            n
        };
        let ghost before = out@;
        out.push((lo, hi));
        assert(before + batches_from(lo as int, n as int, size as int) =~= out@ + batches_from(
            hi as int,
            n as int,
            size as int,
        ));
        lo = hi;
    }
    assert(batches_from(lo as int, n as int, size as int) =~= seq![]);
    assert(out@ + seq![] =~= out@);
    out
}

/// The event can be stored: it is not an announcement without an AS path,
/// and its mask fits its address.
pub open spec fn encodable(ev: RouteEvent) -> bool {
    !(ev.direction == Direction::Announce && ev.as_path is None) && ev.prefix.wf()
}

/// The record lines of the storable events among the first `n`, the `i`-th
/// event under the `i`-th identifier.
pub open spec fn batch_text(events: Seq<RouteEvent>, ids: Seq<RecordId>, n: nat) -> Seq<u8>
    decreases n,
{
    if n == 0 {
        seq![]
    } else {
        let prev = batch_text(events, ids, (n - 1) as nat);
        let ev = events[n - 1];
        if encodable(ev) {
            prev + record_text(persisted(ids[n - 1]@, ev))
        } else {
            prev
        }
    }
}

/// The records that store the storable events among the first `n`, in order.
pub open spec fn stored_records(events: Seq<RouteEvent>, ids: Seq<RecordId>, n: nat) -> Seq<
    AnnouncementView,
>
    decreases n,
{
    if n == 0 {
        seq![]
    } else {
        let prev = stored_records(events, ids, (n - 1) as nat);
        let ev = events[n - 1];
        if encodable(ev) {
            prev.push(persisted(ids[n - 1]@, ev))
        } else {
            prev
        }
    }
}

/// Round trip through the bulk load: the lines of an encoded batch are the
/// lines of the records of its storable events, in order, and those records
/// are well formed, so loading the lines stores exactly those records.
pub proof fn lemma_batch_round_trip(events: Seq<RouteEvent>, ids: Seq<RecordId>, n: nat)
    requires
        n <= events.len(),
        n <= ids.len(),
    ensures
        batch_lines(stored_records(events, ids, n)) == batch_text(events, ids, n),
        all_wf(stored_records(events, ids, n)),
    decreases n,
{
    if n > 0 {
        lemma_batch_round_trip(events, ids, (n - 1) as nat);
        let prev = stored_records(events, ids, (n - 1) as nat);
        let ev = events[n - 1];
        if encodable(ev) {
            let v = persisted(ids[n - 1]@, ev);
            assert(prev.push(v).drop_last() =~= prev);
            assert(ids[n - 1]@.len() == 16);
            assert forall|i: int| 0 <= i < prev.push(v).len() implies #[trigger] prev.push(v)[i].wf() by {
                if i < prev.len() {
                    assert(prev.push(v)[i] == prev[i]);
                }
            }
        }
    }
}

/// How many of the first `n` events cannot be stored.
pub open spec fn unencodable_count(events: Seq<RouteEvent>, n: nat) -> nat
    decreases n,
{
    if n == 0 {
        0
    } else {
        unencodable_count(events, (n - 1) as nat) + if encodable(events[n - 1]) {
            0nat
        } else {
            1nat
        }
    }
}

/// The record lines of a batch of events, the `i`-th under `ids[i]`, and how
/// many events were skipped because they cannot be stored.
pub fn encode_batch(events: &Vec<RouteEvent>, ids: &Vec<RecordId>) -> (r: (Vec<u8>, usize))
    requires
        ids@.len() == events@.len(),
    ensures
        r.0@ == batch_text(events@, ids@, events@.len() as nat),
        r.1 == unencodable_count(events@, events@.len() as nat),
{
    let mut out: Vec<u8> = Vec::new();
    let mut skipped: usize = 0;
    let mut i: usize = 0;
    while i < events.len()
        invariant
            ids@.len() == events@.len(),
            i <= events@.len(),
            skipped <= i,
            out@ == batch_text(events@, ids@, i as nat),
            skipped == unencodable_count(events@, i as nat),
        decreases events@.len() - i,
    {
        match encode_event(ids[i], &events[i]) {
            Ok(mut line) => {
                out.append(&mut line);
            },
            Err(_) => {
                skipped = skipped + 1;
            },
        }
        i = i + 1;
    }
    (out, skipped)
}

/// The record lines of a batch of events under fresh random identifiers,
/// and how many events were skipped because they cannot be stored.
pub fn encode_events(events: &Vec<RouteEvent>) -> (r: (Vec<u8>, usize))
    ensures
        exists|ids: Seq<RecordId>|
            ids.len() == events@.len() && r.0@ == batch_text(events@, ids, events@.len() as nat),
        r.1 == unencodable_count(events@, events@.len() as nat),
{
    let mut ids: Vec<RecordId> = Vec::new();
    let mut i: usize = 0;
    while i < events.len()
        invariant
            i <= events@.len(),
            ids@.len() == i,
        decreases events@.len() - i,
    {
        ids.push(fresh_record_id());
        i = i + 1;
    }
    encode_batch(events, &ids)
}

/// What the loader does on a message.
#[derive(Clone, Copy, Debug, PartialEq, Eq, Structural, Hash)]
pub enum LoaderAction {
    /// Load the message's lines, opening a load session first if none is open.
    Load { open_session: bool },
    /// The batch ended: finish the open session, if any.
    EndBatch { finish_session: bool },
    /// The stream ended: finish the open session, if any, and return.
    Stop { finish_session: bool },
}

/// The loader's decision on a message, given whether a load session is open,
/// and whether a session is open afterwards. Sessions are finished at the end
/// of every batch, so one that failed is replaced on the next batch.
pub fn loader_step(session_open: bool, frame: &Frame) -> (r: (LoaderAction, bool))
    ensures
        frame is Data ==> r == (LoaderAction::Load { open_session: !session_open }, true),
        frame is EndOfBatch ==> r == (LoaderAction::EndBatch { finish_session: session_open }, false),
        frame is EndOfStream ==> r == (LoaderAction::Stop { finish_session: session_open }, false),
{
    match frame {
        Frame::Data(_) => (LoaderAction::Load { open_session: !session_open }, true),
        Frame::EndOfBatch => (LoaderAction::EndBatch { finish_session: session_open }, false),
        Frame::EndOfStream => (LoaderAction::Stop { finish_session: session_open }, false),
    }
}

} // verus!
