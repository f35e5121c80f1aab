//! Route events as parsed from update files, and the records that the store keeps.

use vstd::prelude::*;
use crate::net::Prefix;

verus! {

/// Whether an update makes a prefix reachable or takes it back.
#[derive(Clone, Copy, Debug, PartialEq, Eq, Structural, Hash)]
pub enum Direction {
    Announce,
    Withdraw,
}

/// One segment of an AS path: sequence or set, inside a confederation or not,
/// and the network numbers it lists in order.
#[derive(Clone, Debug)]
pub struct PathSegment {
    pub sequence: bool,
    pub confederated: bool,
    pub asns: Vec<u32>,
}

pub struct PathSegmentView {
    pub sequence: bool,
    pub confederated: bool,
    pub asns: Seq<u32>,
}

impl View for PathSegment {
    type V = PathSegmentView;

    open spec fn view(&self) -> PathSegmentView {
        PathSegmentView { sequence: self.sequence, confederated: self.confederated, asns: self.asns@ }
    }
}

/// The views of a list of segments.
pub open spec fn path_view(path: Seq<PathSegment>) -> Seq<PathSegmentView> {
    path.map_values(|s: PathSegment| s@)
}

/// A route event as the update parser hands it over. Timestamps are
/// microseconds since the Unix epoch.
#[derive(Clone, Debug)]
pub struct RouteEvent {
    pub origin: u32,
    pub prefix: Prefix,
    pub timestamp: u64,
    pub direction: Direction,
    pub as_path: Option<Vec<PathSegment>>,
}

/// The 16 bytes of a record's unique identifier.
pub type RecordId = [u8; 16];

/// A stored announcement or withdrawal. Timestamps are microseconds since the
/// Unix epoch.
#[derive(Clone, Debug)]
pub struct Announcement {
    pub id: RecordId,
    pub origin: u32,
    pub withdrawal: bool,
    pub timestamp: u64,
    pub prefix: Prefix,
    pub as_path: Vec<PathSegment>,
}

pub struct AnnouncementView {
    pub id: Seq<u8>,
    pub origin: u32,
    pub withdrawal: bool,
    pub timestamp: u64,
    pub prefix: Prefix,
    pub as_path: Seq<PathSegmentView>,
}

impl AnnouncementView {
    /// The identifier has its 16 bytes and the prefix fits its family.
    pub open spec fn wf(self) -> bool {
        self.id.len() == 16 && self.prefix.wf()
    }
}

impl View for Announcement {
    type V = AnnouncementView;

    open spec fn view(&self) -> AnnouncementView {
        AnnouncementView {
            id: self.id@,
            origin: self.origin,
            withdrawal: self.withdrawal,
            timestamp: self.timestamp,
            prefix: self.prefix,
            as_path: path_view(self.as_path@),
        }
    }
}

/// Relies on uuid::Uuid::new_v4 for a fresh random identifier; nothing is
/// promised of its bytes.
#[verifier::external_body]
pub(crate) fn fresh_record_id() -> (r: RecordId) {
    uuid::Uuid::new_v4().into_bytes()
}

} // verus!
