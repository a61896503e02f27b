//! Ranking of open files by recency and editor visibility, used to order
//! revalidation fan-out. Recency is a monotonic counter, not clock time.

use vstd::prelude::*;

use crate::uri::FileUri;
use crate::urimap::UriMap;

verus! {

/// Recency and visibility of one open file.
#[derive(Clone, Copy, Debug)]
pub struct ActivityRank {
    /// Value of the tracker's counter at the last touch.
    pub stamp: u64,
    /// The file sits in the focused editor.
    pub active: bool,
    /// The file is visible in some editor.
    pub visible: bool,
}

/// The rank of a file the tracker has never seen.
pub open spec fn unseen_rank() -> ActivityRank {
    ActivityRank { stamp: 0, active: false, visible: false }
}

/// Priority of a rank; lower is more urgent. Active files come first, then
/// visible ones, then the rest by descending recency.
pub open spec fn score_of(r: ActivityRank) -> u128 {
    if r.active {
        1
    } else if r.visible {
        2
    } else {
        (3 + (u64::MAX - r.stamp)) as u128
    }
}

/// Tracks per-file activity under a monotonic touch counter.
pub struct ActivityTracker {
    entries: UriMap<ActivityRank>,
    counter: u64,
}

impl ActivityTracker {
    /// Stored keys never repeat.
    pub closed spec fn wf(self) -> bool {
        self.entries.wf()
    }

    /// The rank held for `uri`.
    pub closed spec fn rank_of(self, uri: Seq<u8>) -> ActivityRank {
        match self.entries.spec_get(uri) {
            Some(r) => r,
            None => unseen_rank(),
        }
    }

    /// The current touch counter.
    pub closed spec fn spec_counter(self) -> u64 {
        self.counter
    }

    /// An empty tracker.
    pub fn new() -> (r: ActivityTracker)
        ensures
            r.wf(),
            forall|u: Seq<u8>| r.rank_of(u) == unseen_rank(),
            r.spec_counter() == 0,
    {
        ActivityTracker { entries: UriMap::new(), counter: 0 }
    }

    /// Touch `uri`: bump the counter and stamp the file with it, keeping
    /// its visibility flags. The counter saturates at its maximum.
    pub fn record_recent(&mut self, uri: &FileUri)
        requires
            old(self).wf(),
        ensures
            final(self).wf(),
            final(self).spec_counter() == if old(self).spec_counter() < u64::MAX {
                old(self).spec_counter() + 1
            } else {
                u64::MAX as int
            },
            final(self).rank_of(uri@) == (ActivityRank {
                stamp: final(self).spec_counter(),
                active: old(self).rank_of(uri@).active,
                visible: old(self).rank_of(uri@).visible,
            }),
            forall|u: Seq<u8>| u != uri@ ==> final(self).rank_of(u) == old(self).rank_of(u),
    {
        if self.counter < u64::MAX {
            self.counter = self.counter + 1;
        }
        let (active, visible) = match self.entries.get(uri) {
            Some(r) => (r.active, r.visible),
            None => (false, false),
        };
        self.entries.insert(
            uri.duplicate(),
            ActivityRank { stamp: self.counter, active, visible },
        );
    }

    /// Set the visibility flags of `uri`, keeping its stamp.
    pub fn set_flags(&mut self, uri: &FileUri, active: bool, visible: bool)
        requires
            old(self).wf(),
        ensures
            final(self).wf(),
            final(self).spec_counter() == old(self).spec_counter(),
            final(self).rank_of(uri@) == (ActivityRank {
                stamp: old(self).rank_of(uri@).stamp,
                active,
                visible,
            }),
            forall|u: Seq<u8>| u != uri@ ==> final(self).rank_of(u) == old(self).rank_of(u),
    {
        let stamp = match self.entries.get(uri) {
            Some(r) => r.stamp,
            None => 0,
        };
        self.entries.insert(uri.duplicate(), ActivityRank { stamp, active, visible });
    }

    /// Forget `uri`.
    pub fn remove(&mut self, uri: &FileUri)
        requires
            old(self).wf(),
        ensures
            final(self).wf(),
            final(self).spec_counter() == old(self).spec_counter(),
            final(self).rank_of(uri@) == unseen_rank(),
            forall|u: Seq<u8>| u != uri@ ==> final(self).rank_of(u) == old(self).rank_of(u),
    {
        let _ = self.entries.remove(uri);
    }

    /// The priority of `uri`; lower is more urgent.
    pub fn priority_score(&self, uri: &FileUri) -> (r: u128)
        requires
            self.wf(),
        ensures
            r == score_of(self.rank_of(uri@)),
    {
        let rank = match self.entries.get(uri) {
            Some(r) => *r,
            None => ActivityRank { stamp: 0, active: false, visible: false },
        };
        if rank.active {
            1
        } else if rank.visible {
            2
        } else {
            3 + (u64::MAX - rank.stamp) as u128
        }
    }
}

} // verus!
