//! The change detector and the trigger decisions.
//!
//! The detector owns the last known snapshot. Each reload cycle hands it
//! the outcome of one store read: on failure the owned snapshot stays as it
//! was and nothing is emitted; on success the new snapshot is diffed
//! against the owned one, a [`ChangeEvent`] is produced exactly when the
//! diff is non-empty, and the new snapshot is adopted either way.

use vstd::prelude::*;

use crate::diff::changes_view;
use crate::diff::compare_state;
use crate::diff::spec_diff;
use crate::diff::Change;
use crate::filter::build_state;
use crate::filter::filter_pattern;
use crate::filter::rows_view;
use crate::filter::spec_build;
use crate::filter::KeyFilter;
use crate::identity::InstanceId;
use crate::laws::lemma_diff_self;
use crate::state::sorted_keys;
use crate::state::Entry;
use crate::state::Pair;
use crate::state::State;

verus! {

/// Seconds between forced full reloads when no operator signal arrives.
pub const RELOAD_TIMEOUT_SECS: u64 = 600;

/// One queued request for a reload cycle.
pub struct ReloadRequest {
    /// Attach the whole new snapshot to the outgoing event, not just the
    /// diff.
    pub full: bool,
}

/// A failed store read, with a readable account of the fault.
pub struct StoreError {
    pub message: String,
}

/// One non-empty set of observed changes, ready for delivery.
pub struct ChangeEvent {
    /// The process identifier the event is tagged with.
    pub instance: String,
    /// The ordered changes, as the diff engine produced them.
    pub changes: Vec<Change>,
    /// The whole new snapshot, on a full reload only.
    pub full_state: Option<State>,
}

/// The file-notification listener's decision: a sound write notification
/// schedules an incremental reload; error events and notifications of other
/// kinds are ignored.
pub fn classify_fs_event(event_ok: bool, is_write: bool) -> (r: Option<ReloadRequest>)
    ensures
        (event_ok && is_write) ==> (r matches Some(q) && q.full == false),
        !(event_ok && is_write) ==> r is None,
{
    if event_ok && is_write {
        Some(ReloadRequest { full: false })
    } else {
        None
    }
}

/// The signal/timeout listener's decision: an operator signal and an
/// elapsed timeout both schedule a full reload.
pub fn full_reload_request() -> (r: ReloadRequest)
    ensures
        r.full,
{
    ReloadRequest { full: true }
}

/// The single consumer of reload requests, owner of the last known
/// snapshot.
pub struct Detector {
    owned: State,
    filter: Option<KeyFilter>,
    instance: InstanceId,
}

impl Detector {
    /// The owned snapshot's model.
    pub closed spec fn owned_view(&self) -> Seq<Pair> {
        self.owned@
    }

    /// The configured filter pattern, if any.
    pub closed spec fn filter_view(&self) -> Option<Seq<char>> {
        filter_pattern(self.filter)
    }

    /// The process identifier the detector tags events with.
    pub closed spec fn instance_view(&self) -> Seq<char> {
        self.instance@
    }

    /// The owned snapshot is well formed.
    pub open spec fn wf(&self) -> bool {
        sorted_keys(self.owned_view())
    }

    /// A fresh detector: empty owned snapshot, the given filter and
    /// identity.
    pub fn new(filter: Option<KeyFilter>, instance: InstanceId) -> (r: Detector)
        ensures
            r.wf(),
            r.owned_view() =~= Seq::<Pair>::empty(),
            r.filter_view() == filter_pattern(filter),
            r.instance_view() == instance@,
    {
        Detector { owned: State::new(), filter, instance }
    }

    /// One reload cycle, fed the outcome of the store read.
    ///
    /// On a failed read nothing changes and nothing is emitted. On a
    /// successful read the rows become the new snapshot through the filter;
    /// an event is returned exactly when the diff against the owned
    /// snapshot is non-empty, carries that diff and the instance tag, and
    /// holds the whole new snapshot exactly when `full` was requested; the
    /// new snapshot is adopted either way.
    pub fn process(&mut self, full: bool, read: Result<Vec<Entry>, StoreError>) -> (r: Option<
        ChangeEvent,
    >)
        requires
            old(self).wf(),
        ensures
            final(self).wf(),
            final(self).filter_view() == old(self).filter_view(),
            final(self).instance_view() == old(self).instance_view(),
            read is Err ==> r is None && final(self).owned_view() == old(self).owned_view(),
            read matches Ok(rows) ==> ({
                let new_state = spec_build(rows_view(rows@), old(self).filter_view());
                &&& final(self).owned_view() == new_state
                &&& (r is Some <==> spec_diff(old(self).owned_view(), new_state).len() > 0)
                &&& (r matches Some(ev) ==> ev.instance@ == old(self).instance_view()
                    && changes_view(ev.changes@) == spec_diff(old(self).owned_view(), new_state)
                    && (full ==> (ev.full_state matches Some(st) && st@ == new_state)) && (!full
                    ==> ev.full_state is None))
            }),
    {
        match read {
            Err(_) => None,
            Ok(rows) => {
                let new_state = build_state(&rows, &self.filter);
                let changes = compare_state(&self.owned, &new_state);
                let result = if changes.len() > 0 {
                    proof {
                        assert(changes_view(changes@).len() == changes@.len());
                    }
                    let full_state = if full {
                        Some(new_state.duplicate())
                    } else {
                        None
                    };
                    Some(ChangeEvent { instance: self.instance.text(), changes, full_state })
                } else {
                    proof {
                        assert(changes_view(changes@).len() == changes@.len());
                    }
                    None
                };
                self.owned = new_state;
                result
            },
        }
    }
}

/// A reload on an unchanged store yields no event, however the request was
/// flagged: the diff of a snapshot with itself is empty, and `full` only
/// decides what an event would carry, never whether one is emitted.
pub proof fn lemma_unchanged_reload_no_event(st: Seq<Pair>)
    requires
        sorted_keys(st),
    ensures
        spec_diff(st, st).len() == 0,
{
    lemma_diff_self(st);
}

/// The owned snapshot after a run of reload cycles, each fed `None` for a
/// failed read or the filtered rows of a successful one.
pub open spec fn owned_after(
    owned: Seq<Pair>,
    reads: Seq<Option<Seq<Pair>>>,
    pat: Option<Seq<char>>,
) -> Seq<Pair>
    decreases reads.len(),
{
    if reads.len() == 0 {
        owned
    } else {
        let prev = owned_after(owned, reads.drop_last(), pat);
        match reads.last() {
            None => prev,
            Some(rows) => spec_build(rows, pat),
        }
    }
}

/// Failed store reads, however many in a row, leave the owned snapshot
/// exactly as it was; the next successful read is therefore diffed against
/// the last snapshot that was read successfully.
pub proof fn lemma_failed_reads_preserve_owned(
    owned: Seq<Pair>,
    reads: Seq<Option<Seq<Pair>>>,
    pat: Option<Seq<char>>,
)
    requires
        forall|i: int| 0 <= i < reads.len() ==> (#[trigger] reads[i]) is None,
    ensures
        owned_after(owned, reads, pat) == owned,
    decreases reads.len(),
{
    if reads.len() > 0 {
        assert forall|i: int| 0 <= i < reads.drop_last().len() implies (#[trigger] reads.drop_last()[i]) is None by {
            assert(reads.drop_last()[i] == reads[i]);
        }
        lemma_failed_reads_preserve_owned(owned, reads.drop_last(), pat);
        assert(reads.last() == reads[reads.len() - 1]);
    }
}

} // verus!
