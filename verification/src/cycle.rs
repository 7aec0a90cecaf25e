//! Planning one check cycle for a target: classify the freshly extracted set
//! against the last persisted snapshot and decide what the surrounding
//! program has to do.
//!
//! The plan's meaning: in every outcome the freshly extracted set is
//! persisted as the new snapshot; a notification is owed exactly for a
//! `Report` outcome, and a failed notification must not block persisting.

use vstd::prelude::*;
use crate::diff;
use crate::record::RecordSet;

verus! {

/// How one check cycle is classified.
#[derive(Clone, Copy, Debug, PartialEq, Eq, Structural)]
pub enum CycleClass {
    /// The previous snapshot was empty (or absent): the current set becomes
    /// the baseline and no notification is produced, whatever its size.
    /// An empty stored snapshot is indistinguishable from a never-checked
    /// target, so a page that stays empty keeps taking this path; that is
    /// deliberate, as some deployments rely on it.
    Initial,
    /// Nothing new against the previous snapshot.
    Quiet,
    /// New records appeared; they are to be notified.
    Report,
}

/// The decision for one cycle: its class and the new-records delta.
pub struct CyclePlan {
    pub class: CycleClass,
    pub fresh: RecordSet,
}

/// Classifies one cycle. The delta is computed by full structural equality;
/// an empty previous snapshot marks the cycle as initial and suppresses any
/// delta.
pub fn plan_cycle(previous: &RecordSet, current: &RecordSet) -> (p: CyclePlan)
    ensures
        (p.class is Initial) <==> previous@.len() == 0,
        (p.class is Report) <==> previous@.len() > 0 && diff::diff_seq(current@, previous@).len()
            > 0,
        (p.class is Quiet) <==> previous@.len() > 0 && diff::diff_seq(current@, previous@).len()
            == 0,
        p.fresh@ == if previous@.len() == 0 {
            Seq::<crate::record::RecView>::empty()
        } else {
            diff::diff_seq(current@, previous@)
        },
        current.wf() ==> p.fresh.wf(),
{
    if previous.len() == 0 {
        CyclePlan { class: CycleClass::Initial, fresh: RecordSet::new() }
    } else {
        let fresh = diff::diff(current, previous);
        if fresh.len() > 0 {
            CyclePlan { class: CycleClass::Report, fresh }
        } else {
            CyclePlan { class: CycleClass::Quiet, fresh }
        }
    }
}

} // verus!
