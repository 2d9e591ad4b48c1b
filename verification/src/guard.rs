//! The liveness guard: deciding, from the cycle's own snapshot,
//! whether the monitoring process has been orphaned.

use vstd::prelude::*;
use crate::record::{ProcessRecord, RecView, snap_view, snap_has, spec_find, find_record,
    lemma_find_characterizes};

verus! {

/// Whether the monitor counts as orphaned under the snapshot `s`: its
/// own record is absent, or that record has no parent, or its parent
/// is the init process.  `init_pid` is the well-known identifier that
/// orphans are reparented to; it is supplied by the caller because it
/// is a platform convention, not a portable constant.
pub open spec fn spec_orphaned(s: Seq<RecView>, own_pid: u32, init_pid: u32) -> bool {
    match spec_find(s, own_pid) {
        Option::None => true,
        Option::Some(r) => r.ppid == 0 || r.ppid == init_pid,
    }
}

/// Decides orphanhood from the snapshot: true exactly when the record
/// of `own_pid` is absent, parentless, or a child of `init_pid`.
pub fn is_orphaned(snapshot: &Vec<ProcessRecord>, own_pid: u32, init_pid: u32) -> (r: bool)
    ensures
        r == spec_orphaned(snap_view(snapshot@), own_pid, init_pid),
{
    match find_record(snapshot, own_pid) {
        Option::None => {
            proof {
                lemma_find_characterizes(snap_view(snapshot@), own_pid);
            }
            true
        },
        Option::Some(j) => {
            let pp = snapshot[j].ppid;
            proof {
                assert(snap_view(snapshot@)[j as int] == snapshot@[j as int]@);
            }
            pp == 0 || pp == init_pid
        },
    }
}

} // verus!
