//! The direct delete flow: a manifest built in memory from freshly
//! computed duplicate groups, executed at once. This reuses the exact same
//! refusal and reporting logic as executing a stored manifest, so the two
//! paths cannot drift apart.
use vstd::prelude::*;
use crate::manifest::{build_manifest, ManifestRun, entry_matches, mtimes_for, start_state};
use crate::model::{DupeGroup, KeepStrategy};

verus! {

/// Delete duplicates directly (or simulate with `dry_run`), keeping one
/// survivor per group according to `strategy`; the returned run is driven
/// like any manifest run. It skips the re-hash verification step, since
/// the groups were computed moments ago in this same run. `mtimes[i]`
/// gives the modification times of the paths of group `i`, for the
/// strategies that look at times.
pub fn delete_duplicates(groups: &Vec<DupeGroup>, strategy: KeepStrategy, mtimes: &Vec<Vec<i128>>, dry_run: bool) -> (r: ManifestRun)
    requires
        forall|i: int| 0 <= i < groups@.len() ==> (#[trigger] groups@[i]).paths@.len() > 0,
    ensures
        r.state().entries.len() == groups@.len(),
        forall|i: int| 0 <= i < groups@.len()
            ==> entry_matches(#[trigger] r.state().entries[i], groups@[i], mtimes_for(mtimes@, i), strategy),
        r.state() == start_state(r.state().entries, dry_run, true),
        crate::manifest::run_wf(r.state()),
{
    let manifest = build_manifest(groups, strategy, mtimes);
    let r = ManifestRun::new(manifest, dry_run, true);
    proof {
        assert forall|i: int| 0 <= i < groups@.len()
            implies entry_matches(#[trigger] r.state().entries[i], groups@[i], mtimes_for(mtimes@, i), strategy) by {
            assert(crate::manifest::entry_of_group(manifest.groups@[i], groups@[i], mtimes_for(mtimes@, i), strategy));
        }
    }
    r
}

} // verus!
