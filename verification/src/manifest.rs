//! Review manifest: a description of exactly what a delete run would do,
//! meant to be inspected by a human before anything is removed, and the
//! execution of such a plan.
//!
//! Execution is a state machine: checking, hashing and removing files is
//! the caller's work. [`ManifestRun::next`] takes the outcome of the last
//! action and names the next one. Every group is re-validated before
//! anything happens to it: the file that would be kept must not itself be
//! in the delete list, which must not be empty (else the group is refused
//! and nothing in it is touched); each file scheduled for deletion must
//! still exist and, unless verification is skipped, still match the
//! group's recorded hash.
use vstd::prelude::*;
use crate::keep::{survivor_at, survivor_index};
use crate::lex::{ints, key_eq};
use crate::model::{DupeGroup, KeepStrategy, strs};
use crate::paths::{path_key, path_key_of, same_path};
use crate::text::{decimal, decimal_spec};

verus! {

/// The manifest format's version.
pub const MANIFEST_VERSION: u32 = 1;

/// What to do with one duplicate group.
#[derive(Debug)]
pub struct ManifestEntry {
    pub size: u64,
    pub hash: String,
    pub keep: String,
    pub delete: Vec<String>,
}

/// A delete plan.
#[derive(Debug)]
pub struct Manifest {
    pub version: u32,
    pub keep_strategy: KeepStrategy,
    pub groups: Vec<ManifestEntry>,
}

/// `ps` without every path that is the same path as `x`, in order.
pub open spec fn without(ps: Seq<Seq<char>>, x: Seq<char>) -> Seq<Seq<char>>
    decreases ps.len(),
{
    if ps.len() == 0 {
        Seq::empty()
    } else {
        let w = without(ps.drop_last(), x);
        if same_path(ps.last(), x) {
            w
        } else {
            w.push(ps.last())
        }
    }
}

/// Some path of `ps` is the same path as `x`.
pub open spec fn lists_path(ps: Seq<Seq<char>>, x: Seq<char>) -> bool {
    exists|i: int| 0 <= i < ps.len() && same_path(#[trigger] ps[i], x)
}

/// The modification times given for the `i`-th group (none, past the end).
pub open spec fn mtimes_for(mtimes: Seq<Vec<i128>>, i: int) -> Seq<i128> {
    if 0 <= i < mtimes.len() {
        mtimes[i]@
    } else {
        Seq::empty()
    }
}

/// The entry keeps the group's survivor and deletes every other path.
pub open spec fn entry_of_group(e: ManifestEntry, g: DupeGroup, mtimes: Seq<i128>, strategy: KeepStrategy) -> bool {
    entry_matches(entry_view(e), g, mtimes, strategy)
}

pub open spec fn entry_matches(e: EntryView, g: DupeGroup, mtimes: Seq<i128>, strategy: KeepStrategy) -> bool {
    &&& e.size == g.size
    &&& e.hash == g.hash@
    &&& exists|s: int| survivor_at(strs(g.paths@), mtimes, strategy, s) && e.keep == g.paths@[s]@
    &&& e.delete == without(strs(g.paths@), e.keep)
}

/// A group of two or more paths, no two of them the same path, yields an
/// entry that is never refused: it deletes at least one path, and none
/// that is the kept one.
pub proof fn lemma_group_entry_not_refused(e: EntryView, g: DupeGroup, mtimes: Seq<i128>, strategy: KeepStrategy)
    requires
        entry_matches(e, g, mtimes, strategy),
        strs(g.paths@).len() >= 2,
        forall|i: int, j: int| 0 <= i < j < strs(g.paths@).len()
            ==> !same_path(#[trigger] strs(g.paths@)[i], #[trigger] strs(g.paths@)[j]),
    ensures
        !refused(e),
{
    let ps = strs(g.paths@);
    lemma_without(ps, e.keep);
    let s = choose|s: int| survivor_at(ps, mtimes, strategy, s) && e.keep == g.paths@[s]@;
    assert(0 <= s < ps.len());
    assert(ps[s] == e.keep);
    let o: int = if s == 0 { 1 } else { 0 };
    let other = ps[o];
    assert(ps.contains(other));
    assert(!same_path(other, e.keep)) by {
        if o < s {
            assert(!same_path(ps[o], ps[s]));
        } else {
            assert(!same_path(ps[s], ps[o]));
        }
    }
    assert(e.delete.contains(other));
}

/// Build a manifest from duplicate groups, choosing a survivor per group
/// with the given strategy. Every entry keeps exactly one path. `mtimes[i]`
/// gives the modification times of the paths of group `i`, for the
/// strategies that look at times.
pub fn build_manifest(groups: &Vec<DupeGroup>, strategy: KeepStrategy, mtimes: &Vec<Vec<i128>>) -> (m: Manifest)
    requires
        forall|i: int| 0 <= i < groups@.len() ==> (#[trigger] groups@[i]).paths@.len() > 0,
    ensures
        m.version == MANIFEST_VERSION,
        m.keep_strategy == strategy,
        m.groups@.len() == groups@.len(),
        forall|i: int| 0 <= i < groups@.len()
            ==> entry_of_group(#[trigger] m.groups@[i], groups@[i], mtimes_for(mtimes@, i), strategy),
{
    let mut entries: Vec<ManifestEntry> = Vec::new();
    let none: Vec<i128> = Vec::new();
    let mut i: usize = 0;
    while i < groups.len()
        invariant
            forall|q: int| 0 <= q < groups@.len() ==> (#[trigger] groups@[q]).paths@.len() > 0,
            none@.len() == 0,
            i <= groups@.len(),
            entries@.len() == i,
            forall|q: int| 0 <= q < i
                ==> entry_of_group(#[trigger] entries@[q], groups@[q], mtimes_for(mtimes@, q), strategy),
        decreases groups@.len() - i,
    {
        let g = &groups[i];
        let mt = if i < mtimes.len() { &mtimes[i] } else { &none };
        assert(mt@ == mtimes_for(mtimes@, i as int));
        let s = survivor_index(&g.paths, mt, strategy);
        let keep = g.paths[s].clone();
        let keep_key = path_key_of(keep.as_str());
        let mut delete: Vec<String> = Vec::new();
        let mut k: usize = 0;
        while k < g.paths.len()
            invariant
                k <= g.paths@.len(),
                ints(keep_key@) == path_key(keep@),
                strs(delete@) =~= without(strs(g.paths@).take(k as int), keep@),
            decreases g.paths@.len() - k,
        {
            proof {
                assert(strs(g.paths@).take(k + 1).drop_last() =~= strs(g.paths@).take(k as int));
                assert(strs(g.paths@).take(k + 1).last() == g.paths@[k as int]@);
            }
            let key = path_key_of(g.paths[k].as_str());
            if !key_eq(&key, &keep_key) {
                let ghost db = delete@;
                delete.push(g.paths[k].clone());
                proof {
                    assert(strs(delete@) =~= strs(db).push(g.paths@[k as int]@));
                }
            }
            k = k + 1;
        }
        proof {
            assert(strs(g.paths@).take(k as int) =~= strs(g.paths@));
        }
        let hash = g.hash.clone();
        let ghost eb = entries@;
        entries.push(ManifestEntry { size: g.size, hash, keep, delete });
        proof {
            assert forall|q: int| 0 <= q < i + 1
                implies entry_of_group(#[trigger] entries@[q], groups@[q], mtimes_for(mtimes@, q), strategy) by {
                if q < i {
                    assert(entries@[q] == eb[q]);
                }
            }
        }
        i = i + 1;
    }
    Manifest { version: MANIFEST_VERSION, keep_strategy: strategy, groups: entries }
}

/// `without` keeps exactly the paths that are not the removed one.
pub proof fn lemma_without(ps: Seq<Seq<char>>, x: Seq<char>)
    ensures
        !lists_path(without(ps, x), x),
        forall|p: Seq<char>| #[trigger] without(ps, x).contains(p) <==> (ps.contains(p) && !same_path(p, x)),
    decreases ps.len(),
{
    if ps.len() > 0 {
        let pre = ps.drop_last();
        lemma_without(pre, x);
        let w = without(ps, x);
        assert forall|p: Seq<char>| #[trigger] w.contains(p) <==> (ps.contains(p) && !same_path(p, x)) by {
            if w.contains(p) {
                let t = choose|t: int| 0 <= t < w.len() && w[t] == p;
                if t < without(pre, x).len() {
                    assert(without(pre, x).contains(p));
                    let u = choose|u: int| 0 <= u < pre.len() && pre[u] == p;
                    assert(ps[u] == p);
                } else {
                    assert(ps[ps.len() - 1] == p);
                }
            }
            if ps.contains(p) && !same_path(p, x) {
                let u = choose|u: int| 0 <= u < ps.len() && ps[u] == p;
                if u < ps.len() - 1 {
                    assert(pre[u] == p);
                    assert(without(pre, x).contains(p));
                    let t = choose|t: int| 0 <= t < without(pre, x).len() && without(pre, x)[t] == p;
                    assert(w[t] == p);
                } else {
                    assert(w[without(pre, x).len() as int] == p);
                }
            }
        }
        if lists_path(w, x) {
            let i = choose|i: int| 0 <= i < w.len() && same_path(#[trigger] w[i], x);
            assert(w.contains(w[i]));
        }
    }
}

/// Outcome of executing (or dry-running) a manifest.
#[derive(Debug)]
pub struct ExecutionReport {
    pub deleted: Vec<String>,
    pub would_delete: Vec<String>,
    pub skipped: Vec<(String, String)>,
    pub refused_groups: Vec<String>,
    pub bytes_reclaimed: u64,
}

/// The next piece of outside work a manifest run asks for.
#[derive(Debug)]
pub enum ManifestAction {
    /// Does this path still exist?
    CheckExists(String),
    /// Hash this file in full.
    Verify(String),
    /// Delete this file.
    Remove(String),
    /// The run is over.
    Done,
}

/// The outcome of the last action.
#[derive(Debug)]
pub enum ManifestEvent {
    Exists(bool),
    /// The full hash, or the text of the error that prevented it.
    Hashed(Result<String, String>),
    /// Success, or the text of the error.
    Removed(Result<(), String>),
}

/// Where a run stands.
#[derive(Debug, Clone, Copy, PartialEq, Eq, Structural)]
pub enum Phase {
    Ready,
    AwaitExists,
    AwaitHash,
    AwaitRemove,
    Finished,
}

pub struct EntryView {
    pub size: u64,
    pub hash: Seq<char>,
    pub keep: Seq<char>,
    pub delete: Seq<Seq<char>>,
}

pub open spec fn entry_view(e: ManifestEntry) -> EntryView {
    EntryView { size: e.size, hash: e.hash@, keep: e.keep@, delete: strs(e.delete@) }
}

#[verifier::ext_equal]
pub struct ReportView {
    pub deleted: Seq<Seq<char>>,
    pub would_delete: Seq<Seq<char>>,
    pub skipped: Seq<(Seq<char>, Seq<char>)>,
    pub refused: Seq<Seq<char>>,
    pub bytes: u64,
}

pub open spec fn report_view(r: ExecutionReport) -> ReportView {
    ReportView {
        deleted: strs(r.deleted@),
        would_delete: strs(r.would_delete@),
        skipped: r.skipped@.map_values(|x: (String, String)| (x.0@, x.1@)),
        refused: strs(r.refused_groups@),
        bytes: r.bytes_reclaimed,
    }
}

#[verifier::ext_equal]
pub struct RunView {
    pub entries: Seq<EntryView>,
    pub dry_run: bool,
    pub skip_verify: bool,
    pub group: int,
    pub victim: int,
    pub phase: Phase,
    pub report: ReportView,
}

pub enum ActionView {
    CheckExists(Seq<char>),
    Verify(Seq<char>),
    Remove(Seq<char>),
    Done,
}

pub enum EventView {
    Exists(bool),
    Hashed(Result<Seq<char>, Seq<char>>),
    Removed(Result<(), Seq<char>>),
}

pub open spec fn action_view(a: ManifestAction) -> ActionView {
    match a {
        ManifestAction::CheckExists(p) => ActionView::CheckExists(p@),
        ManifestAction::Verify(p) => ActionView::Verify(p@),
        ManifestAction::Remove(p) => ActionView::Remove(p@),
        ManifestAction::Done => ActionView::Done,
    }
}

pub open spec fn event_view(e: Option<ManifestEvent>) -> Option<EventView> {
    match e {
        None => None,
        Some(ManifestEvent::Exists(b)) => Some(EventView::Exists(b)),
        Some(ManifestEvent::Hashed(Ok(h))) => Some(EventView::Hashed(Ok(h@))),
        Some(ManifestEvent::Hashed(Err(m))) => Some(EventView::Hashed(Err(m@))),
        Some(ManifestEvent::Removed(Ok(()))) => Some(EventView::Removed(Ok(()))),
        Some(ManifestEvent::Removed(Err(m))) => Some(EventView::Removed(Err(m@))),
    }
}

/// A group is refused when it deletes nothing or would delete its kept
/// file under a spelling equal to its path component by component
/// (`..` and symlinks are not resolved, as path comparison does not).
pub open spec fn refused(e: EntryView) -> bool {
    e.delete.len() == 0 || lists_path(e.delete, e.keep)
}

pub open spec fn refusal_message(e: EntryView) -> Seq<char> {
    "refusing to delete every copy in group "@ + e.hash + " (size="@ + decimal_spec(e.size as nat) + ")"@
}

pub open spec fn sat_add(a: u64, b: u64) -> u64 {
    if a + b > u64::MAX { u64::MAX } else { (a + b) as u64 }
}

/// The file the run is at.
pub open spec fn victim_of(s: RunView) -> Seq<char> {
    s.entries[s.group].delete[s.victim]
}

/// The run's state is consistent.
pub open spec fn run_wf(s: RunView) -> bool {
    &&& 0 <= s.group <= s.entries.len()
    &&& 0 <= s.victim
    &&& s.group < s.entries.len() ==> s.victim <= s.entries[s.group].delete.len()
    &&& (s.phase is AwaitExists || s.phase is AwaitHash || s.phase is AwaitRemove) ==> {
        &&& s.group < s.entries.len()
        &&& s.victim < s.entries[s.group].delete.len()
        &&& !refused(s.entries[s.group])
    }
    &&& s.phase is AwaitHash ==> !s.skip_verify
    &&& s.phase is AwaitRemove ==> !s.dry_run
    &&& s.phase is Finished ==> s.group == s.entries.len()
    &&& (s.phase is Ready && s.victim > 0) ==> s.group < s.entries.len() && !refused(s.entries[s.group])
}

/// Moving on from the current position: refuse refused groups, and ask
/// about the next file to delete, if any.
pub open spec fn advance(s: RunView) -> (RunView, ActionView)
    decreases s.entries.len() - s.group,
{
    if s.group >= s.entries.len() || s.group < 0 {
        (RunView { phase: Phase::Finished, ..s }, ActionView::Done)
    } else {
        let e = s.entries[s.group];
        if s.victim == 0 && refused(e) {
            advance(RunView {
                group: s.group + 1,
                report: ReportView { refused: s.report.refused.push(refusal_message(e)), ..s.report },
                ..s
            })
        } else if s.victim < e.delete.len() {
            (RunView { phase: Phase::AwaitExists, ..s }, ActionView::CheckExists(e.delete[s.victim]))
        } else {
            advance(RunView { group: s.group + 1, victim: 0, ..s })
        }
    }
}

/// The state once the current file is skipped, for a reason.
pub open spec fn skip_state(s: RunView, reason: Seq<char>) -> RunView {
    RunView {
        victim: s.victim + 1,
        phase: Phase::Ready,
        report: ReportView { skipped: s.report.skipped.push((victim_of(s), reason)), ..s.report },
        ..s
    }
}

/// Skip the current file, for a reason.
pub open spec fn skip(s: RunView, reason: Seq<char>) -> (RunView, ActionView) {
    advance(skip_state(s, reason))
}

/// The current file may go: count it in a dry run, else ask to delete it.
pub open spec fn proceed(s: RunView) -> (RunView, ActionView) {
    let e = s.entries[s.group];
    if s.dry_run {
        advance(RunView {
            victim: s.victim + 1,
            phase: Phase::Ready,
            report: ReportView {
                would_delete: s.report.would_delete.push(victim_of(s)),
                bytes: sat_add(s.report.bytes, e.size),
                ..s.report
            },
            ..s
        })
    } else {
        (RunView { phase: Phase::AwaitRemove, ..s }, ActionView::Remove(victim_of(s)))
    }
}

/// The event the run waits for in each phase.
pub open spec fn expects(phase: Phase, ev: Option<EventView>) -> bool {
    match phase {
        Phase::Ready => ev is None,
        Phase::AwaitExists => ev matches Some(EventView::Exists(_)),
        Phase::AwaitHash => ev matches Some(EventView::Hashed(_)),
        Phase::AwaitRemove => ev matches Some(EventView::Removed(_)),
        Phase::Finished => true,
    }
}

/// One step of a run: the new state and the next action.
pub open spec fn step(s: RunView, ev: Option<EventView>) -> (RunView, ActionView) {
    match s.phase {
        Phase::Ready => advance(s),
        Phase::AwaitExists => match ev {
            Some(EventView::Exists(false)) => skip(s, "path no longer exists"@),
            _ => if s.skip_verify {
                proceed(s)
            } else {
                (RunView { phase: Phase::AwaitHash, ..s }, ActionView::Verify(victim_of(s)))
            },
        },
        Phase::AwaitHash => match ev {
            Some(EventView::Hashed(Ok(h))) => if h == s.entries[s.group].hash {
                proceed(s)
            } else {
                skip(s, "content changed since manifest was generated"@)
            },
            Some(EventView::Hashed(Err(m))) => skip(s, "could not verify: "@ + m),
            _ => (s, ActionView::Done),
        },
        Phase::AwaitRemove => match ev {
            Some(EventView::Removed(Ok(()))) => advance(RunView {
                victim: s.victim + 1,
                phase: Phase::Ready,
                report: ReportView {
                    deleted: s.report.deleted.push(victim_of(s)),
                    bytes: sat_add(s.report.bytes, s.entries[s.group].size),
                    ..s.report
                },
                ..s
            }),
            Some(EventView::Removed(Err(m))) => skip(s, "delete failed: "@ + m),
            _ => (s, ActionView::Done),
        },
        Phase::Finished => (s, ActionView::Done),
    }
}

/// A manifest being executed.
pub struct ManifestRun {
    entries: Vec<ManifestEntry>,
    dry_run: bool,
    skip_verify: bool,
    group: usize,
    victim: usize,
    phase: Phase,
    report: ExecutionReport,
}

impl ManifestRun {
    pub closed spec fn state(&self) -> RunView {
        RunView {
            entries: self.entries@.map_values(|e: ManifestEntry| entry_view(e)),
            dry_run: self.dry_run,
            skip_verify: self.skip_verify,
            group: self.group as int,
            victim: self.victim as int,
            phase: self.phase,
            report: report_view(self.report),
        }
    }

    /// Start executing (or, if `dry_run`, simulating) a manifest's
    /// deletions; `skip_verify` skips the hash check before each deletion.
    pub fn new(manifest: Manifest, dry_run: bool, skip_verify: bool) -> (r: ManifestRun)
        ensures
            r.state() == start_state(manifest.groups@.map_values(|e: ManifestEntry| entry_view(e)), dry_run, skip_verify),
            run_wf(r.state()),
    {
        let r = ManifestRun {
            entries: manifest.groups,
            dry_run,
            skip_verify,
            group: 0,
            victim: 0,
            phase: Phase::Ready,
            report: ExecutionReport {
                deleted: Vec::new(),
                would_delete: Vec::new(),
                skipped: Vec::new(),
                refused_groups: Vec::new(),
                bytes_reclaimed: 0,
            },
        };
        assert(r.state().report =~= ReportView {
            deleted: Seq::empty(),
            would_delete: Seq::empty(),
            skipped: Seq::empty(),
            refused: Seq::empty(),
            bytes: 0,
        });
        r
    }

    /// The report so far.
    pub fn into_report(self) -> (r: ExecutionReport)
        ensures
            report_view(r) == self.state().report,
    {
        self.report
    }
}


/// Is the group refused?
pub fn entry_refused(e: &ManifestEntry) -> (r: bool)
    ensures
        r == refused(entry_view(*e)),
{
    if e.delete.len() == 0 {
        return true;
    }
    let keep_key = path_key_of(e.keep.as_str());
    let mut k: usize = 0;
    while k < e.delete.len()
        invariant
            k <= e.delete@.len(),
            ints(keep_key@) == path_key(e.keep@),
            forall|q: int| 0 <= q < k ==> !same_path(#[trigger] strs(e.delete@)[q], e.keep@),
        decreases e.delete@.len() - k,
    {
        let key = path_key_of(e.delete[k].as_str());
        if key_eq(&key, &keep_key) {
            proof {
                assert(same_path(strs(e.delete@)[k as int], e.keep@));
            }
            return true;
        }
        assert(!same_path(strs(e.delete@)[k as int], e.keep@));
        k = k + 1;
    }
    false
}

fn refusal_text(e: &ManifestEntry) -> (r: String)
    ensures
        r@ == refusal_message(entry_view(*e)),
{
    let mut r = String::from_str("refusing to delete every copy in group ");
    r.append(e.hash.as_str());
    r.append(" (size=");
    let d = decimal(e.size);
    r.append(d.as_str());
    r.append(")");
    r
}

impl ManifestRun {
    fn advance_exec(&mut self) -> (a: ManifestAction)
        requires
            run_wf(old(self).state()),
            old(self).phase is Ready,
        ensures
            run_wf(final(self).state()),
            (final(self).state(), action_view(a)) == advance(old(self).state()),
    {
        let ghost goal = advance(self.state());
        loop
            invariant
                run_wf(self.state()),
                self.phase is Ready,
                advance(self.state()) == goal,
                goal == advance(old(self).state()),
            decreases self.entries@.len() - self.group,
        {
            if self.group >= self.entries.len() {
                let ghost s0 = self.state();
                self.phase = Phase::Finished;
                assert(self.state() =~= RunView { phase: Phase::Finished, ..s0 });
                return ManifestAction::Done;
            }
            let ghost s0 = self.state();
            let refuse = self.victim == 0 && entry_refused(&self.entries[self.group]);
            assert(s0.entries[s0.group] == entry_view(self.entries@[self.group as int]));
            if refuse {
                let msg = refusal_text(&self.entries[self.group]);
                self.report.refused_groups.push(msg);
                self.group = self.group + 1;
                proof {
                    let e = s0.entries[s0.group];
                    assert(self.state().report =~= ReportView { refused: s0.report.refused.push(refusal_message(e)), ..s0.report });
                    assert(self.state() =~= RunView {
                        group: s0.group + 1,
                        report: ReportView { refused: s0.report.refused.push(refusal_message(e)), ..s0.report },
                        ..s0
                    });
                }
            } else if self.victim < self.entries[self.group].delete.len() {
                self.phase = Phase::AwaitExists;
                let p = self.entries[self.group].delete[self.victim].clone();
                proof {
                    assert(self.state() =~= RunView { phase: Phase::AwaitExists, ..s0 });
                    assert(s0.entries[s0.group].delete[s0.victim] == p@);
                }
                return ManifestAction::CheckExists(p);
            } else {
                self.group = self.group + 1;
                self.victim = 0;
                proof {
                    assert(self.state() =~= RunView { group: s0.group + 1, victim: 0, ..s0 });
                }
            }
        }
    }

    fn skip_exec(&mut self, reason: String) -> (a: ManifestAction)
        requires
            run_wf(old(self).state()),
            old(self).phase is AwaitExists || old(self).phase is AwaitHash || old(self).phase is AwaitRemove,
        ensures
            run_wf(final(self).state()),
            (final(self).state(), action_view(a)) == skip(old(self).state(), reason@),
    {
        let ghost s0 = self.state();
        let p = self.entries[self.group].delete[self.victim].clone();
        assert(victim_of(s0) == p@);
        let n = self.entries[self.group].delete.len();
        self.report.skipped.push((p, reason));
        self.victim = self.victim + 1;
        self.phase = Phase::Ready;
        proof {
            assert(self.state().report =~= ReportView { skipped: s0.report.skipped.push((victim_of(s0), reason@)), ..s0.report });
            assert(self.state() =~= RunView {
                victim: s0.victim + 1,
                phase: Phase::Ready,
                report: ReportView { skipped: s0.report.skipped.push((victim_of(s0), reason@)), ..s0.report },
                ..s0
            });
        }
        self.advance_exec()
    }

    fn proceed_exec(&mut self) -> (a: ManifestAction)
        requires
            run_wf(old(self).state()),
            old(self).phase is AwaitExists || old(self).phase is AwaitHash,
        ensures
            run_wf(final(self).state()),
            (final(self).state(), action_view(a)) == proceed(old(self).state()),
    {
        let ghost s0 = self.state();
        let p = self.entries[self.group].delete[self.victim].clone();
        assert(victim_of(s0) == p@);
        if self.dry_run {
            let size = self.entries[self.group].size;
            let n = self.entries[self.group].delete.len();
            self.report.would_delete.push(p);
            self.report.bytes_reclaimed = match self.report.bytes_reclaimed.checked_add(size) {
                Some(v) => v,
                None => u64::MAX,
            };
            self.victim = self.victim + 1;
            self.phase = Phase::Ready;
            proof {
                let e = s0.entries[s0.group];
                assert(self.state().report =~= ReportView {
                    would_delete: s0.report.would_delete.push(victim_of(s0)),
                    bytes: sat_add(s0.report.bytes, e.size),
                    ..s0.report
                });
                assert(self.state() =~= RunView {
                    victim: s0.victim + 1,
                    phase: Phase::Ready,
                    report: ReportView {
                        would_delete: s0.report.would_delete.push(victim_of(s0)),
                        bytes: sat_add(s0.report.bytes, e.size),
                        ..s0.report
                    },
                    ..s0
                });
            }
            self.advance_exec()
        } else {
            self.phase = Phase::AwaitRemove;
            assert(self.state() =~= RunView { phase: Phase::AwaitRemove, ..s0 });
            ManifestAction::Remove(p)
        }
    }

    /// Takes the outcome of the last action (`None` at the start) and
    /// returns the next action.
    pub fn next(&mut self, event: Option<ManifestEvent>) -> (a: ManifestAction)
        requires
            run_wf(old(self).state()),
            expects(old(self).state().phase, event_view(event)),
        ensures
            run_wf(final(self).state()),
            (final(self).state(), action_view(a)) == step(old(self).state(), event_view(event)),
    {
        let ghost s0 = self.state();
        match self.phase {
            Phase::Ready => self.advance_exec(),
            Phase::AwaitExists => {
                match event {
                    Some(ManifestEvent::Exists(false)) => self.skip_exec(String::from_str("path no longer exists")),
                    _ => {
                        if self.skip_verify {
                            self.proceed_exec()
                        } else {
                            self.phase = Phase::AwaitHash;
                            let p = self.entries[self.group].delete[self.victim].clone();
                            proof {
                                assert(self.state() =~= RunView { phase: Phase::AwaitHash, ..s0 });
                                assert(victim_of(s0) == p@);
                            }
                            ManifestAction::Verify(p)
                        }
                    },
                }
            },
            Phase::AwaitHash => {
                match event {
                    Some(ManifestEvent::Hashed(Ok(h))) => {
                        assert(s0.entries[s0.group] == entry_view(self.entries@[self.group as int]));
                        if h == self.entries[self.group].hash {
                            self.proceed_exec()
                        } else {
                            self.skip_exec(String::from_str("content changed since manifest was generated"))
                        }
                    },
                    Some(ManifestEvent::Hashed(Err(m))) => {
                        let mut r = String::from_str("could not verify: ");
                        r.append(m.as_str());
                        self.skip_exec(r)
                    },
                    _ => ManifestAction::Done,
                }
            },
            Phase::AwaitRemove => {
                match event {
                    Some(ManifestEvent::Removed(Ok(()))) => {
                        let p = self.entries[self.group].delete[self.victim].clone();
                        let size = self.entries[self.group].size;
                        let n = self.entries[self.group].delete.len();
                        assert(victim_of(s0) == p@);
                        self.report.deleted.push(p);
                        self.report.bytes_reclaimed = match self.report.bytes_reclaimed.checked_add(size) {
                            Some(v) => v,
                            None => u64::MAX,
                        };
                        self.victim = self.victim + 1;
                        self.phase = Phase::Ready;
                        proof {
                            let e = s0.entries[s0.group];
                            assert(self.state().report =~= ReportView {
                                deleted: s0.report.deleted.push(victim_of(s0)),
                                bytes: sat_add(s0.report.bytes, e.size),
                                ..s0.report
                            });
                            assert(self.state() =~= RunView {
                                victim: s0.victim + 1,
                                phase: Phase::Ready,
                                report: ReportView {
                                    deleted: s0.report.deleted.push(victim_of(s0)),
                                    bytes: sat_add(s0.report.bytes, e.size),
                                    ..s0.report
                                },
                                ..s0
                            });
                        }
                        self.advance_exec()
                    },
                    Some(ManifestEvent::Removed(Err(m))) => {
                        let mut r = String::from_str("delete failed: ");
                        r.append(m.as_str());
                        self.skip_exec(r)
                    },
                    _ => ManifestAction::Done,
                }
            },
            Phase::Finished => ManifestAction::Done,
        }
    }

    /// The phase of the run.
    pub fn phase(&self) -> (r: Phase)
        ensures
            r == self.state().phase,
    {
        self.phase
    }
}

/// Moving on never asks to delete and leaves the plan, the modes and the
/// deletions as they are.
proof fn lemma_advance(s: RunView)
    ensures
        !(advance(s).1 is Remove),
        advance(s).0.entries == s.entries,
        advance(s).0.dry_run == s.dry_run,
        advance(s).0.skip_verify == s.skip_verify,
        advance(s).0.report.deleted == s.report.deleted,
        advance(s).0.report.would_delete == s.report.would_delete,
        advance(s).0.report.skipped == s.report.skipped,
        advance(s).0.report.bytes == s.report.bytes,
    decreases s.entries.len() - s.group,
{
    if !(s.group >= s.entries.len() || s.group < 0) {
        let e = s.entries[s.group];
        if s.victim == 0 && refused(e) {
            lemma_advance(RunView {
                group: s.group + 1,
                report: ReportView { refused: s.report.refused.push(refusal_message(e)), ..s.report },
                ..s
            });
        } else if s.victim < e.delete.len() {
        } else {
            lemma_advance(RunView { group: s.group + 1, victim: 0, ..s });
        }
    }
}

/// A run only ever asks to delete the file it is at: a file listed for
/// deletion in a group that is not refused, never the group's kept file
/// (under any spelling equal to it component by component); never in a dry run; only after the file was found to exist and, unless
/// verification is skipped, after its hash was found to match the group's.
pub proof fn lemma_remove_is_safe(s: RunView, ev: Option<EventView>)
    requires
        run_wf(s),
        expects(s.phase, ev),
    ensures
        step(s, ev).1 matches ActionView::Remove(p) ==> {
            &&& !s.dry_run
            &&& s.group < s.entries.len()
            &&& !refused(s.entries[s.group])
            &&& p == victim_of(s)
            &&& s.entries[s.group].delete.contains(p)
            &&& !same_path(p, s.entries[s.group].keep)
            &&& if s.skip_verify {
                ev == Some(EventView::Exists(true))
            } else {
                ev == Some(EventView::Hashed(Ok(s.entries[s.group].hash)))
            }
        },
{
    lemma_advance(s);
    match s.phase {
        Phase::Ready => {},
        Phase::AwaitExists => {
            let sk = RunView {
                victim: s.victim + 1,
                phase: Phase::Ready,
                report: ReportView { skipped: s.report.skipped.push((victim_of(s), "path no longer exists"@)), ..s.report },
                ..s
            };
            lemma_advance(sk);
            if s.dry_run {
                let e = s.entries[s.group];
                lemma_advance(RunView {
                    victim: s.victim + 1,
                    phase: Phase::Ready,
                    report: ReportView {
                        would_delete: s.report.would_delete.push(victim_of(s)),
                        bytes: sat_add(s.report.bytes, e.size),
                        ..s.report
                    },
                    ..s
                });
            }
        },
        Phase::AwaitHash => {
            let e = s.entries[s.group];
            if s.dry_run {
                lemma_advance(RunView {
                    victim: s.victim + 1,
                    phase: Phase::Ready,
                    report: ReportView {
                        would_delete: s.report.would_delete.push(victim_of(s)),
                        bytes: sat_add(s.report.bytes, e.size),
                        ..s.report
                    },
                    ..s
                });
            }
            match ev {
                Some(EventView::Hashed(Ok(h))) => {
                    lemma_advance(RunView {
                        victim: s.victim + 1,
                        phase: Phase::Ready,
                        report: ReportView { skipped: s.report.skipped.push((victim_of(s), "content changed since manifest was generated"@)), ..s.report },
                        ..s
                    });
                },
                Some(EventView::Hashed(Err(m))) => {
                    lemma_advance(RunView {
                        victim: s.victim + 1,
                        phase: Phase::Ready,
                        report: ReportView { skipped: s.report.skipped.push((victim_of(s), "could not verify: "@ + m)), ..s.report },
                        ..s
                    });
                },
                _ => {},
            }
        },
        Phase::AwaitRemove => {
            match ev {
                Some(EventView::Removed(Ok(()))) => {
                    lemma_advance(RunView {
                        victim: s.victim + 1,
                        phase: Phase::Ready,
                        report: ReportView {
                            deleted: s.report.deleted.push(victim_of(s)),
                            bytes: sat_add(s.report.bytes, s.entries[s.group].size),
                            ..s.report
                        },
                        ..s
                    });
                },
                Some(EventView::Removed(Err(m))) => {
                    lemma_advance(RunView {
                        victim: s.victim + 1,
                        phase: Phase::Ready,
                        report: ReportView { skipped: s.report.skipped.push((victim_of(s), "delete failed: "@ + m)), ..s.report },
                        ..s
                    });
                },
                _ => {},
            }
        },
        Phase::Finished => {},
    }
    if step(s, ev).1 is Remove {
        assert(s.entries[s.group].delete[s.victim] == victim_of(s));
        assert(s.entries[s.group].delete.contains(victim_of(s)));
    }
}

/// A dry run and a real run of the same plan stand at the same place, and
/// the dry run's report so far predicts the real one's: what the dry run
/// would delete is what the real run deleted, and the rest is the same.
pub open spec fn dry_mirrors(d: RunView, r: RunView) -> bool {
    &&& d.dry_run
    &&& !r.dry_run
    &&& d.entries == r.entries
    &&& d.skip_verify == r.skip_verify
    &&& d.group == r.group
    &&& d.victim == r.victim
    &&& d.phase == r.phase
    &&& d.report.deleted.len() == 0
    &&& r.report.would_delete.len() == 0
    &&& d.report.would_delete == r.report.deleted
    &&& d.report.skipped == r.report.skipped
    &&& d.report.refused == r.report.refused
    &&& d.report.bytes == r.report.bytes
}

proof fn lemma_advance_mirror(d: RunView, r: RunView)
    requires
        dry_mirrors(d, r),
    ensures
        dry_mirrors(advance(d).0, advance(r).0),
        advance(d).1 == advance(r).1,
    decreases d.entries.len() - d.group,
{
    if !(d.group >= d.entries.len() || d.group < 0) {
        let e = d.entries[d.group];
        if d.victim == 0 && refused(e) {
            lemma_advance_mirror(
                RunView {
                    group: d.group + 1,
                    report: ReportView { refused: d.report.refused.push(refusal_message(e)), ..d.report },
                    ..d
                },
                RunView {
                    group: r.group + 1,
                    report: ReportView { refused: r.report.refused.push(refusal_message(e)), ..r.report },
                    ..r
                },
            );
        } else if d.victim < e.delete.len() {
        } else {
            lemma_advance_mirror(RunView { group: d.group + 1, victim: 0, ..d }, RunView { group: r.group + 1, victim: 0, ..r });
        }
    }
}

/// A dry run predicts a real run in which every removal succeeds. From
/// mirrored states, given the same answer to the same question, the two
/// runs ask the same next question and stay mirrored; the only difference
/// is that the real run first asks to remove the file the dry run counted,
/// and once that removal is answered with success the runs are mirrored
/// again.
pub proof fn lemma_dry_run_predicts_real_run(d: RunView, r: RunView, ev: Option<EventView>)
    requires
        run_wf(d),
        run_wf(r),
        dry_mirrors(d, r),
        expects(d.phase, ev),
    ensures
        !(step(d, ev).1 is Remove),
        !(step(r, ev).1 is Remove) ==> dry_mirrors(step(d, ev).0, step(r, ev).0) && step(d, ev).1 == step(r, ev).1,
        step(r, ev).1 is Remove ==> {
            let r3 = step(step(r, ev).0, Some(EventView::Removed(Ok(()))));
            &&& dry_mirrors(step(d, ev).0, r3.0)
            &&& step(d, ev).1 == r3.1
        },
{
    lemma_advance(d);
    lemma_advance(r);
    lemma_remove_is_safe(d, ev);
    match d.phase {
        Phase::Ready => {
            lemma_advance_mirror(d, r);
        },
        Phase::AwaitExists => {
            match ev {
                Some(EventView::Exists(false)) => {
                    let msg = "path no longer exists"@;
                    lemma_advance_mirror(skip_state(d, msg), skip_state(r, msg));
                },
                _ => {
                    if d.skip_verify {
                        lemma_proceed_mirror(d, r);
                    }
                },
            }
        },
        Phase::AwaitHash => {
            match ev {
                Some(EventView::Hashed(Ok(h))) => {
                    if h == d.entries[d.group].hash {
                        lemma_proceed_mirror(d, r);
                    } else {
                        let msg = "content changed since manifest was generated"@;
                        lemma_advance_mirror(skip_state(d, msg), skip_state(r, msg));
                    }
                },
                Some(EventView::Hashed(Err(m))) => {
                    let msg = "could not verify: "@ + m;
                    lemma_advance_mirror(skip_state(d, msg), skip_state(r, msg));
                },
                _ => {},
            }
        },
        Phase::AwaitRemove => {},
        Phase::Finished => {},
    }
}

/// The dry run counting the current file mirrors the real run removing it.
proof fn lemma_proceed_mirror(d: RunView, r: RunView)
    requires
        run_wf(d),
        run_wf(r),
        dry_mirrors(d, r),
        d.phase is AwaitExists || d.phase is AwaitHash,
    ensures
        !(proceed(d).1 is Remove),
        proceed(r).1 == ActionView::Remove(victim_of(r)),
        ({
            let r3 = step(proceed(r).0, Some(EventView::Removed(Ok(()))));
            &&& dry_mirrors(proceed(d).0, r3.0)
            &&& proceed(d).1 == r3.1
        }),
{
    let e = d.entries[d.group];
    let dp = RunView {
        victim: d.victim + 1,
        phase: Phase::Ready,
        report: ReportView {
            would_delete: d.report.would_delete.push(victim_of(d)),
            bytes: sat_add(d.report.bytes, e.size),
            ..d.report
        },
        ..d
    };
    let r2 = RunView { phase: Phase::AwaitRemove, ..r };
    let rp = RunView {
        victim: r2.victim + 1,
        phase: Phase::Ready,
        report: ReportView {
            deleted: r2.report.deleted.push(victim_of(r2)),
            bytes: sat_add(r2.report.bytes, r2.entries[r2.group].size),
            ..r2.report
        },
        ..r2
    };
    assert(proceed(r).0 == r2);
    assert(step(r2, Some(EventView::Removed(Ok(())))) == advance(rp));
    assert(victim_of(d) == victim_of(r2));
    assert(dry_mirrors(dp, rp));
    lemma_advance(dp);
    lemma_advance_mirror(dp, rp);
}

/// The phase a run waits in after asking for an action.
pub open spec fn action_phase(ph: Phase, a: ActionView) -> bool {
    match a {
        ActionView::CheckExists(_) => ph is AwaitExists,
        ActionView::Verify(_) => ph is AwaitHash,
        ActionView::Remove(_) => ph is AwaitRemove,
        ActionView::Done => ph is Finished,
    }
}

proof fn lemma_advance_wf(s: RunView)
    requires
        run_wf(s),
        s.phase is Ready,
    ensures
        run_wf(advance(s).0),
        action_phase(advance(s).0.phase, advance(s).1),
    decreases s.entries.len() - s.group,
{
    if !(s.group >= s.entries.len() || s.group < 0) {
        let e = s.entries[s.group];
        if s.victim == 0 && refused(e) {
            lemma_advance_wf(RunView {
                group: s.group + 1,
                report: ReportView { refused: s.report.refused.push(refusal_message(e)), ..s.report },
                ..s
            });
        } else if s.victim < e.delete.len() {
        } else {
            lemma_advance_wf(RunView { group: s.group + 1, victim: 0, ..s });
        }
    }
}

/// Every step keeps a run consistent and leaves it waiting for the answer
/// to the action it asks for (or finished, when it asks for nothing).
pub proof fn lemma_step_wf(s: RunView, ev: Option<EventView>)
    requires
        run_wf(s),
        expects(s.phase, ev),
    ensures
        run_wf(step(s, ev).0),
        action_phase(step(s, ev).0.phase, step(s, ev).1),
{
    match s.phase {
        Phase::Ready => {
            lemma_advance_wf(s);
        },
        Phase::Finished => {},
        _ => {
            let e = s.entries[s.group];
            let pr = RunView {
                victim: s.victim + 1,
                phase: Phase::Ready,
                report: ReportView {
                    would_delete: s.report.would_delete.push(victim_of(s)),
                    bytes: sat_add(s.report.bytes, e.size),
                    ..s.report
                },
                ..s
            };
            let del = RunView {
                victim: s.victim + 1,
                phase: Phase::Ready,
                report: ReportView {
                    deleted: s.report.deleted.push(victim_of(s)),
                    bytes: sat_add(s.report.bytes, e.size),
                    ..s.report
                },
                ..s
            };
            if s.dry_run {
                lemma_advance_wf(pr);
            }
            match ev {
                Some(EventView::Exists(false)) => {
                    lemma_advance_wf(skip_state(s, "path no longer exists"@));
                },
                Some(EventView::Hashed(Ok(_))) => {
                    lemma_advance_wf(skip_state(s, "content changed since manifest was generated"@));
                },
                Some(EventView::Hashed(Err(m))) => {
                    lemma_advance_wf(skip_state(s, "could not verify: "@ + m));
                },
                Some(EventView::Removed(Ok(_))) => {
                    lemma_advance_wf(del);
                },
                Some(EventView::Removed(Err(m))) => {
                    lemma_advance_wf(skip_state(s, "delete failed: "@ + m));
                },
                _ => {},
            }
        },
    }
}

/// The answer of a file system to an action: whether a path exists and
/// what hashing it gives, as `exists_at` and `hash_of` say; every removal
/// succeeds.
pub open spec fn answer(exists_at: spec_fn(Seq<char>) -> bool,
    hash_of: spec_fn(Seq<char>) -> Result<Seq<char>, Seq<char>>, a: ActionView) -> Option<EventView> {
    match a {
        ActionView::CheckExists(p) => Some(EventView::Exists(exists_at(p))),
        ActionView::Verify(p) => Some(EventView::Hashed(hash_of(p))),
        ActionView::Remove(_) => Some(EventView::Removed(Ok(()))),
        ActionView::Done => None,
    }
}

/// A run driven for at most `fuel` steps against such a file system,
/// starting with the event `ev`; it stops once the run asks for nothing.
pub open spec fn drive(s: RunView, ev: Option<EventView>, exists_at: spec_fn(Seq<char>) -> bool,
    hash_of: spec_fn(Seq<char>) -> Result<Seq<char>, Seq<char>>, fuel: nat) -> RunView
    decreases fuel,
{
    if fuel == 0 {
        s
    } else {
        let t = step(s, ev);
        if t.1 is Done {
            t.0
        } else {
            drive(t.0, answer(exists_at, hash_of, t.1), exists_at, hash_of, (fuel - 1) as nat)
        }
    }
}

/// A whole dry run predicts the whole real run of the same plan against
/// the same file system, where every removal succeeds (so no file the run
/// looks at changes under it): when the dry run finishes, the real run
/// finishes too, and what the dry run would delete is what the real run
/// deleted, with the same skips, refusals and byte count.
pub proof fn lemma_dry_run_predicts_whole_run(d: RunView, r: RunView, ev: Option<EventView>,
    exists_at: spec_fn(Seq<char>) -> bool, hash_of: spec_fn(Seq<char>) -> Result<Seq<char>, Seq<char>>, n: nat)
    requires
        run_wf(d),
        run_wf(r),
        dry_mirrors(d, r),
        expects(d.phase, ev),
        drive(d, ev, exists_at, hash_of, n).phase is Finished,
    ensures
        exists|m: nat| #[trigger] drive(r, ev, exists_at, hash_of, m).phase is Finished
            && dry_mirrors(drive(d, ev, exists_at, hash_of, n), drive(r, ev, exists_at, hash_of, m)),
    decreases n,
{
    if n == 0 {
        assert(drive(r, ev, exists_at, hash_of, 0) == r);
    } else {
        let sd = step(d, ev);
        let sr = step(r, ev);
        lemma_dry_run_predicts_real_run(d, r, ev);
        lemma_step_wf(d, ev);
        lemma_step_wf(r, ev);
        if !(sr.1 is Remove) {
            if sd.1 is Done {
                assert(drive(r, ev, exists_at, hash_of, 1) == sr.0);
            } else {
                let ev2 = answer(exists_at, hash_of, sd.1);
                lemma_dry_run_predicts_whole_run(sd.0, sr.0, ev2, exists_at, hash_of, (n - 1) as nat);
                let m = choose|m: nat| #[trigger] drive(sr.0, ev2, exists_at, hash_of, m).phase is Finished
                    && dry_mirrors(drive(sd.0, ev2, exists_at, hash_of, (n - 1) as nat), drive(sr.0, ev2, exists_at, hash_of, m));
                assert(drive(r, ev, exists_at, hash_of, m + 1) == drive(sr.0, ev2, exists_at, hash_of, m));
            }
        } else {
            let okev = Some(EventView::Removed(Ok(())));
            assert(answer(exists_at, hash_of, sr.1) == okev);
            let r3 = step(sr.0, okev);
            lemma_step_wf(sr.0, okev);
            if sd.1 is Done {
                assert(drive(sr.0, okev, exists_at, hash_of, 1) == r3.0);
                assert(drive(r, ev, exists_at, hash_of, 2) == r3.0);
            } else {
                let ev2 = answer(exists_at, hash_of, sd.1);
                lemma_dry_run_predicts_whole_run(sd.0, r3.0, ev2, exists_at, hash_of, (n - 1) as nat);
                let m = choose|m: nat| #[trigger] drive(r3.0, ev2, exists_at, hash_of, m).phase is Finished
                    && dry_mirrors(drive(sd.0, ev2, exists_at, hash_of, (n - 1) as nat), drive(r3.0, ev2, exists_at, hash_of, m));
                assert(drive(sr.0, okev, exists_at, hash_of, m + 1) == drive(r3.0, ev2, exists_at, hash_of, m));
                assert(drive(r, ev, exists_at, hash_of, m + 2) == drive(sr.0, okev, exists_at, hash_of, m + 1));
            }
        }
    }
}

/// The state a run of a plan starts in.
pub open spec fn start_state(entries: Seq<EntryView>, dry_run: bool, skip_verify: bool) -> RunView {
    RunView {
        entries,
        dry_run,
        skip_verify,
        group: 0,
        victim: 0,
        phase: Phase::Ready,
        report: ReportView {
            deleted: Seq::empty(),
            would_delete: Seq::empty(),
            skipped: Seq::empty(),
            refused: Seq::empty(),
            bytes: 0,
        },
    }
}

/// A dry run of a plan predicts its real run against the same file
/// system, where every removal succeeds: once the dry run is over, so is
/// the real run, the files the dry run would delete are the files the real
/// run deleted, in order, and the skips, refusals and bytes are the same.
pub proof fn lemma_dry_run_predicts_plan(entries: Seq<EntryView>, skip_verify: bool,
    exists_at: spec_fn(Seq<char>) -> bool, hash_of: spec_fn(Seq<char>) -> Result<Seq<char>, Seq<char>>, n: nat)
    requires
        drive(start_state(entries, true, skip_verify), None, exists_at, hash_of, n).phase is Finished,
    ensures
        exists|m: nat| {
            let d = drive(start_state(entries, true, skip_verify), None, exists_at, hash_of, n);
            let r = #[trigger] drive(start_state(entries, false, skip_verify), None, exists_at, hash_of, m);
            &&& r.phase is Finished
            &&& d.report.deleted.len() == 0
            &&& r.report.would_delete.len() == 0
            &&& d.report.would_delete == r.report.deleted
            &&& d.report.skipped == r.report.skipped
            &&& d.report.refused == r.report.refused
            &&& d.report.bytes == r.report.bytes
        },
{
    let d0 = start_state(entries, true, skip_verify);
    let r0 = start_state(entries, false, skip_verify);
    lemma_dry_run_predicts_whole_run(d0, r0, None, exists_at, hash_of, n);
}

/// Once a run is done with a file (skipped, deleted, or counted in a dry
/// run) it moves on to the next file listed for deletion in the same
/// group and asks whether that one exists: a skip never abandons the rest
/// of its group.
pub proof fn lemma_done_with_file_moves_on(s: RunView, ev: Option<EventView>)
    requires
        run_wf(s),
        expects(s.phase, ev),
        s.phase is AwaitExists || s.phase is AwaitHash || s.phase is AwaitRemove,
        !(step(s, ev).1 is Verify),
        !(step(s, ev).1 is Remove),
        s.victim + 1 < s.entries[s.group].delete.len(),
    ensures
        step(s, ev).0.group == s.group,
        step(s, ev).0.victim == s.victim + 1,
        step(s, ev).1 == ActionView::CheckExists(s.entries[s.group].delete[s.victim + 1]),
{
}

/// Each file deleted, or counted in a dry run, adds its group's size to
/// the bytes reclaimed (which stay at `u64::MAX` once they reach it); no
/// other step changes the count.
pub proof fn lemma_bytes_follow_deletions(s: RunView, ev: Option<EventView>)
    requires
        run_wf(s),
        expects(s.phase, ev),
    ensures
        ({
            let t = step(s, ev).0;
            let before = s.report.deleted.len() + s.report.would_delete.len();
            let after = t.report.deleted.len() + t.report.would_delete.len();
            &&& after == before || after == before + 1
            &&& after == before ==> t.report.bytes == s.report.bytes
            &&& after == before + 1 ==> t.report.bytes as int == (if s.report.bytes + s.entries[s.group].size <= u64::MAX {
                    s.report.bytes + s.entries[s.group].size
                } else {
                    u64::MAX as int
                })
        }),
{
    lemma_advance(s);
    match s.phase {
        Phase::Ready => {},
        Phase::Finished => {},
        _ => {
            let e = s.entries[s.group];
            let pr = RunView {
                victim: s.victim + 1,
                phase: Phase::Ready,
                report: ReportView {
                    would_delete: s.report.would_delete.push(victim_of(s)),
                    bytes: sat_add(s.report.bytes, e.size),
                    ..s.report
                },
                ..s
            };
            let del = RunView {
                victim: s.victim + 1,
                phase: Phase::Ready,
                report: ReportView {
                    deleted: s.report.deleted.push(victim_of(s)),
                    bytes: sat_add(s.report.bytes, e.size),
                    ..s.report
                },
                ..s
            };
            lemma_advance(pr);
            lemma_advance(del);
            lemma_advance(skip_state(s, "path no longer exists"@));
            lemma_advance(skip_state(s, "content changed since manifest was generated"@));
            match ev {
                Some(EventView::Hashed(Err(m))) => { lemma_advance(skip_state(s, "could not verify: "@ + m)); },
                Some(EventView::Removed(Err(m))) => { lemma_advance(skip_state(s, "delete failed: "@ + m)); },
                _ => {},
            }
        },
    }
}

/// Every deleted file was listed for deletion in a group that is not
/// refused, and is not that group's kept file.
pub open spec fn deletions_safe(s: RunView) -> bool {
    safe_list(s.entries, s.report.deleted)
}

pub open spec fn safe_list(entries: Seq<EntryView>, deleted: Seq<Seq<char>>) -> bool {
    forall|k: int| 0 <= k < deleted.len() ==> #[trigger] deletable_by(entries, deleted[k])
}

/// Some entry may delete `p`.
pub open spec fn deletable_by(entries: Seq<EntryView>, p: Seq<char>) -> bool {
    exists|i: int| 0 <= i < entries.len() && #[trigger] deletable_in(entries[i], p)
}

proof fn lemma_safe_push(entries: Seq<EntryView>, deleted: Seq<Seq<char>>, i: int)
    requires
        safe_list(entries, deleted),
        0 <= i < entries.len(),
    ensures
        forall|p: Seq<char>| deletable_in(entries[i], p) ==> safe_list(entries, #[trigger] deleted.push(p)),
{
    assert forall|p: Seq<char>| deletable_in(entries[i], p) implies safe_list(entries, #[trigger] deleted.push(p)) by {
        assert forall|k: int| 0 <= k < deleted.push(p).len() implies #[trigger] deletable_by(entries, deleted.push(p)[k]) by {
            if k < deleted.len() {
                assert(deleted.push(p)[k] == deleted[k]);
            } else {
                assert(deleted.push(p)[k] == p);
            }
        }
    }
}

/// `p` is a file the entry may delete: listed for deletion in a group
/// that is not refused, and not the kept file under any spelling equal
/// to it component by component.
pub open spec fn deletable_in(e: EntryView, p: Seq<char>) -> bool {
    &&& !refused(e)
    &&& e.delete.contains(p)
    &&& !same_path(p, e.keep)
}

/// No step of a run deletes a kept file (or a file of a refused group),
/// and in a dry run no step deletes anything.
pub proof fn lemma_step_keeps_deletions_safe(s: RunView, ev: Option<EventView>)
    requires
        run_wf(s),
        expects(s.phase, ev),
        deletions_safe(s),
    ensures
        deletions_safe(step(s, ev).0),
        step(s, ev).0.entries == s.entries,
        s.dry_run ==> step(s, ev).0.report.deleted == s.report.deleted,
{
    lemma_advance(s);
    let t = step(s, ev).0;
    match s.phase {
        Phase::Ready => {},
        Phase::Finished => {},
        _ => {
            let e = s.entries[s.group];
            let pr = RunView {
                victim: s.victim + 1,
                phase: Phase::Ready,
                report: ReportView {
                    would_delete: s.report.would_delete.push(victim_of(s)),
                    bytes: sat_add(s.report.bytes, e.size),
                    ..s.report
                },
                ..s
            };
            let del = RunView {
                victim: s.victim + 1,
                phase: Phase::Ready,
                report: ReportView {
                    deleted: s.report.deleted.push(victim_of(s)),
                    bytes: sat_add(s.report.bytes, e.size),
                    ..s.report
                },
                ..s
            };
            lemma_advance(skip_state(s, "path no longer exists"@));
            lemma_advance(skip_state(s, "content changed since manifest was generated"@));
            lemma_advance(pr);
            lemma_advance(del);
            match ev {
                Some(EventView::Hashed(Err(m))) => { lemma_advance(skip_state(s, "could not verify: "@ + m)); },
                Some(EventView::Removed(Err(m))) => { lemma_advance(skip_state(s, "delete failed: "@ + m)); },
                _ => {},
            }
            if s.phase is AwaitRemove && ev matches Some(EventView::Removed(Ok(_))) {
                assert(e.delete.contains(victim_of(s))) by {
                    assert(e.delete[s.victim] == victim_of(s));
                }
                assert(t.report.deleted == s.report.deleted.push(victim_of(s)));
                assert(deletable_in(s.entries[s.group], victim_of(s)));
                lemma_safe_push(s.entries, s.report.deleted, s.group);
                assert(deletions_safe(t));
            } else {
                assert(t.report.deleted == s.report.deleted);
            }
        },
    }
    assert(t.entries == s.entries);
}
} // verus!
