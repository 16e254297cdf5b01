//! The table of active build jobs and its update on each poll.
use vstd::prelude::*;
use std::collections::HashMap;
use crate::pattern::{is_job_process, is_job_words, parse_job_tag, parse_tag};
use crate::snapshot::{
    lemma_find_in_range, lemma_invocation_ancestor_in_range, is_invocation_proc,
    distinct_pids, find, invocation_ancestor, lemma_job_ancestor_in_range, invocation_pids, is_first_pid, is_live,
    is_worker_proc, job_ancestor, proc_words, ProcView, Snapshot,
};
use crate::text::{char_views, string_of};

verus! {

broadcast use vstd::std_specs::hash::group_hash_axioms;

/// The mathematical model of a build job.
pub struct JobView {
    pub category: Seq<char>,
    pub package: Seq<char>,
    pub version: Seq<char>,
    pub phase: Seq<char>,
    pub create_time: u64,
}

/// One build phase in progress.
#[derive(Clone)]
pub struct BuildJob {
    /// Package category, such as `sys-kernel`.
    pub category: String,
    /// Package name.
    pub package: String,
    /// Package version.
    pub version: String,
    /// Build phase, such as `compile`.
    pub phase: String,
    /// Wall-clock creation time of the job-defining process, in nanoseconds
    /// since the Unix epoch. Each phase starts a new process, so this resets
    /// with each phase.
    pub create_time: u64,
}

impl View for BuildJob {
    type V = JobView;

    open spec fn view(&self) -> JobView {
        JobView {
            category: self.category@,
            package: self.package@,
            version: self.version@,
            phase: self.phase@,
            create_time: self.create_time,
        }
    }
}

impl PartialEq for BuildJob {
    fn eq(&self, o: &BuildJob) -> (r: bool) {
        self.category == o.category && self.package == o.package && self.version == o.version
            && self.phase == o.phase && self.create_time == o.create_time
    }
}

impl vstd::std_specs::cmp::PartialEqSpecImpl for BuildJob {
    open spec fn obeys_eq_spec() -> bool {
        true
    }

    open spec fn eq_spec(&self, o: &BuildJob) -> bool {
        self@ == o@
    }
}

/// The two readings that turn a time since boot into wall-clock time.
#[derive(Clone, Copy)]
pub struct Clock {
    /// Time since boot, in nanoseconds.
    pub uptime: u64,
    /// Time since the Unix epoch, in nanoseconds.
    pub now: u64,
}

/// Wall-clock time of an instant given as time since boot: boot happened
/// `uptime` before `now`.
pub open spec fn wall_time(since_boot: u64, clock: Clock) -> u64 {
    (clock.now - clock.uptime + since_boot) as u64
}

/// The clock readings can convert `since_boot`: the uptime does not exceed
/// the wall time and the result fits in a `u64`.
pub open spec fn converts(clock: Clock, since_boot: u64) -> bool {
    clock.uptime <= clock.now && clock.now - clock.uptime + since_boot <= u64::MAX
}

/// The clock readings can convert the creation time of every process of `ps`.
pub open spec fn clock_fits(clock: Clock, ps: Seq<ProcView>) -> bool {
    forall|k: int| 0 <= k < ps.len() ==> converts(clock, #[trigger] ps[k].start_time)
}

/// Converts a process creation time since boot into wall-clock time.
pub fn proc_time_to_unix_time(proc_time: u64, clock: Clock) -> (r: u64)
    requires
        converts(clock, proc_time),
    ensures
        r == wall_time(proc_time, clock),
{
    clock.now - clock.uptime + proc_time
}

/// Whether the clock readings can convert the creation time of every process
/// of the snapshot.
pub fn fits_clock(snap: &Snapshot, clock: Clock) -> (r: bool)
    ensures
        r == clock_fits(clock, snap@),
{
    if clock.uptime > clock.now {
        assert(snap@.len() > 0 ==> !converts(clock, snap@[0].start_time));
        return snap.procs.len() == 0;
    }
    let boot = clock.now - clock.uptime;
    let mut i: usize = 0;
    while i < snap.procs.len()
        invariant
            i <= snap@.len(),
            boot == clock.now - clock.uptime,
            clock.uptime <= clock.now,
            forall|k: int| 0 <= k < i ==> converts(clock, #[trigger] snap@[k].start_time),
        decreases snap.procs.len() - i,
    {
        if snap.procs[i].start_time > u64::MAX - boot {
            assert(!converts(clock, snap@[i as int].start_time));
            return false;
        }
        i = i + 1;
    }
    true
}

/// The job that the job-defining process at `j` describes, with the
/// identifier of the invocation that manages it; none where its tag holds no
/// `/` or no invocation is found above it.
pub open spec fn outcome(ps: Seq<ProcView>, j: int, clock: Clock) -> Option<(u32, JobView)> {
    match proc_words(ps[j]) {
        None => None,
        Some(w) => if !is_job_words(w) {
            None
        } else {
            match parse_tag(w[0]) {
                None => None,
                Some((c, p, v)) => match invocation_ancestor(ps, j, ps.len()) {
                    None => None,
                    Some(m) => Some(
                        (
                            ps[m].pid,
                            JobView {
                                category: c,
                                package: p,
                                version: v,
                                phase: w[3],
                                create_time: wall_time(ps[j].start_time, clock),
                            },
                        ),
                    ),
                },
            }
        },
    }
}

/// The outcome for the live process `q`.
pub open spec fn result_for(ps: Seq<ProcView>, clock: Clock, q: u32) -> Option<(u32, JobView)> {
    match find(ps, q) {
        Some(j) => outcome(ps, j, clock),
        None => None,
    }
}

/// The job of the outcome for `q`.
pub open spec fn placed_job(ps: Seq<ProcView>, clock: Clock, q: u32) -> JobView {
    match result_for(ps, clock, q) {
        Some((_, job)) => job,
        None => arbitrary(),
    }
}

/// Some worker among the first `upto` processes has `q` as its
/// job-defining ancestor.
pub open spec fn defines(ps: Seq<ProcView>, q: u32, upto: int) -> bool {
    exists|c: int| 0 <= c < upto && #[trigger] worker_defines(ps, c, q)
}

/// The process at `c` is a worker whose job-defining ancestor is `q`.
pub open spec fn worker_defines(ps: Seq<ProcView>, c: int, q: u32) -> bool {
    is_worker_proc(ps[c]) && match job_ancestor(ps, c, ps.len()) {
        Some(j) => ps[j].pid == q,
        None => false,
    }
}

/// The job of process `q` is to be filed under invocation `m`, judging by the
/// first `upto` processes.
pub open spec fn placed(ps: Seq<ProcView>, clock: Clock, upto: int, m: u32, q: u32) -> bool {
    defines(ps, q, upto) && match result_for(ps, clock, q) {
        Some((mm, _)) => mm == m,
        None => false,
    }
}

/// The jobs of an invocation whose process is still live.
pub open spec fn live_jobs(jobs: Map<u32, JobView>, ps: Seq<ProcView>) -> Map<u32, JobView> {
    Map::new(|q: u32| jobs.contains_key(q) && is_live(ps, q), |q: u32| jobs[q])
}

/// The table without the invocations and the jobs whose processes are gone.
pub open spec fn pruned(t: Map<u32, Map<u32, JobView>>, ps: Seq<ProcView>) -> Map<u32, Map<u32, JobView>> {
    Map::new(|m: u32| t.contains_key(m) && is_live(ps, m), |m: u32| live_jobs(t[m], ps))
}

/// The table with an empty job set for each key of `s` it lacks.
pub open spec fn with_keys(t: Map<u32, Map<u32, JobView>>, s: Set<u32>) -> Map<u32, Map<u32, JobView>> {
    Map::new(
        |m: u32| t.contains_key(m) || s.contains(m),
        |m: u32| if t.contains_key(m) { t[m] } else { Map::empty() },
    )
}

/// The table with the jobs found among the first `upto` processes filed in.
pub open spec fn applied(
    b: Map<u32, Map<u32, JobView>>,
    ps: Seq<ProcView>,
    clock: Clock,
    upto: int,
) -> Map<u32, Map<u32, JobView>> {
    Map::new(
        |m: u32| b.contains_key(m) || exists|q: u32| placed(ps, clock, upto, m, q),
        |m: u32|
            Map::new(
                |q: u32| (b.contains_key(m) && b[m].contains_key(q)) || placed(ps, clock, upto, m, q),
                |q: u32|
                    if placed(ps, clock, upto, m, q) {
                        placed_job(ps, clock, q)
                    } else {
                        b[m][q]
                    },
            ),
    )
}

/// The table after pruning and after adding every live invocation.
pub open spec fn base(t: Map<u32, Map<u32, JobView>>, ps: Seq<ProcView>) -> Map<u32, Map<u32, JobView>> {
    with_keys(pruned(t, ps), invocation_pids(ps))
}

/// The table after one poll against the snapshot `ps`.
pub open spec fn next_table(t: Map<u32, Map<u32, JobView>>, ps: Seq<ProcView>, clock: Clock) -> Map<
    u32,
    Map<u32, JobView>,
> {
    applied(base(t, ps), ps, clock, ps.len() as int)
}

/// The table with job `job` filed under invocation `m` and process `q`.
pub open spec fn set_job(t: Map<u32, Map<u32, JobView>>, m: u32, q: u32, job: JobView) -> Map<u32, Map<u32, JobView>> {
    t.insert(m, (if t.contains_key(m) { t[m] } else { Map::empty() }).insert(q, job))
}

/// The job-defining process of the worker at `c` and what it describes.
pub open spec fn contribution(ps: Seq<ProcView>, clock: Clock, c: int) -> Option<(u32, u32, JobView)> {
    if is_worker_proc(ps[c]) {
        match job_ancestor(ps, c, ps.len()) {
            Some(j) => match outcome(ps, j, clock) {
                Some((m, job)) => Some((m, ps[j].pid, job)),
                None => None,
            },
            None => None,
        }
    } else {
        None
    }
}

/// With distinct identifiers, a process is found at its own position.
pub proof fn lemma_find_own(ps: Seq<ProcView>, j: int)
    requires
        distinct_pids(ps),
        0 <= j < ps.len(),
    ensures
        find(ps, ps[j].pid) == Some(j),
{
    assert(is_first_pid(ps, ps[j].pid, j));
    let k = choose|k: int| is_first_pid(ps, ps[j].pid, k);
    assert(k == j);
}

/// Filing in the jobs of one more process changes the table by that
/// process's contribution alone.
proof fn lemma_applied_step(b: Map<u32, Map<u32, JobView>>, ps: Seq<ProcView>, clock: Clock, c: int)
    requires
        distinct_pids(ps),
        0 <= c < ps.len(),
    ensures
        match contribution(ps, clock, c) {
            Some((m, q, job)) => applied(b, ps, clock, c + 1) == set_job(applied(b, ps, clock, c), m, q, job),
            None => applied(b, ps, clock, c + 1) == applied(b, ps, clock, c),
        },
{
    let n = ps.len();
    assert forall|q: u32| #[trigger] defines(ps, q, c + 1) <==> (defines(ps, q, c) || worker_defines(ps, c, q)) by {
        if defines(ps, q, c + 1) {
            let x = choose|x: int| 0 <= x < c + 1 && #[trigger] worker_defines(ps, x, q);
            if x < c {
                assert(defines(ps, q, c));
            }
        }
        if defines(ps, q, c) {
            let x = choose|x: int| 0 <= x < c && #[trigger] worker_defines(ps, x, q);
            assert(defines(ps, q, c + 1));
        }
        if worker_defines(ps, c, q) {
            assert(defines(ps, q, c + 1));
        }
    }
    let a0 = applied(b, ps, clock, c);
    let a1 = applied(b, ps, clock, c + 1);
    if is_worker_proc(ps[c]) && job_ancestor(ps, c, n) is Some {
        let j = job_ancestor(ps, c, n)->0;
        lemma_job_ancestor_in_range(ps, c, n);
        lemma_find_own(ps, j);
        assert(result_for(ps, clock, ps[j].pid) == outcome(ps, j, clock));
    }
    match contribution(ps, clock, c) {
        Some((m, q, job)) => {
            assert(worker_defines(ps, c, q));
            assert(placed(ps, clock, c + 1, m, q));
            assert(placed_job(ps, clock, q) == job);
            assert forall|mm: u32, qq: u32| #[trigger] placed(ps, clock, c + 1, mm, qq) <==> (placed(ps, clock, c, mm, qq) || (mm == m && qq == q)) by {
                if worker_defines(ps, c, qq) {
                    assert(qq == q);
                }
            }
            let s = set_job(a0, m, q, job);
            assert forall|mm: u32| #[trigger] a1.contains_key(mm) == s.contains_key(mm) by {
                if a1.contains_key(mm) && !b.contains_key(mm) && mm != m {
                    let qq = choose|qq: u32| #[trigger] placed(ps, clock, c + 1, mm, qq);
                    assert(placed(ps, clock, c, mm, qq));
                }
                if a0.contains_key(mm) && !b.contains_key(mm) {
                    let qq = choose|qq: u32| #[trigger] placed(ps, clock, c, mm, qq);
                    assert(placed(ps, clock, c + 1, mm, qq));
                }
            }
            assert forall|mm: u32| #[trigger] a1.contains_key(mm) implies a1[mm] == s[mm] by {
                assert(a1[mm] =~= s[mm]);
            }
            assert(a1 =~= s);
        },
        None => {
            assert forall|mm: u32, qq: u32| #[trigger] placed(ps, clock, c + 1, mm, qq) <==> placed(ps, clock, c, mm, qq) by {
                if placed(ps, clock, c + 1, mm, qq) && worker_defines(ps, c, qq) {
                    let j = job_ancestor(ps, c, n)->0;
                    assert(ps[j].pid == qq);
                }
            }
            assert forall|mm: u32| #[trigger] a1.contains_key(mm) == a0.contains_key(mm) by {
                if a1.contains_key(mm) && !b.contains_key(mm) {
                    let qq = choose|qq: u32| #[trigger] placed(ps, clock, c + 1, mm, qq);
                    assert(placed(ps, clock, c, mm, qq));
                }
                if a0.contains_key(mm) && !b.contains_key(mm) {
                    let qq = choose|qq: u32| #[trigger] placed(ps, clock, c, mm, qq);
                    assert(placed(ps, clock, c + 1, mm, qq));
                }
            }
            assert forall|mm: u32| #[trigger] a1.contains_key(mm) implies a1[mm] == a0[mm] by {
                assert(a1[mm] =~= a0[mm]);
            }
            assert(a1 =~= a0);
        },
    }
}

/// Every invocation and every job of the table has a live process.
pub open spec fn all_live(t: Map<u32, Map<u32, JobView>>, ps: Seq<ProcView>) -> bool {
    forall|m: u32| #[trigger] t.contains_key(m) ==> is_live(ps, m) && forall|q: u32| #[trigger] t[m].contains_key(q) ==> is_live(ps, q)
}

/// The invocation an outcome names is live.
proof fn lemma_outcome_live(ps: Seq<ProcView>, j: int, clock: Clock)
    requires
        0 <= j < ps.len(),
    ensures
        outcome(ps, j, clock) matches Some((m, _)) ==> is_live(ps, m),
{
    lemma_invocation_ancestor_in_range(ps, j, ps.len());
    if let Some((m, _)) = outcome(ps, j, clock) {
        let k = invocation_ancestor(ps, j, ps.len())->0;
        assert(ps[k].pid == m);
    }
}

/// A job that is filed in names a live invocation and a live process.
proof fn lemma_placed_live(ps: Seq<ProcView>, clock: Clock, upto: int, m: u32, q: u32)
    requires
        placed(ps, clock, upto, m, q),
    ensures
        is_live(ps, m),
        is_live(ps, q),
{
    lemma_find_in_range(ps, q);
    let j = find(ps, q)->0;
    lemma_outcome_live(ps, j, clock);
}

/// After a poll, every entry of the table has a live process.
pub proof fn lemma_next_all_live(t: Map<u32, Map<u32, JobView>>, ps: Seq<ProcView>, clock: Clock)
    ensures
        all_live(next_table(t, ps, clock), ps),
{
    let f = next_table(t, ps, clock);
    let b = base(t, ps);
    let p1 = pruned(t, ps);
    let n = ps.len() as int;
    assert forall|m: u32| #[trigger] f.contains_key(m) implies is_live(ps, m) && forall|q: u32| #[trigger] f[m].contains_key(q) ==> is_live(ps, q) by {
        if !b.contains_key(m) {
            let q = choose|q: u32| #[trigger] placed(ps, clock, n, m, q);
            lemma_placed_live(ps, clock, n, m, q);
        } else if !p1.contains_key(m) {
            assert(invocation_pids(ps).contains(m));
        }
        assert forall|q: u32| #[trigger] f[m].contains_key(q) implies is_live(ps, q) by {
            if placed(ps, clock, n, m, q) {
                lemma_placed_live(ps, clock, n, m, q);
            } else {
                assert(b[m].contains_key(q));
                assert(p1.contains_key(m));
            }
        }
    }
}

/// A poll changes the table exactly where one of its three steps does.
proof fn lemma_tick_change(t: Map<u32, Map<u32, JobView>>, ps: Seq<ProcView>, clock: Clock)
    ensures
        (pruned(t, ps) != t || base(t, ps) != pruned(t, ps) || next_table(t, ps, clock) != base(t, ps))
            == (next_table(t, ps, clock) != t),
{
    let f = next_table(t, ps, clock);
    let b = base(t, ps);
    let p1 = pruned(t, ps);
    if f == t {
        lemma_next_all_live(t, ps, clock);
        assert forall|m: u32| #[trigger] p1.contains_key(m) == t.contains_key(m) by {}
        assert forall|m: u32| #[trigger] p1.contains_key(m) implies p1[m] == t[m] by {
            assert(p1[m] =~= t[m]);
        }
        assert(p1 =~= t);
        assert forall|m: u32| #[trigger] b.contains_key(m) == p1.contains_key(m) by {
            if b.contains_key(m) {
                assert(f.contains_key(m));
            }
        }
        assert(b =~= p1);
    }
}

/// Polling twice against one snapshot leaves the table as the first poll
/// left it.
pub proof fn lemma_poll_idempotent(t: Map<u32, Map<u32, JobView>>, ps: Seq<ProcView>, clock: Clock)
    ensures
        next_table(next_table(t, ps, clock), ps, clock) == next_table(t, ps, clock),
{
    let f = next_table(t, ps, clock);
    let b = base(t, ps);
    let n = ps.len() as int;
    lemma_next_all_live(t, ps, clock);
    let p2 = pruned(f, ps);
    assert forall|m: u32| #[trigger] p2.contains_key(m) implies p2[m] == f[m] by {
        assert(p2[m] =~= f[m]);
    }
    assert(p2 =~= f);
    let b2 = base(f, ps);
    assert forall|m: u32| #[trigger] b2.contains_key(m) == f.contains_key(m) by {
        if invocation_pids(ps).contains(m) {
            assert(b.contains_key(m));
        }
    }
    assert(b2 =~= f);
    let f2 = next_table(f, ps, clock);
    assert forall|m: u32| #[trigger] f2.contains_key(m) implies f2[m] == f[m] by {
        assert(f2[m] =~= f[m]);
    }
    assert(f2 =~= f);
}

/// A process that is gone keys nothing in the table after a poll, and a
/// table that held it is changed by the poll.
pub proof fn lemma_vanished_removed(t: Map<u32, Map<u32, JobView>>, ps: Seq<ProcView>, clock: Clock, q: u32)
    requires
        !is_live(ps, q),
    ensures
        !next_table(t, ps, clock).contains_key(q),
        forall|m: u32| #[trigger] next_table(t, ps, clock).contains_key(m) ==> !next_table(t, ps, clock)[m].contains_key(q),
        (t.contains_key(q) || exists|m: u32| #[trigger] t.contains_key(m) && t[m].contains_key(q))
            ==> next_table(t, ps, clock) != t,
{
    lemma_next_all_live(t, ps, clock);
}

/// Where no worker has a job-defining ancestor, a poll only prunes the table
/// and adds the live invocations.
pub proof fn lemma_unmatched_workers(t: Map<u32, Map<u32, JobView>>, ps: Seq<ProcView>, clock: Clock)
    requires
        forall|c: int| 0 <= c < ps.len() && #[trigger] is_worker_proc(ps[c]) ==> job_ancestor(ps, c, ps.len()) is None,
    ensures
        next_table(t, ps, clock) == base(t, ps),
{
    let f = next_table(t, ps, clock);
    let b = base(t, ps);
    let n = ps.len() as int;
    assert forall|m: u32, q: u32| !#[trigger] placed(ps, clock, n, m, q) by {
        if placed(ps, clock, n, m, q) {
            let c = choose|c: int| 0 <= c < n && #[trigger] worker_defines(ps, c, q);
        }
    }
    assert forall|m: u32| #[trigger] f.contains_key(m) implies f[m] == b[m] by {
        assert(f[m] =~= b[m]);
    }
    assert(f =~= b);
}

/// A job-defining process with no invocation above it is filed under no
/// invocation by a poll, unless the table held it already.
pub proof fn lemma_unmanaged_absent(t: Map<u32, Map<u32, JobView>>, ps: Seq<ProcView>, clock: Clock, j: int)
    requires
        distinct_pids(ps),
        0 <= j < ps.len(),
        invocation_ancestor(ps, j, ps.len()) is None,
        forall|m: u32| #[trigger] t.contains_key(m) ==> !t[m].contains_key(ps[j].pid),
    ensures
        forall|m: u32| #[trigger] next_table(t, ps, clock).contains_key(m) ==> !next_table(t, ps, clock)[m].contains_key(ps[j].pid),
{
    let q = ps[j].pid;
    lemma_find_own(ps, j);
    let b = base(t, ps);
    let p1 = pruned(t, ps);
    assert forall|m: u32| #[trigger] b.contains_key(m) implies !b[m].contains_key(q) by {
        if p1.contains_key(m) {
            assert(!t[m].contains_key(q));
        }
    }
}

/// Where no process is a worker or an invocation, a poll leaves a table
/// whose entries are all live as it is.
pub proof fn lemma_non_candidates_keep_table(t: Map<u32, Map<u32, JobView>>, ps: Seq<ProcView>, clock: Clock)
    requires
        all_live(t, ps),
        forall|k: int| 0 <= k < ps.len() ==> !#[trigger] is_worker_proc(ps[k]) && !is_invocation_proc(ps[k]),
    ensures
        next_table(t, ps, clock) == t,
{
    let p1 = pruned(t, ps);
    assert forall|m: u32| #[trigger] p1.contains_key(m) implies p1[m] == t[m] by {
        assert(p1[m] =~= t[m]);
    }
    assert(p1 =~= t);
    assert forall|pid: u32| !#[trigger] invocation_pids(ps).contains(pid) by {
        if invocation_pids(ps).contains(pid) {
            let k = choose|k: int| 0 <= k < ps.len() && ps[k].pid == pid && is_invocation_proc(ps[k]);
            assert(!is_worker_proc(ps[k]));
        }
    }
    assert(invocation_pids(ps) =~= Set::empty());
    assert(base(t, ps) =~= t);
    lemma_unmatched_workers(t, ps, clock);
}

/// What the job-defining process at `j` describes, with the identifier of the
/// invocation that manages it.
fn job_outcome(snap: &Snapshot, j: usize, clock: Clock) -> (r: Option<(u32, BuildJob)>)
    requires
        j < snap@.len(),
        clock_fits(clock, snap@),
    ensures
        match r {
            Some((m, job)) => outcome(snap@, j as int, clock) == Some((m, job@)),
            None => outcome(snap@, j as int, clock) is None,
        },
{
    let w = match snap.procs[j].command_words() {
        Some(w) => w,
        None => return None,
    };
    if !is_job_process(&w) {
        return None;
    }
    assert(char_views(w@)[0] == w@[0]@);
    let (category, package, version) = match parse_job_tag(w[0].as_slice()) {
        Some(t) => t,
        None => return None,
    };
    let mi = match snap.invocation_ancestor_of(j) {
        Some(mi) => mi,
        None => return None,
    };
    assert(char_views(w@)[3] == w@[3]@);
    let phase = string_of(w[3].as_slice());
    assert(converts(clock, snap@[j as int].start_time));
    let create_time = proc_time_to_unix_time(snap.procs[j].start_time, clock);
    let job = BuildJob { category, package, version, phase, create_time };
    Some((snap.procs[mi].pid, job))
}

/// The view of a job set.
pub open spec fn jobs_view(h: Map<u32, BuildJob>) -> Map<u32, JobView> {
    Map::new(|q: u32| h.contains_key(q), |q: u32| h[q]@)
}

/// The view of a table.
pub open spec fn table_view(a: Map<u32, HashMap<u32, BuildJob>>) -> Map<u32, Map<u32, JobView>> {
    Map::new(|m: u32| a.contains_key(m), |m: u32| jobs_view(a[m]@))
}

/// Tracks the active build jobs, grouped by the build-tool invocation that
/// manages them.
pub struct EbuildProcWatcher {
    active: HashMap<u32, HashMap<u32, BuildJob>>,
}

impl View for EbuildProcWatcher {
    type V = Map<u32, Map<u32, JobView>>;

    closed spec fn view(&self) -> Map<u32, Map<u32, JobView>> {
        table_view(self.active@)
    }
}

/// The identifiers that key `m`, each once.
fn key_list<V>(m: &HashMap<u32, V>) -> (r: Vec<u32>)
    ensures
        r@.to_set() == m@.dom(),
        r@.no_duplicates(),
{
    let mut out: Vec<u32> = Vec::new();
    for k in it: m.keys()
        invariant
            out@ == it.seq().take(it.index() as int).unref(),
            it.seq().unref().to_set() == m@.dom(),
            it.index() == it.seq().len() ==> out@ =~= it.seq().unref(),
    {
        out.push(*k);
        assert(it.seq().take(it.index() + 1).unref() =~= out@);
    }
    out
}

proof fn lemma_take_contains(keys: Seq<u32>, i: int)
    requires
        0 <= i < keys.len(),
    ensures
        forall|p: u32| #[trigger] keys.take(i + 1).contains(p) <==> (keys.take(i).contains(p) || p == keys[i]),
{
    assert forall|p: u32| #[trigger] keys.take(i + 1).contains(p) <==> (keys.take(i).contains(p) || p == keys[i]) by {
        if keys.take(i + 1).contains(p) {
            let x = choose|x: int| 0 <= x < i + 1 && #[trigger] keys.take(i + 1)[x] == p;
            if x < i {
                assert(keys.take(i)[x] == p);
            }
        }
        if keys.take(i).contains(p) {
            let x = choose|x: int| 0 <= x < i && #[trigger] keys.take(i)[x] == p;
            assert(keys.take(i + 1)[x] == p);
        }
        if p == keys[i] {
            assert(keys.take(i + 1)[i] == p);
        }
    }
}

proof fn lemma_take_step(keys: Seq<u32>, i: int)
    requires
        0 <= i < keys.len(),
        keys.no_duplicates(),
    ensures
        !keys.take(i).contains(keys[i]),
        forall|p: u32| #[trigger] keys.take(i + 1).contains(p) <==> (keys.take(i).contains(p) || p == keys[i]),
{
    if keys.take(i).contains(keys[i]) {
        let x = choose|x: int| 0 <= x < i && #[trigger] keys.take(i)[x] == keys[i];
        assert(keys[x] == keys[i]);
    }
    lemma_take_contains(keys, i);
}

/// Removes from `jobs` every job whose process is gone.
fn prune_jobs(jobs: &mut HashMap<u32, BuildJob>, snap: &Snapshot) -> (changed: bool)
    ensures
        jobs_view(final(jobs)@) == live_jobs(jobs_view(old(jobs)@), snap@),
        changed == (jobs_view(final(jobs)@) != jobs_view(old(jobs)@)),
{
    let ghost j0 = jobs_view(jobs@);
    let keys = key_list(jobs);
    let mut changed = false;
    let mut i: usize = 0;
    while i < keys.len()
        invariant
            i <= keys@.len(),
            keys@.to_set() == old(jobs)@.dom(),
            keys@.no_duplicates(),
            j0 == jobs_view(old(jobs)@),
            jobs_view(jobs@) == Map::new(
                |q: u32| j0.contains_key(q) && (keys@.take(i as int).contains(q) ==> is_live(snap@, q)),
                |q: u32| j0[q],
            ),
            changed == (jobs_view(jobs@) != j0),
        decreases keys.len() - i,
    {
        let q = keys[i];
        assert(keys@.to_set().contains(q));
        proof {
            lemma_take_step(keys@, i as int);
        }
        let ghost before = jobs@;
        assert(j0.contains_key(q));
        if !snap.contains(q) {
            jobs.remove(&q);
            assert(jobs@ == before.remove(q));
            changed = true;
            assert(j0.contains_key(q));
            assert(!jobs_view(jobs@).contains_key(q));
        }
        let ghost target = Map::new(
            |p: u32| j0.contains_key(p) && (keys@.take(i + 1).contains(p) ==> is_live(snap@, p)),
            |p: u32| j0[p],
        );
        assert forall|p: u32| #[trigger] jobs_view(jobs@).contains_key(p) == target.contains_key(p) by {
            assert(jobs_view(before).contains_key(p) == before.contains_key(p));
        }
        assert forall|p: u32| #[trigger] jobs_view(jobs@).contains_key(p) implies jobs_view(jobs@)[p] == target[p] by {
            assert(before.contains_key(p));
            assert(jobs@[p] == before[p]);
            assert(jobs_view(before)[p] == j0[p]);
        }
        assert(jobs_view(jobs@) =~= target);
        i = i + 1;
    }
    assert(keys@.take(keys@.len() as int) =~= keys@);
    assert(jobs_view(jobs@) =~= live_jobs(j0, snap@));
    changed
}

impl EbuildProcWatcher {
    /// One poll against a fresh snapshot: drops what is gone, adds the live
    /// invocations, files in the jobs the workers lead to, and tells whether
    /// the table changed.
    pub fn tick(&mut self, snap: &Snapshot, clock: Clock) -> (changed: bool)
        requires
            distinct_pids(snap@),
            clock_fits(clock, snap@),
        ensures
            final(self)@ == next_table(old(self)@, snap@, clock),
            changed == (final(self)@ != old(self)@),
    {
        let ghost t0 = self@;
        let c1 = self.prune(snap);
        let c2 = self.add_invocations(snap);
        let c3 = self.place_jobs(snap, clock);
        proof {
            lemma_tick_change(t0, snap@, clock);
        }
        c1 || c2 || c3
    }

    /// Files `job` under invocation `m` and process `q`, unless that very job
    /// is already there.
    fn file_job(&mut self, m: u32, q: u32, job: BuildJob) -> (changed: bool)
        ensures
            final(self)@ == set_job(old(self)@, m, q, job@),
            changed == !(old(self)@.contains_key(m) && old(self)@[m].contains_key(q) && old(self)@[m][q] == job@),
            !changed ==> final(self)@ == old(self)@,
    {
        let ghost t0 = self@;
        let ghost raw0 = self.active@;
        assert(t0 == table_view(raw0));
        let ghost jv = job@;
        let mut jobs = match self.active.remove(&m) {
            Some(h) => h,
            None => HashMap::new(),
        };
        let ghost jobs0 = jobs@;
        assert(jobs_view(jobs0) == if t0.contains_key(m) { t0[m] } else { Map::empty() }) by {
            if !t0.contains_key(m) {
                assert(jobs_view(jobs0) =~= Map::empty());
            }
        }
        let same = match jobs.get(&q) {
            Some(old_job) => *old_job == job,
            None => false,
        };
        if !same {
            jobs.insert(q, job);
            assert(jobs_view(jobs@) =~= jobs_view(jobs0).insert(q, jv));
        }
        let ghost jobs1 = jobs@;
        assert(jobs_view(jobs1) =~= jobs_view(jobs0).insert(q, jv)) by {
            if same {
                assert(jobs0.contains_key(q) && jobs0[q]@ == jv);
            }
        }
        self.active.insert(m, jobs);
        assert(self.active@ == raw0.insert(m, jobs)) by {
            assert(self.active@ =~= raw0.insert(m, jobs));
        }
        assert forall|p: u32| #[trigger] self@.contains_key(p) implies self@[p] == set_job(t0, m, q, jv)[p] by {
            if p != m {
                assert(self@[p] == t0[p]);
            }
        }
        assert(self@ =~= set_job(t0, m, q, jv));
        if same {
            assert(set_job(t0, m, q, jv) =~= t0) by {
                assert(t0[m].insert(q, jv) =~= t0[m]);
            }
        }
        !same
    }

    /// Files in the jobs that the workers of the snapshot lead to.
    fn place_jobs(&mut self, snap: &Snapshot, clock: Clock) -> (changed: bool)
        requires
            distinct_pids(snap@),
            clock_fits(clock, snap@),
        ensures
            final(self)@ == applied(old(self)@, snap@, clock, snap@.len() as int),
            changed == (final(self)@ != old(self)@),
    {
        let ghost b = self@;
        let mut changed = false;
        let mut c: usize = 0;
        assert(applied(b, snap@, clock, 0) =~= b) by {
            assert forall|m: u32| #[trigger] applied(b, snap@, clock, 0).contains_key(m) implies applied(b, snap@, clock, 0)[m] =~= b[m] by {
                if !b.contains_key(m) {
                    let q = choose|q: u32| #[trigger] placed(snap@, clock, 0, m, q);
                }
            }
        }
        while c < snap.procs.len()
            invariant
                c <= snap@.len(),
                distinct_pids(snap@),
                clock_fits(clock, snap@),
            clock_fits(clock, snap@),
                self@ == applied(b, snap@, clock, c as int),
                changed == (self@ != b),
            decreases snap.procs.len() - c,
        {
            proof {
                lemma_applied_step(b, snap@, clock, c as int);
            }
            let ghost before = self@;
            if snap.procs[c].is_worker() {
                match snap.job_ancestor_of(c) {
                    Some(j) => {
                        let q = snap.procs[j].pid;
                        match job_outcome(snap, j, clock) {
                            Some((m, job)) => {
                                let ghost jv = job@;
                                if self.file_job(m, q, job) {
                                    changed = true;
                                    proof {
                                        assert(self@[m][q] == jv);
                                        if b.contains_key(m) && b[m].contains_key(q) && b[m][q] == jv {
                                            assert(before.contains_key(m) && before[m].contains_key(q));
                                            assert(before[m][q] == jv);
                                        }
                                    }
                                }
                            },
                            None => {},
                        }
                    },
                    None => {},
                }
            }
            c = c + 1;
        }
        changed
    }

    /// Adds an empty job set for each live invocation not yet tracked.
    fn add_invocations(&mut self, snap: &Snapshot) -> (changed: bool)
        ensures
            final(self)@ == with_keys(old(self)@, invocation_pids(snap@)),
            changed == (final(self)@ != old(self)@),
    {
        let ghost t0 = self@;
        let inv = snap.get_emerge_procs();
        let mut changed = false;
        let mut i: usize = 0;
        while i < inv.len()
            invariant
                i <= inv@.len(),
                self@ == with_keys(t0, inv@.take(i as int).to_set()),
                changed == (self@ != t0),
            decreases inv.len() - i,
        {
            let pid = inv[i];
            proof {
                lemma_take_contains(inv@, i as int);
            }
            let ghost before = self@;
            let ghost before_raw = self.active@;
            assert(before == table_view(before_raw));
            let ghost target = with_keys(t0, inv@.take(i + 1).to_set());
            if !self.active.contains_key(&pid) {
                self.active.insert(pid, HashMap::new());
                changed = true;
                assert(!before.contains_key(pid));
                assert(!t0.contains_key(pid));
                assert(self@.contains_key(pid));
                assert(inv@.take(i + 1).contains(pid));
                assert forall|p: u32| #[trigger] self@.contains_key(p) == target.contains_key(p) by {
                    assert(inv@.take(i + 1).to_set().contains(p) == inv@.take(i + 1).contains(p));
                    assert(inv@.take(i as int).to_set().contains(p) == inv@.take(i as int).contains(p));
                    assert(before.contains_key(p) == before_raw.contains_key(p));
                }
                assert forall|p: u32| #[trigger] self@.contains_key(p) implies self@[p] == target[p] by {
                    if p != pid {
                        assert(self@[p] == before[p]);
                    } else {
                        assert(self@[p] =~= Map::empty());
                    }
                }
                assert(self@ =~= target);
            } else {
                assert(before.contains_key(pid));
                assert forall|p: u32| #[trigger] self@.contains_key(p) == target.contains_key(p) by {
                    assert(inv@.take(i + 1).to_set().contains(p) == inv@.take(i + 1).contains(p));
                    assert(inv@.take(i as int).to_set().contains(p) == inv@.take(i as int).contains(p));
                }
                assert(self@ =~= target);
            }
            i = i + 1;
        }
        assert(inv@.take(inv@.len() as int) =~= inv@);
        assert(inv@.to_set() =~= invocation_pids(snap@));
        changed
    }

    /// Drops the invocations and the jobs whose processes are gone.
    fn prune(&mut self, snap: &Snapshot) -> (changed: bool)
        ensures
            final(self)@ == pruned(old(self)@, snap@),
            changed == (final(self)@ != old(self)@),
    {
        let ghost t0 = self@;
        let masters = key_list(&self.active);
        let mut changed = false;
        let mut i: usize = 0;
        while i < masters.len()
            invariant
                i <= masters@.len(),
                masters@.to_set() == t0.dom(),
                masters@.no_duplicates(),
                self@ == Map::new(
                    |m: u32| t0.contains_key(m) && (masters@.take(i as int).contains(m) ==> is_live(snap@, m)),
                    |m: u32| if masters@.take(i as int).contains(m) { live_jobs(t0[m], snap@) } else { t0[m] },
                ),
                changed == (self@ != t0),
            decreases masters.len() - i,
        {
            let m = masters[i];
            proof {
                lemma_take_step(masters@, i as int);
            }
            assert(masters@.to_set().contains(m));
            assert(t0.contains_key(m));
            let ghost before = self@;
            let ghost before_raw = self.active@;
            assert(before == table_view(before_raw));
            assert(!masters@.take(i as int).contains(m));
            assert(before[m] == t0[m]);
            let ghost target = Map::new(
                |p: u32| t0.contains_key(p) && (masters@.take(i + 1).contains(p) ==> is_live(snap@, p)),
                |p: u32| if masters@.take(i + 1).contains(p) { live_jobs(t0[p], snap@) } else { t0[p] },
            );
            if !snap.contains(m) {
                self.active.remove(&m);
                changed = true;
                assert(self.active@ == before_raw.remove(m));
                assert forall|p: u32| #[trigger] self@.contains_key(p) == target.contains_key(p) by {
                    assert(self@.contains_key(p) == (before_raw.contains_key(p) && p != m));
                    assert(before.contains_key(p) == before_raw.contains_key(p));
                }
                assert forall|p: u32| #[trigger] self@.contains_key(p) implies self@[p] == target[p] by {
                    assert(self@[p] == before[p]);
                }
                assert(self@ =~= target);
            } else {
                let removed = self.active.remove(&m);
                match removed {
                    Some(jobs) => {
                        let mut jobs = jobs;
                        assert(jobs == before_raw[m]);
                        assert(jobs_view(jobs@) == t0[m]);
                        let c = prune_jobs(&mut jobs, snap);
                        self.active.insert(m, jobs);
                        if c {
                            changed = true;
                            assert(self@[m] != t0[m]);
                        }
                        assert forall|p: u32| #[trigger] self@.contains_key(p) == target.contains_key(p) by {
                            assert(before.contains_key(p) == before_raw.contains_key(p));
                        }
                        assert forall|p: u32| #[trigger] self@.contains_key(p) implies self@[p] == target[p] by {
                            if p != m {
                                assert(self@[p] == before[p]);
                            }
                        }
                        assert(self@ =~= target);
                        if !c {
                            assert(self@ =~= before);
                        }
                    },
                    None => {
                        assert(before.contains_key(m));
                    },
                }
            }
            i = i + 1;
        }
        assert(masters@.take(masters@.len() as int) =~= masters@);
        assert(self@ =~= pruned(t0, snap@));
        changed
    }

    /// A watcher with no active jobs.
    pub fn new() -> (r: Self)
        ensures
            r@ == Map::<u32, Map<u32, JobView>>::empty(),
    {
        let r = EbuildProcWatcher { active: HashMap::new() };
        assert(r@ =~= Map::<u32, Map<u32, JobView>>::empty());
        r
    }

    /// The active jobs, by invocation and then by job process.
    pub fn active(&self) -> (r: &HashMap<u32, HashMap<u32, BuildJob>>)
        ensures
            table_view(r@) == self@,
    {
        &self.active
    }
}

} // verus!
