//! A point-in-time process table and the walks up its parent links.
use vstd::prelude::*;
use crate::pattern::{is_invocation, is_invocation_words, is_job_process, is_job_words, is_worker, is_worker_args};
use crate::text::{char_views, chars_of, joined, split_words, string_views, words};

verus! {

/// One process as the scanner saw it.
pub struct ProcessInfo {
    /// Process identifier.
    pub pid: u32,
    /// Identifier of the parent process, if it has one.
    pub parent: Option<u32>,
    /// The argument vector; none where it could not be read (kernel thread,
    /// process gone).
    pub args: Option<Vec<String>>,
    /// Creation time in nanoseconds since boot.
    pub start_time: u64,
}

/// The mathematical model of a process.
pub struct ProcView {
    pub pid: u32,
    pub parent: Option<u32>,
    pub args: Option<Seq<Seq<char>>>,
    pub start_time: u64,
}

impl View for ProcessInfo {
    type V = ProcView;

    open spec fn view(&self) -> ProcView {
        ProcView {
            pid: self.pid,
            parent: self.parent,
            args: match self.args {
                Some(a) => Some(string_views(a@)),
                None => None,
            },
            start_time: self.start_time,
        }
    }
}

/// All live processes at one instant.
pub struct Snapshot {
    pub procs: Vec<ProcessInfo>,
}

impl View for Snapshot {
    type V = Seq<ProcView>;

    open spec fn view(&self) -> Seq<ProcView> {
        self.procs@.map_values(|p: ProcessInfo| p@)
    }
}

/// No two processes share an identifier.
pub open spec fn distinct_pids(ps: Seq<ProcView>) -> bool {
    forall|a: int, b: int| 0 <= a < ps.len() && 0 <= b < ps.len() && a != b ==> ps[a].pid != ps[b].pid
}

/// `pid` is live in the snapshot.
pub open spec fn is_live(ps: Seq<ProcView>, pid: u32) -> bool {
    exists|k: int| 0 <= k < ps.len() && ps[k].pid == pid
}

/// `k` is the first position of the process `pid`.
pub open spec fn is_first_pid(ps: Seq<ProcView>, pid: u32, k: int) -> bool {
    0 <= k < ps.len() && ps[k].pid == pid && forall|j: int| 0 <= j < k ==> ps[j].pid != pid
}

/// The position of the process `pid`, if it is live.
pub open spec fn find(ps: Seq<ProcView>, pid: u32) -> Option<int> {
    if exists|k: int| is_first_pid(ps, pid, k) {
        Some(choose|k: int| is_first_pid(ps, pid, k))
    } else {
        None
    }
}

/// The position of the parent of the process at `i`; none where it has no
/// parent or the parent is no longer live.
pub open spec fn parent_index(ps: Seq<ProcView>, i: int) -> Option<int> {
    match ps[i].parent {
        Some(pp) => find(ps, pp),
        None => None,
    }
}

/// The whitespace-separated words of a process's command line.
pub open spec fn proc_words(p: ProcView) -> Option<Seq<Seq<char>>> {
    match p.args {
        Some(a) => Some(words(joined(a))),
        None => None,
    }
}

/// A phase-runner worker, judged on its argument vector.
pub open spec fn is_worker_proc(p: ProcView) -> bool {
    match p.args {
        Some(a) => is_worker_args(a),
        None => false,
    }
}

/// A job-defining process, judged on the words of its command line.
pub open spec fn is_job_proc(p: ProcView) -> bool {
    match proc_words(p) {
        Some(w) => is_job_words(w),
        None => false,
    }
}

/// A top-level build-tool invocation, judged on the words of its command line.
pub open spec fn is_invocation_proc(p: ProcView) -> bool {
    match proc_words(p) {
        Some(w) => is_invocation_words(w),
        None => false,
    }
}

/// The nearest proper ancestor of the process at `i`, within `fuel` steps,
/// that is a job-defining process. Ancestors whose command line cannot be
/// read are passed over; the walk ends where a parent is missing.
pub open spec fn job_ancestor(ps: Seq<ProcView>, i: int, fuel: nat) -> Option<int>
    decreases fuel,
{
    if fuel == 0 {
        None
    } else {
        match parent_index(ps, i) {
            None => None,
            Some(j) => if is_job_proc(ps[j]) {
                Some(j)
            } else {
                job_ancestor(ps, j, (fuel - 1) as nat)
            },
        }
    }
}

/// The nearest proper ancestor of the process at `i`, within `fuel` steps,
/// that is a build-tool invocation.
pub open spec fn invocation_ancestor(ps: Seq<ProcView>, i: int, fuel: nat) -> Option<int>
    decreases fuel,
{
    if fuel == 0 {
        None
    } else {
        match parent_index(ps, i) {
            None => None,
            Some(j) => if is_invocation_proc(ps[j]) {
                Some(j)
            } else {
                invocation_ancestor(ps, j, (fuel - 1) as nat)
            },
        }
    }
}

/// A walk up from a process stays within the snapshot.
pub proof fn lemma_job_ancestor_in_range(ps: Seq<ProcView>, i: int, fuel: nat)
    requires
        0 <= i < ps.len(),
    ensures
        job_ancestor(ps, i, fuel) matches Some(j) ==> 0 <= j < ps.len(),
    decreases fuel,
{
    if fuel > 0 {
        if let Some(j) = parent_index(ps, i) {
            lemma_find_in_range(ps, ps[i].parent->0);
            lemma_job_ancestor_in_range(ps, j, (fuel - 1) as nat);
        }
    }
}

/// A walk up from a process stays within the snapshot.
pub proof fn lemma_invocation_ancestor_in_range(ps: Seq<ProcView>, i: int, fuel: nat)
    requires
        0 <= i < ps.len(),
    ensures
        invocation_ancestor(ps, i, fuel) matches Some(j) ==> 0 <= j < ps.len(),
    decreases fuel,
{
    if fuel > 0 {
        if let Some(j) = parent_index(ps, i) {
            lemma_find_in_range(ps, ps[i].parent->0);
            lemma_invocation_ancestor_in_range(ps, j, (fuel - 1) as nat);
        }
    }
}

/// A process that is found is at a position of the snapshot.
pub proof fn lemma_find_in_range(ps: Seq<ProcView>, pid: u32)
    ensures
        find(ps, pid) matches Some(k) ==> 0 <= k < ps.len() && ps[k].pid == pid,
{
}

/// The identifiers of all live build-tool invocations.
pub open spec fn invocation_pids(ps: Seq<ProcView>) -> Set<u32> {
    Set::new(|pid: u32| exists|k: int| 0 <= k < ps.len() && ps[k].pid == pid && is_invocation_proc(ps[k]))
}

/// The identifiers of the build-tool invocations of `ps`, in snapshot order,
/// one entry per process.
pub open spec fn invocation_pid_seq(ps: Seq<ProcView>) -> Seq<u32>
    decreases ps.len(),
{
    if ps.len() == 0 {
        seq![]
    } else if is_invocation_proc(ps.last()) {
        invocation_pid_seq(ps.drop_last()).push(ps.last().pid)
    } else {
        invocation_pid_seq(ps.drop_last())
    }
}

/// Joins the arguments with single spaces.
pub fn join_args(args: &Vec<String>) -> (r: Vec<char>)
    ensures
        r@ == joined(string_views(args@)),
{
    let ghost sv = string_views(args@);
    let mut out: Vec<char> = Vec::new();
    let mut i: usize = 0;
    while i < args.len()
        invariant
            i <= args.len(),
            sv == string_views(args@),
            out@ == joined(sv.take(i as int)),
        decreases args.len() - i,
    {
        let mut cs = chars_of(&args[i]);
        let ghost prev = out@;
        if i > 0 {
            out.push(' ');
        }
        out.append(&mut cs);
        proof {
            let t = sv.take(i + 1);
            assert(t.drop_last() =~= sv.take(i as int));
            assert(t.last() == args@[i as int]@);
            if i == 0 {
                assert(out@ =~= t[0]);
            } else {
                assert(out@ =~= prev + seq![' '] + t.last());
            }
        }
        i = i + 1;
    }
    assert(sv.take(args.len() as int) =~= sv);
    out
}

/// The arguments as character vectors.
pub fn args_chars(args: &Vec<String>) -> (r: Vec<Vec<char>>)
    ensures
        char_views(r@) == string_views(args@),
{
    let mut out: Vec<Vec<char>> = Vec::new();
    let mut i: usize = 0;
    while i < args.len()
        invariant
            i <= args.len(),
            char_views(out@) == string_views(args@).take(i as int),
        decreases args.len() - i,
    {
        let cs = chars_of(&args[i]);
        let ghost prev = out@;
        let ghost c = cs@;
        out.push(cs);
        assert(char_views(out@) =~= char_views(prev).push(c));
        assert(string_views(args@).take(i + 1) =~= string_views(args@).take(i as int).push(c));
        i = i + 1;
    }
    assert(string_views(args@).take(args.len() as int) =~= string_views(args@));
    out
}

impl ProcessInfo {
    /// The whitespace-separated words of the command line, if it was read.
    pub fn command_words(&self) -> (r: Option<Vec<Vec<char>>>)
        ensures
            match r {
                Some(w) => proc_words(self@) == Some(char_views(w@)),
                None => proc_words(self@) is None,
            },
    {
        match &self.args {
            Some(a) => {
                let line = join_args(a);
                Some(split_words(line.as_slice()))
            },
            None => None,
        }
    }

    /// Whether this is a phase-runner worker.
    pub fn is_worker(&self) -> (r: bool)
        ensures
            r == is_worker_proc(self@),
    {
        match &self.args {
            Some(a) => {
                let cs = args_chars(a);
                is_worker(&cs)
            },
            None => false,
        }
    }

    /// Whether this is a job-defining process.
    pub fn is_job_process(&self) -> (r: bool)
        ensures
            r == is_job_proc(self@),
    {
        match self.command_words() {
            Some(w) => is_job_process(&w),
            None => false,
        }
    }

    /// Whether this is a top-level build-tool invocation.
    pub fn is_invocation(&self) -> (r: bool)
        ensures
            r == is_invocation_proc(self@),
    {
        match self.command_words() {
            Some(w) => is_invocation(&w),
            None => false,
        }
    }
}

impl Snapshot {
    /// Whether no two processes share an identifier.
    pub fn has_distinct_pids(&self) -> (r: bool)
        ensures
            r == distinct_pids(self@),
    {
        let n = self.procs.len();
        let mut a: usize = 0;
        while a < n
            invariant
                n == self@.len(),
                a <= n,
                forall|x: int, y: int| 0 <= x < a && 0 <= y < n && x != y ==> self@[x].pid != self@[y].pid,
            decreases n - a,
        {
            let mut b: usize = 0;
            while b < n
                invariant
                    n == self@.len(),
                    a < n,
                    b <= n,
                    forall|x: int, y: int| 0 <= x < a && 0 <= y < n && x != y ==> self@[x].pid != self@[y].pid,
                    forall|y: int| 0 <= y < b && y != a ==> self@[a as int].pid != self@[y].pid,
                decreases n - b,
            {
                if b != a && self.procs[a].pid == self.procs[b].pid {
                    assert(self@[a as int].pid == self@[b as int].pid);
                    return false;
                }
                b = b + 1;
            }
            a = a + 1;
        }
        true
    }

    /// Whether the process `pid` is live.
    pub fn contains(&self, pid: u32) -> (r: bool)
        ensures
            r == is_live(self@, pid),
    {
        let mut i: usize = 0;
        while i < self.procs.len()
            invariant
                i <= self@.len(),
                forall|j: int| 0 <= j < i ==> self@[j].pid != pid,
            decreases self.procs.len() - i,
        {
            if self.procs[i].pid == pid {
                assert(self@[i as int].pid == pid);
                return true;
            }
            i = i + 1;
        }
        false
    }

    /// The position of the process `pid`, if it is live.
    pub fn find(&self, pid: u32) -> (r: Option<usize>)
        ensures
            match r {
                Some(k) => find(self@, pid) == Some(k as int),
                None => find(self@, pid) is None,
            },
    {
        let mut i: usize = 0;
        while i < self.procs.len()
            invariant
                i <= self@.len(),
                forall|j: int| 0 <= j < i ==> self@[j].pid != pid,
            decreases self.procs.len() - i,
        {
            if self.procs[i].pid == pid {
                assert(is_first_pid(self@, pid, i as int));
                let ghost c = choose|k: int| is_first_pid(self@, pid, k);
                assert(c == i as int) by {
                    if c < i {
                        assert(self@[c].pid != pid);
                    } else if i < c {
                        assert(self@[i as int].pid != pid);
                    }
                }
                return Some(i);
            }
            i = i + 1;
        }
        None
    }

    /// The position of the parent of the process at `i`, if it is live.
    pub fn parent_of(&self, i: usize) -> (r: Option<usize>)
        requires
            i < self@.len(),
        ensures
            match r {
                Some(j) => parent_index(self@, i as int) == Some(j as int) && j < self@.len(),
                None => parent_index(self@, i as int) is None,
            },
    {
        match self.procs[i].parent {
            Some(pp) => self.find(pp),
            None => None,
        }
    }

    /// Walks up from the process at `i` to the nearest job-defining ancestor.
    /// The walk takes at most as many steps as there are processes, so a
    /// cycle of parent links cannot hold it.
    pub fn job_ancestor_of(&self, i: usize) -> (r: Option<usize>)
        requires
            i < self@.len(),
        ensures
            match r {
                Some(j) => job_ancestor(self@, i as int, self@.len()) == Some(j as int)
                    && j < self@.len(),
                None => job_ancestor(self@, i as int, self@.len()) is None,
            },
    {
        let mut cur = i;
        let mut fuel = self.procs.len();
        while fuel > 0
            invariant
                cur < self@.len(),
                job_ancestor(self@, i as int, self@.len()) == job_ancestor(self@, cur as int, fuel as nat),
            decreases fuel,
        {
            match self.parent_of(cur) {
                None => return None,
                Some(j) => {
                    if self.procs[j].is_job_process() {
                        return Some(j);
                    }
                    cur = j;
                    fuel = fuel - 1;
                },
            }
        }
        None
    }

    /// Walks up from the process at `i` to the nearest build-tool invocation.
    pub fn invocation_ancestor_of(&self, i: usize) -> (r: Option<usize>)
        requires
            i < self@.len(),
        ensures
            match r {
                Some(j) => invocation_ancestor(self@, i as int, self@.len()) == Some(j as int)
                    && j < self@.len(),
                None => invocation_ancestor(self@, i as int, self@.len()) is None,
            },
    {
        let mut cur = i;
        let mut fuel = self.procs.len();
        while fuel > 0
            invariant
                cur < self@.len(),
                invocation_ancestor(self@, i as int, self@.len()) == invocation_ancestor(self@, cur as int, fuel as nat),
            decreases fuel,
        {
            match self.parent_of(cur) {
                None => return None,
                Some(j) => {
                    if self.procs[j].is_invocation() {
                        return Some(j);
                    }
                    cur = j;
                    fuel = fuel - 1;
                },
            }
        }
        None
    }

    /// The identifiers of all live build-tool invocations, in snapshot order.
    pub fn get_emerge_procs(&self) -> (r: Vec<u32>)
        ensures
            r@ == invocation_pid_seq(self@),
            forall|pid: u32| r@.contains(pid) <==> invocation_pids(self@).contains(pid),
    {
        let mut out: Vec<u32> = Vec::new();
        let mut i: usize = 0;
        while i < self.procs.len()
            invariant
                i <= self@.len(),
                out@ == invocation_pid_seq(self@.take(i as int)),
                forall|pid: u32| out@.contains(pid) <==> exists|k: int| 0 <= k < i && self@[k].pid == pid && is_invocation_proc(self@[k]),
            decreases self.procs.len() - i,
        {
            let ghost prev = out@;
            assert(self@.take(i + 1).drop_last() =~= self@.take(i as int));
            assert(self@.take(i + 1).last() == self@[i as int]);
            if self.procs[i].is_invocation() {
                out.push(self.procs[i].pid);
                assert(out@[prev.len() as int] == self@[i as int].pid);
            }
            assert forall|pid: u32| out@.contains(pid) <==> exists|k: int| 0 <= k < i + 1 && self@[k].pid == pid && is_invocation_proc(self@[k]) by {
                if out@.contains(pid) && !prev.contains(pid) {
                    assert(pid == self@[i as int].pid);
                }
                if exists|k: int| 0 <= k < i + 1 && self@[k].pid == pid && is_invocation_proc(self@[k]) {
                    let k = choose|k: int| 0 <= k < i + 1 && self@[k].pid == pid && is_invocation_proc(self@[k]);
                    if k == i {
                        assert(out@[out@.len() - 1] == pid);
                    } else {
                        assert(prev.contains(pid));
                        let x = choose|x: int| 0 <= x < prev.len() && prev[x] == pid;
                        assert(out@[x] == pid);
                    }
                }
                if prev.contains(pid) {
                    let x = choose|x: int| 0 <= x < prev.len() && prev[x] == pid;
                    assert(out@[x] == pid);
                }
            }
            i = i + 1;
        }
        assert(self@.take(self@.len() as int) =~= self@);
        out
    }
}

} // verus!
