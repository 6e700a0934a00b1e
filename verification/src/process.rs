//! How a command is launched, and how the process that really runs it is
//! found below the shell that was spawned.
use vstd::prelude::*;
use crate::models::AppConfig;

verus! {

// ---------------------------------------------------------------------------
// Launching
// ---------------------------------------------------------------------------

/// What a command is run with.
pub struct LaunchSpec {
    /// The shell.
    pub program: String,
    /// The shell's arguments: its switch and the command line.
    pub args: Vec<String>,
    /// The working directory, when one is set and not empty.
    pub work_dir: Option<String>,
    /// Environment variables added to the inherited ones, in order.
    pub env: Vec<(String, String)>,
}

/// How `config` is launched: through `cmd /C` on Windows and `sh -c`
/// elsewhere, in its working directory unless that is empty, with its
/// environment variables.
pub fn launch_spec(config: &AppConfig, windows: bool) -> (r: LaunchSpec)
    ensures
        r.program@ == (if windows { "cmd"@ } else { "sh"@ }),
        r.args@.len() == 2,
        r.args@[0]@ == (if windows { "/C"@ } else { "-c"@ }),
        r.args@[1]@ == config.command@,
        r.work_dir == (match config.work_dir {
            Some(w) => if w@.len() > 0 {
                Some(w)
            } else {
                None
            },
            None => None,
        }),
        r.env@ == (match config.env_vars {
            Some(e) => e@,
            None => Seq::<(String, String)>::empty(),
        }),
{
    let mut args: Vec<String> = Vec::new();
    args.push(String::from_str(if windows { "/C" } else { "-c" }));
    args.push(config.command.clone());
    let work_dir = match &config.work_dir {
        Some(w) => if w.as_str().unicode_len() > 0 {
            Some(w.clone())
        } else {
            None
        },
        None => None,
    };
    let env = match &config.env_vars {
        Some(e) => crate::models::copy_pairs(e),
        None => Vec::new(),
    };
    LaunchSpec {
        program: String::from_str(if windows { "cmd" } else { "sh" }),
        args,
        work_dir,
        env,
    }
}

// ---------------------------------------------------------------------------
// Finding the real process
// ---------------------------------------------------------------------------

/// The process that runs a command spawned as `root_pid`.  The shell used
/// outside Windows replaces itself with a simple command, so the spawned
/// process is the command's own.
pub fn resolve_real_process(root_pid: u32) -> (pid: u32)
    ensures
        pid == root_pid,
{
    root_pid
}

/// The I/O byte counters (read, written) of a process where they cannot be
/// read: both zero.
pub fn read_process_io(_pid: u32) -> (r: (u64, u64))
    ensures
        r == (0u64, 0u64),
{
    (0, 0)
}

/// The greatest process id among the children of `parent` in the process
/// table `procs` of (process id, parent id) pairs.
pub open spec fn max_child(procs: Seq<(u32, u32)>, parent: u32) -> Option<u32>
    decreases procs.len(),
{
    if procs.len() == 0 {
        None
    } else {
        let rest = max_child(procs.drop_last(), parent);
        let e = procs.last();
        if e.1 == parent {
            match rest {
                Some(m) => if e.0 > m {
                    Some(e.0)
                } else {
                    Some(m)
                },
                None => Some(e.0),
            }
        } else {
            rest
        }
    }
}

/// The deepest process reached from `cur` (at depth `depth`) by going to
/// the greatest child, at most 11 levels down, with its depth.
pub open spec fn descend(procs: Seq<(u32, u32)>, cur: u32, depth: nat) -> (u32, nat)
    decreases 11 - depth,
{
    if depth > 10 {
        (cur, depth)
    } else {
        match max_child(procs, cur) {
            None => (cur, depth),
            Some(c) => descend(procs, c, depth + 1),
        }
    }
}

fn greatest_child(procs: &Vec<(u32, u32)>, parent: u32) -> (r: Option<u32>)
    ensures
        r == max_child(procs@, parent),
{
    let mut best: Option<u32> = None;
    let mut j: usize = 0;
    while j < procs.len()
        invariant
            j <= procs@.len(),
            best == max_child(procs@.take(j as int), parent),
        decreases procs@.len() - j,
    {
        let (pid, par) = procs[j];
        if par == parent {
            best = match best {
                Some(m) => if pid > m {
                    Some(pid)
                } else {
                    Some(m)
                },
                None => Some(pid),
            };
        }
        proof {
            assert(procs@.take(j + 1).drop_last() =~= procs@.take(j as int));
        }
        j += 1;
    }
    assert(procs@.take(procs@.len() as int) =~= procs@);
    best
}

/// Walks from `root` to its deepest descendant (see `descend`).
pub fn deepest_descendant(procs: &Vec<(u32, u32)>, root: u32) -> (r: (u32, u32))
    ensures
        (r.0, r.1 as nat) == descend(procs@, root, 0),
{
    let mut cur = root;
    let mut depth: u32 = 0;
    loop
        invariant
            depth <= 11,
            descend(procs@, cur, depth as nat) == descend(procs@, root, 0),
        decreases 11 - depth,
    {
        if depth > 10 {
            return (cur, depth);
        }
        match greatest_child(procs, cur) {
            None => {
                return (cur, depth);
            },
            Some(c) => {
                cur = c;
                depth += 1;
            },
        }
    }
}

/// The search for the process that runs a command spawned through a
/// wrapper, over successive looks at the process table: the deepest
/// descendant seen so far wins, and the search may end once the same leaf
/// was seen three times in a row.
pub struct ResolveProgress {
    pub root: u32,
    pub best: u32,
    pub best_depth: u32,
    pub stable: u32,
    pub last_leaf: u32,
}

impl ResolveProgress {
    /// The search from the spawned process `root`.
    pub fn new(root: u32) -> (r: Self)
        ensures
            r == (ResolveProgress { root, best: root, best_depth: 0, stable: 0, last_leaf: root }),
    {
        ResolveProgress { root, best: root, best_depth: 0, stable: 0, last_leaf: root }
    }

    /// Takes one look at the process table `procs`; returns whether the
    /// search is over.
    pub fn step(&mut self, procs: &Vec<(u32, u32)>) -> (done: bool)
        ensures
            ({
                let (leaf, depth) = descend(procs@, old(self).root, 0);
                let s = *old(self);
                let n = *final(self);
                &&& n.root == s.root
                &&& depth > s.best_depth ==> n.best_depth == depth && n.best == leaf
                &&& depth <= s.best_depth ==> n.best_depth == s.best_depth && n.best == s.best
                &&& depth >= 1 && leaf == s.last_leaf ==> n.stable == (if s.stable < u32::MAX {
                    s.stable + 1
                } else {
                    s.stable as int
                }) && n.last_leaf == s.last_leaf && done == (n.stable >= 2)
                &&& depth >= 1 && leaf != s.last_leaf ==> n.stable == 0 && n.last_leaf == leaf && !done
                &&& depth == 0 ==> n.stable == s.stable && n.last_leaf == s.last_leaf && !done
            }),
    {
        let (leaf, depth) = deepest_descendant(procs, self.root);
        if depth > self.best_depth {
            self.best_depth = depth;
            self.best = leaf;
        }
        if depth >= 1 {
            if leaf == self.last_leaf {
                if self.stable < u32::MAX {
                    self.stable = self.stable + 1;
                }
                self.stable >= 2
            } else {
                self.stable = 0;
                self.last_leaf = leaf;
                false
            }
        } else {
            false
        }
    }

    /// The process found: the deepest descendant seen, or the spawned
    /// process itself when it never had a child.
    pub fn result(&self) -> (pid: u32)
        ensures
            pid == (if self.best_depth >= 1 {
                self.best
            } else {
                self.root
            }),
    {
        if self.best_depth >= 1 {
            self.best
        } else {
            self.root
        }
    }
}

// ---------------------------------------------------------------------------
// Stopping a child
// ---------------------------------------------------------------------------

/// How far stopping a child has come.
#[derive(Clone, Copy, Debug, PartialEq, Eq, Structural)]
pub enum StopPhase {
    /// Nothing done yet.
    Start,
    /// Its whole process tree is being ended.
    KillingTree,
    /// Its real process was asked to close.
    Asked,
    /// Waiting for the real process to go.
    Waiting,
    /// Its real process is being ended alone.
    Ending,
    /// Stopping is over.
    Done,
}

/// What the caller does next to stop a child; each action but `Finished`
/// is answered with one `bool`.
#[derive(Clone, Copy, Debug, PartialEq, Eq, Structural)]
pub enum StopAction {
    /// End the process tree of this process (and the child); answer whether
    /// the tree was ended.
    KillTree(u32),
    /// Ask this process to close; answer whether the request was delivered.
    AskToClose(u32),
    /// Wait 150 ms; answer whether this process is still alive.
    WaitAndCheck(u32),
    /// End the child and this process alone; answer whether this process is
    /// still alive.
    EndProcess(u32),
    /// Stopping is over; whether the child was stopped.
    Finished(bool),
}

/// Stopping a child: with `force` its whole tree is ended; otherwise its
/// real process (`target`) is asked to close and given until a deadline
/// (1.5 s) to go, and is ended alone if it does not.
#[derive(Clone, Copy, Debug, PartialEq, Eq, Structural)]
pub struct StopSequence {
    pub child_pid: u32,
    pub target: u32,
    pub force: bool,
    pub phase: StopPhase,
}

/// The next state and action of stopping `s`, given the answer `ok` to the
/// last action and whether the deadline has passed.
pub open spec fn stop_step(s: StopSequence, ok: bool, deadline_passed: bool) -> (StopSequence, StopAction) {
    match s.phase {
        StopPhase::Start => if s.force {
            (StopSequence { phase: StopPhase::KillingTree, ..s }, StopAction::KillTree(s.child_pid))
        } else {
            (StopSequence { phase: StopPhase::Asked, ..s }, StopAction::AskToClose(s.target))
        },
        StopPhase::KillingTree => (StopSequence { phase: StopPhase::Done, ..s }, StopAction::Finished(ok)),
        StopPhase::Asked => if ok && !deadline_passed {
            (StopSequence { phase: StopPhase::Waiting, ..s }, StopAction::WaitAndCheck(s.target))
        } else {
            (StopSequence { phase: StopPhase::Ending, ..s }, StopAction::EndProcess(s.target))
        },
        StopPhase::Waiting => if !ok {
            (StopSequence { phase: StopPhase::Done, ..s }, StopAction::Finished(true))
        } else if deadline_passed {
            (StopSequence { phase: StopPhase::Ending, ..s }, StopAction::EndProcess(s.target))
        } else {
            (s, StopAction::WaitAndCheck(s.target))
        },
        StopPhase::Ending => (StopSequence { phase: StopPhase::Done, ..s }, StopAction::Finished(!ok)),
        StopPhase::Done => (s, StopAction::Finished(false)),
    }
}

impl StopSequence {
    /// Stopping the child `child_pid`, whose real process is `real_pid` when
    /// known (the child itself otherwise).
    pub fn new(child_pid: u32, force: bool, real_pid: Option<u32>) -> (s: Self)
        ensures
            s == (StopSequence {
                child_pid,
                target: match real_pid {
                    Some(p) => p,
                    None => child_pid,
                },
                force,
                phase: StopPhase::Start,
            }),
    {
        let target = match real_pid {
            Some(p) => p,
            None => child_pid,
        };
        StopSequence { child_pid, target, force, phase: StopPhase::Start }
    }

    /// Moves on, given the answer `ok` to the last action (ignored at the
    /// start) and whether the deadline has passed (see `stop_step`).
    pub fn next(&mut self, ok: bool, deadline_passed: bool) -> (a: StopAction)
        ensures
            (*final(self), a) == stop_step(*old(self), ok, deadline_passed),
    {
        let s = *self;
        let (n, a) = match s.phase {
            StopPhase::Start => if s.force {
                (StopSequence { phase: StopPhase::KillingTree, ..s }, StopAction::KillTree(s.child_pid))
            } else {
                (StopSequence { phase: StopPhase::Asked, ..s }, StopAction::AskToClose(s.target))
            },
            StopPhase::KillingTree => (StopSequence { phase: StopPhase::Done, ..s }, StopAction::Finished(ok)),
            StopPhase::Asked => if ok && !deadline_passed {
                (StopSequence { phase: StopPhase::Waiting, ..s }, StopAction::WaitAndCheck(s.target))
            } else {
                (StopSequence { phase: StopPhase::Ending, ..s }, StopAction::EndProcess(s.target))
            },
            StopPhase::Waiting => if !ok {
                (StopSequence { phase: StopPhase::Done, ..s }, StopAction::Finished(true))
            } else if deadline_passed {
                (StopSequence { phase: StopPhase::Ending, ..s }, StopAction::EndProcess(s.target))
            } else {
                (s, StopAction::WaitAndCheck(s.target))
            },
            StopPhase::Ending => (StopSequence { phase: StopPhase::Done, ..s }, StopAction::Finished(!ok)),
            StopPhase::Done => (s, StopAction::Finished(false)),
        };
        *self = n;
        a
    }
}

/// The phases a stop of its kind passes through: a forced stop only ends
/// the tree; an unforced one never does.
pub open spec fn stop_consistent(s: StopSequence) -> bool {
    if s.force {
        s.phase == StopPhase::Start || s.phase == StopPhase::KillingTree || s.phase == StopPhase::Done
    } else {
        s.phase != StopPhase::KillingTree
    }
}

/// Every step keeps a stop within the phases of its kind.  A forced stop
/// ends the whole tree and nothing else; an unforced one never ends a tree,
/// acts on its real process only, and reports success only once that
/// process was seen gone.
pub proof fn law_stop_sequence(s: StopSequence, ok: bool, deadline_passed: bool)
    requires
        stop_consistent(s),
    ensures
        ({
            let (n, a) = stop_step(s, ok, deadline_passed);
            &&& stop_consistent(n)
            &&& n.child_pid == s.child_pid && n.target == s.target && n.force == s.force
            &&& s.force && s.phase != StopPhase::Done ==> (a is KillTree && a->KillTree_0 == s.child_pid) || a is Finished
            &&& !s.force ==> !(a is KillTree)
            &&& !s.force ==> match a {
                StopAction::AskToClose(p) => p == s.target,
                StopAction::WaitAndCheck(p) => p == s.target,
                StopAction::EndProcess(p) => p == s.target,
                _ => true,
            }
            &&& !s.force && a == StopAction::Finished(true) ==> !ok && (s.phase == StopPhase::Waiting || s.phase == StopPhase::Ending)
        }),
{
}

} // verus!
