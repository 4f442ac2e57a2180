//! The capacity-bounded registry of running worker servers.
//!
//! The pool is the sequential decision core of the system: every step that
//! reads or changes the registry — lookup, reuse, eviction, installation of a
//! freshly spawned server, release, shutdown — is a verified function on
//! plain values, and each one is specified against a mathematical transition
//! function over [`PoolModel`]. The surrounding runtime serializes calls into
//! the pool (one lock around the bookkeeping), performs the outside work the
//! pool asks for (spawn a process, kill one, probe health, provision a
//! working directory), and feeds the outcomes back in as arguments.
//!
//! Waiting is cooperative: when a step answers [`AcquireStep::Wait`], the
//! caller suspends until some release happens and then re-runs the whole
//! algorithm from scratch, so no decision ever rests on stale state. A
//! waiter holds nothing while it waits, so abandoning the wait leaks no
//! slot and needs no cleanup.

use vstd::prelude::*;

use crate::fingerprint::Fingerprint;
use crate::fingerprint::SpecContent;

verus! {

/// Mathematical content of one registered server: its key, its address, and
/// its place in the lease / eviction discipline.
#[verifier::ext_equal]
pub ghost struct EntryModel {
    /// The fingerprint the server was started for.
    pub fp: SpecContent,
    /// The port the server listens on.
    pub port: u16,
    /// The server's private working directory.
    pub workdir: Seq<char>,
    /// Process identity, for killing and health probes.
    pub pid: u64,
    /// Whether a caller currently holds the server's lease.
    pub leased: bool,
    /// Logical time of the last acquire or release that touched the entry;
    /// the eviction order is oldest-first.
    pub touched: u64,
}

/// Mathematical content of the whole pool.
#[verifier::ext_equal]
pub ghost struct PoolModel {
    /// Maximum number of simultaneously registered servers.
    pub capacity: nat,
    /// Logical clock; advances on every touch and saturates at `u64::MAX`.
    pub clock: u64,
    /// Whether the pool has been shut down.
    pub closed: bool,
    /// The registered servers, in installation order.
    pub entries: Seq<EntryModel>,
}

/// Mathematical content of a lease.
#[verifier::ext_equal]
pub ghost struct LeaseModel {
    /// The fingerprint of the entry the lease refers to.
    pub fp: SpecContent,
    /// The leased server's port.
    pub port: u16,
    /// The leased server's working directory.
    pub workdir: Seq<char>,
    /// Whether the lease has already been given back.
    pub released: bool,
}

/// The saturating logical clock step.
pub open spec fn tick(c: u64) -> u64 {
    if c < u64::MAX {
        (c + 1) as u64
    } else {
        c
    }
}

/// Whether some entry carries fingerprint `fp`.
pub open spec fn has_fp(s: Seq<EntryModel>, fp: SpecContent) -> bool {
    exists|i: int| #![trigger s[i]] 0 <= i < s.len() && s[i].fp == fp
}

/// The index of the entry carrying `fp`; meaningful only when `has_fp` holds
/// and the fingerprints are distinct, in which case it is the unique index.
pub open spec fn index_of(s: Seq<EntryModel>, fp: SpecContent) -> int {
    choose|i: int| #![trigger s[i]] 0 <= i < s.len() && s[i].fp == fp
}

/// Whether some entry is idle.
pub open spec fn has_idle(s: Seq<EntryModel>) -> bool {
    exists|i: int| #![trigger s[i]] 0 <= i < s.len() && !s[i].leased
}

/// Whether `v` indexes the eviction victim: an idle entry whose last touch is
/// strictly oldest, with ties broken towards the lower index (installation
/// order). This is a strict total order over idle entries, so the victim is
/// unique.
pub open spec fn is_victim(s: Seq<EntryModel>, v: int) -> bool {
    &&& 0 <= v < s.len()
    &&& !s[v].leased
    &&& forall|j: int| #![trigger s[j]]
        0 <= j < s.len() && !s[j].leased ==> (s[v].touched < s[j].touched || (s[v].touched
            == s[j].touched && v <= j))
}

/// The eviction victim's index; meaningful only when `has_idle` holds.
pub open spec fn victim_index(s: Seq<EntryModel>) -> int {
    choose|v: int| is_victim(s, v)
}

/// No two distinct entries share a fingerprint, a port, or a working
/// directory.
pub open spec fn entries_distinct(s: Seq<EntryModel>) -> bool {
    forall|i: int, j: int| #![trigger s[i], s[j]]
        0 <= i < s.len() && 0 <= j < s.len() && i != j ==> s[i].fp != s[j].fp && s[i].port
            != s[j].port && s[i].workdir != s[j].workdir
}

/// Well-formedness of a pool state. Established by construction and preserved
/// by every transition; `entries.len() <= capacity` is the capacity bound.
pub open spec fn wf(s: PoolModel) -> bool {
    &&& s.capacity >= 1
    &&& s.entries.len() <= s.capacity
    &&& entries_distinct(s.entries)
    &&& forall|i: int| #![trigger s.entries[i]]
        0 <= i < s.entries.len() ==> s.entries[i].touched <= s.clock
    &&& s.closed ==> s.entries.len() == 0
}

/// What one acquisition step decided, at the model level.
pub ghost enum StepModel {
    /// An idle healthy server for the same fingerprint was reused; the caller
    /// now holds its lease.
    Acquired { fp: SpecContent, port: u16, workdir: Seq<char> },
    /// No server can be reused: the caller must provision a working
    /// directory, spawn a server, and offer it back through `install`. If a
    /// victim is given (an unhealthy match, or the least-recently-touched
    /// idle entry evicted to free capacity), it has already left the registry
    /// and must be killed.
    Spawn { victim: Option<EntryModel> },
    /// The registry is full of leased servers (or the matching entry is
    /// leased): the caller must wait for a release and retry.
    Wait,
    /// The pool has been shut down.
    Closed,
}

/// What one release step did, at the model level.
pub ghost enum ReleaseModel {
    /// The entry went back to idle and its touch time advanced.
    Idled,
    /// The entry was unhealthy: it left the registry and must be killed.
    Killed { victim: EntryModel },
    /// The lease no longer matches a leased entry (the pool was shut down
    /// underneath it); nothing changed.
    Detached,
}

/// Why an offered server was not installed.
pub ghost enum InstallDenialModel {
    /// The pool has been shut down.
    Closed,
    /// Another caller installed a server for the same fingerprint first.
    Busy,
    /// The registry is full again.
    Full,
    /// The offered port or working directory is already in use.
    Collision,
}

/// The acquisition algorithm as one transition: from a state, a requested
/// fingerprint, and the health-probe outcome for the matching idle entry (if
/// any), to the next state and the decision.
///
/// `healthy` is consulted only on the reuse path; on every other path the
/// decision does not depend on it.
pub open spec fn acquire_transition(s: PoolModel, fp: SpecContent, healthy: bool) -> (PoolModel,
    StepModel) {
    if s.closed {
        (s, StepModel::Closed)
    } else if has_fp(s.entries, fp) {
        let i = index_of(s.entries, fp);
        let e = s.entries[i];
        if e.leased {
            (s, StepModel::Wait)
        } else if healthy {
            let e2 = EntryModel { leased: true, touched: s.clock, ..e };
            let s2 = PoolModel { clock: tick(s.clock), entries: s.entries.update(i, e2), ..s };
            (s2, StepModel::Acquired { fp: e.fp, port: e.port, workdir: e.workdir })
        } else {
            let s2 = PoolModel { entries: s.entries.remove(i), ..s };
            (s2, StepModel::Spawn { victim: Some(e) })
        }
    } else if s.entries.len() < s.capacity {
        (s, StepModel::Spawn { victim: None })
    } else if has_idle(s.entries) {
        let v = victim_index(s.entries);
        let s2 = PoolModel { entries: s.entries.remove(v), ..s };
        (s2, StepModel::Spawn { victim: Some(s.entries[v]) })
    } else {
        (s, StepModel::Wait)
    }
}

/// The installation of a freshly spawned server as one transition. `Ok`
/// exactly when the pool is open, the fingerprint is still unclaimed, a slot
/// is still free, and the port and working directory are fresh.
pub open spec fn install_transition(
    s: PoolModel,
    fp: SpecContent,
    port: u16,
    workdir: Seq<char>,
    pid: u64,
) -> (PoolModel, Result<LeaseModel, InstallDenialModel>) {
    if s.closed {
        (s, Err(InstallDenialModel::Closed))
    } else if has_fp(s.entries, fp) {
        (s, Err(InstallDenialModel::Busy))
    } else if s.entries.len() >= s.capacity {
        (s, Err(InstallDenialModel::Full))
    } else if exists|j: int| #![trigger s.entries[j]]
        0 <= j < s.entries.len() && (s.entries[j].port == port || s.entries[j].workdir
            == workdir) {
        (s, Err(InstallDenialModel::Collision))
    } else {
        let e = EntryModel { fp, port, workdir, pid, leased: true, touched: s.clock };
        let s2 = PoolModel { clock: tick(s.clock), entries: s.entries.push(e), ..s };
        (s2, Ok(LeaseModel { fp, port, workdir, released: false }))
    }
}

/// The release of a live lease as one transition, keyed by the lease's
/// fingerprint and port. A health failure on release is routine cleanup, not
/// an error: the entry just leaves the registry.
pub open spec fn release_transition(s: PoolModel, fp: SpecContent, port: u16, healthy: bool) -> (
    PoolModel,
    ReleaseModel,
) {
    if has_fp(s.entries, fp) {
        let i = index_of(s.entries, fp);
        let e = s.entries[i];
        if e.leased && e.port == port {
            if healthy {
                let e2 = EntryModel { leased: false, touched: s.clock, ..e };
                let s2 = PoolModel { clock: tick(s.clock), entries: s.entries.update(i, e2), ..s };
                (s2, ReleaseModel::Idled)
            } else {
                let s2 = PoolModel { entries: s.entries.remove(i), ..s };
                (s2, ReleaseModel::Killed { victim: e })
            }
        } else {
            (s, ReleaseModel::Detached)
        }
    } else {
        (s, ReleaseModel::Detached)
    }
}

/// Shutdown as one transition: the pool closes and every entry leaves the
/// registry to be killed.
pub open spec fn shutdown_transition(s: PoolModel) -> PoolModel {
    PoolModel { closed: true, entries: Seq::empty(), ..s }
}


/// The entry index found for a fingerprint is the unique one: with distinct
/// fingerprints, `index_of` agrees with any index that carries the key.
pub proof fn lemma_index_unique(s: Seq<EntryModel>, j: int)
    requires
        entries_distinct(s),
        0 <= j < s.len(),
    ensures
        has_fp(s, s[j].fp),
        index_of(s, s[j].fp) == j,
{
    assert(has_fp(s, s[j].fp));
    let i = index_of(s, s[j].fp);
    assert(0 <= i < s.len() && s[i].fp == s[j].fp);
    if i != j {
        assert(s[i].fp != s[j].fp);
    }
}

/// The eviction victim is unique: the order (touch time, then index) is a
/// strict total order over idle entries.
pub proof fn lemma_victim_unique(s: Seq<EntryModel>, v1: int, v2: int)
    requires
        is_victim(s, v1),
        is_victim(s, v2),
    ensures
        v1 == v2,
{
    assert(s[v1].touched < s[v2].touched || (s[v1].touched == s[v2].touched && v1 <= v2));
    assert(s[v2].touched < s[v1].touched || (s[v2].touched == s[v1].touched && v2 <= v1));
}

/// Removing an entry keeps the remaining entries distinct.
pub proof fn lemma_remove_distinct(s: Seq<EntryModel>, i: int)
    requires
        entries_distinct(s),
        0 <= i < s.len(),
    ensures
        entries_distinct(s.remove(i)),
{
    let t = s.remove(i);
    assert forall|a: int, b: int| #![trigger t[a], t[b]]
        0 <= a < t.len() && 0 <= b < t.len() && a != b implies t[a].fp != t[b].fp && t[a].port
        != t[b].port && t[a].workdir != t[b].workdir by {
        let a0: int = if a < i { a } else { a + 1 };
        let b0: int = if b < i { b } else { b + 1 };
        assert(t[a] == s[a0]);
        assert(t[b] == s[b0]);
    }
}

/// Every acquisition step preserves well-formedness; in particular the
/// number of registered servers never exceeds the capacity.
pub proof fn lemma_acquire_preserves_wf(s: PoolModel, fp: SpecContent, healthy: bool)
    requires
        wf(s),
    ensures
        wf(acquire_transition(s, fp, healthy).0),
{
    let s2 = acquire_transition(s, fp, healthy).0;
    if s.closed {
    } else if has_fp(s.entries, fp) {
        let i = index_of(s.entries, fp);
        assert(0 <= i < s.entries.len() && s.entries[i].fp == fp);
        if s.entries[i].leased {
        } else if healthy {
            let e2 = EntryModel { leased: true, touched: s.clock, ..s.entries[i] };
            let t = s.entries.update(i, e2);
            assert forall|a: int, b: int| #![trigger t[a], t[b]]
                0 <= a < t.len() && 0 <= b < t.len() && a != b implies t[a].fp != t[b].fp
                && t[a].port != t[b].port && t[a].workdir != t[b].workdir by {
                assert(s.entries[a].fp == t[a].fp && s.entries[a].port == t[a].port
                    && s.entries[a].workdir == t[a].workdir);
                assert(s.entries[b].fp == t[b].fp && s.entries[b].port == t[b].port
                    && s.entries[b].workdir == t[b].workdir);
            }
        } else {
            lemma_remove_distinct(s.entries, i);
        }
    } else if s.entries.len() < s.capacity {
    } else if has_idle(s.entries) {
        let v = victim_index(s.entries);
        if is_victim(s.entries, v) {
            lemma_remove_distinct(s.entries, v);
        } else {
            let w = choose|w: int| 0 <= w < s.entries.len() && !s.entries[w].leased;
            lemma_victim_exists(s.entries, w);
            assert(is_victim(s.entries, victim_index(s.entries)));
        }
    } else {
    }
}

/// Among the idle entries one is the victim: proved by walking the sequence.
pub proof fn lemma_victim_exists(s: Seq<EntryModel>, w: int)
    requires
        0 <= w < s.len(),
        !s[w].leased,
    ensures
        is_victim(s, victim_index(s)),
    decreases s[w].touched, w,
{
    if exists|v: int| is_victim(s, v) {
        let v = choose|v: int| is_victim(s, v);
        assert(is_victim(s, victim_index(s)));
    } else {
        assert(!is_victim(s, w));
        let j = choose|j: int|
            0 <= j < s.len() && !s[j].leased && !(s[w].touched < s[j].touched || (s[w].touched
                == s[j].touched && w <= j));
        assert(s[j].touched < s[w].touched || (s[j].touched == s[w].touched && j < w));
        lemma_victim_exists(s, j);
    }
}

/// Installation preserves well-formedness.
pub proof fn lemma_install_preserves_wf(
    s: PoolModel,
    fp: SpecContent,
    port: u16,
    workdir: Seq<char>,
    pid: u64,
)
    requires
        wf(s),
    ensures
        wf(install_transition(s, fp, port, workdir, pid).0),
{
    let s2 = install_transition(s, fp, port, workdir, pid).0;
    if !s.closed && !has_fp(s.entries, fp) && s.entries.len() < s.capacity && !(exists|j: int|
        #![trigger s.entries[j]]
        0 <= j < s.entries.len() && (s.entries[j].port == port || s.entries[j].workdir
            == workdir)) {
        let e = EntryModel { fp, port, workdir, pid, leased: true, touched: s.clock };
        let t = s.entries.push(e);
        assert forall|a: int, b: int| #![trigger t[a], t[b]]
            0 <= a < t.len() && 0 <= b < t.len() && a != b implies t[a].fp != t[b].fp && t[a].port
            != t[b].port && t[a].workdir != t[b].workdir by {
            if a < s.entries.len() && b < s.entries.len() {
                assert(t[a] == s.entries[a]);
                assert(t[b] == s.entries[b]);
            } else if a < s.entries.len() {
                assert(t[a] == s.entries[a] && t[b] == e);
            } else {
                assert(t[a] == e && t[b] == s.entries[b]);
            }
        }
    }
}

/// Release preserves well-formedness.
pub proof fn lemma_release_preserves_wf(s: PoolModel, fp: SpecContent, port: u16, healthy: bool)
    requires
        wf(s),
    ensures
        wf(release_transition(s, fp, port, healthy).0),
{
    if has_fp(s.entries, fp) {
        let i = index_of(s.entries, fp);
        assert(0 <= i < s.entries.len() && s.entries[i].fp == fp);
        if s.entries[i].leased && s.entries[i].port == port {
            if healthy {
                let e2 = EntryModel { leased: false, touched: s.clock, ..s.entries[i] };
                let t = s.entries.update(i, e2);
                assert forall|a: int, b: int| #![trigger t[a], t[b]]
                    0 <= a < t.len() && 0 <= b < t.len() && a != b implies t[a].fp != t[b].fp
                    && t[a].port != t[b].port && t[a].workdir != t[b].workdir by {
                    assert(s.entries[a].fp == t[a].fp && s.entries[a].port == t[a].port
                        && s.entries[a].workdir == t[a].workdir);
                    assert(s.entries[b].fp == t[b].fp && s.entries[b].port == t[b].port
                        && s.entries[b].workdir == t[b].workdir);
                }
            } else {
                lemma_remove_distinct(s.entries, i);
            }
        }
    }
}


/// One registered server: the key it was started for, where it listens, and
/// its place in the lease / eviction discipline.
struct Entry {
    fp: Fingerprint,
    port: u16,
    workdir: String,
    pid: u64,
    leased: bool,
    touched: u64,
}

impl View for Entry {
    type V = EntryModel;

    closed spec fn view(&self) -> EntryModel {
        EntryModel {
            fp: self.fp@,
            port: self.port,
            workdir: self.workdir@,
            pid: self.pid,
            leased: self.leased,
            touched: self.touched,
        }
    }
}

/// A caller-held token granting exclusive, temporary use of one registered
/// server. At most one outstanding lease exists per entry; releasing it a
/// second time is refused.
pub struct Lease {
    fp: Fingerprint,
    port: u16,
    workdir: String,
    released: bool,
}

impl View for Lease {
    type V = LeaseModel;

    closed spec fn view(&self) -> LeaseModel {
        LeaseModel { fp: self.fp@, port: self.port, workdir: self.workdir@, released: self.released }
    }
}

impl Lease {
    /// The leased server's port, for the caller's own use of the worker.
    pub fn port(&self) -> (r: u16)
        ensures
            r == self@.port,
    {
        self.port
    }

    /// The leased server's private working directory.
    pub fn workdir_path(&self) -> (r: &String)
        ensures
            r@ == self@.workdir,
    {
        &self.workdir
    }

    /// The fingerprint of the entry the lease refers to.
    pub fn fingerprint(&self) -> (r: &Fingerprint)
        ensures
            r@ == self@.fp,
    {
        &self.fp
    }

    /// Whether the lease has already been given back.
    pub fn is_released(&self) -> (r: bool)
        ensures
            r == self@.released,
    {
        self.released
    }
}

/// A server that has left the registry and must now be killed by the
/// runtime, together with the working directory to clean up.
pub struct Evicted {
    pub port: u16,
    pub pid: u64,
    pub workdir: String,
}

/// Whether an eviction record carries the content of a model entry.
pub open spec fn evicted_matches(ev: Evicted, e: EntryModel) -> bool {
    ev.port == e.port && ev.pid == e.pid && ev.workdir@ == e.workdir
}

/// What one acquisition step decided.
pub enum AcquireStep {
    /// An idle healthy server for the same fingerprint was reused.
    Acquired(Lease),
    /// The caller must provision a directory, spawn a server and offer it
    /// back through `install`; any given victim must be killed first.
    Spawn(Option<Evicted>),
    /// The caller must wait for some release and then retry from scratch.
    Wait,
    /// The pool has been shut down.
    Closed,
}

/// What one release step did.
pub enum ReleaseAction {
    /// The server is idle again and may be reused.
    Idled,
    /// The server was unhealthy; the runtime must kill it.
    Killed(Evicted),
    /// The lease no longer matches a registered server; nothing changed.
    Detached,
}

/// Why an offered server was not installed.
#[derive(Debug)]
pub enum InstallDenial {
    Closed,
    Busy,
    Full,
    Collision,
}

/// The error taxonomy surfaced to callers of the pool.
#[derive(Debug)]
pub enum PoolError {
    /// The worker process failed to start or become ready.
    Spawn,
    /// An input file could not be materialized into the working directory.
    Provision,
    /// A lease was released twice.
    DoubleRelease,
    /// The pool was shut down before or during the attempt.
    PoolClosed,
}

/// Whether an acquisition step's answer carries the content of the model
/// decision.
pub open spec fn step_matches(r: AcquireStep, m: StepModel) -> bool {
    match r {
        AcquireStep::Acquired(l) => match m {
            StepModel::Acquired { fp, port, workdir } => l@ == (LeaseModel {
                fp,
                port,
                workdir,
                released: false,
            }),
            _ => false,
        },
        AcquireStep::Spawn(ov) => match m {
            StepModel::Spawn { victim } => match (ov, victim) {
                (Option::None, Option::None) => true,
                (Option::Some(ev), Option::Some(e)) => evicted_matches(ev, e),
                _ => false,
            },
            _ => false,
        },
        AcquireStep::Wait => m is Wait,
        AcquireStep::Closed => m is Closed,
    }
}

/// Whether a release step's answer carries the content of the model outcome.
pub open spec fn action_matches(r: ReleaseAction, m: ReleaseModel) -> bool {
    match r {
        ReleaseAction::Idled => m is Idled,
        ReleaseAction::Killed(ev) => match m {
            ReleaseModel::Killed { victim } => evicted_matches(ev, victim),
            _ => false,
        },
        ReleaseAction::Detached => m is Detached,
    }
}

/// Whether an installation denial carries the model denial.
pub open spec fn denial_matches(r: InstallDenial, m: InstallDenialModel) -> bool {
    match r {
        InstallDenial::Closed => m is Closed,
        InstallDenial::Busy => m is Busy,
        InstallDenial::Full => m is Full,
        InstallDenial::Collision => m is Collision,
    }
}

/// An idle registered server that an acquisition could reuse, handed to the
/// runtime so it can probe the server's health first.
pub struct ProbeTarget {
    pub port: u16,
    pub pid: u64,
}

/// The capacity-bounded registry of running servers, keyed by fingerprint.
pub struct Pool {
    capacity: usize,
    clock: u64,
    closed: bool,
    entries: Vec<Entry>,
}

impl View for Pool {
    type V = PoolModel;

    closed spec fn view(&self) -> PoolModel {
        PoolModel {
            capacity: self.capacity as nat,
            clock: self.clock,
            closed: self.closed,
            entries: Seq::new(self.entries@.len(), |i: int| self.entries@[i]@),
        }
    }
}

impl Pool {
    /// A fresh, open pool that will never register more than `capacity`
    /// servers at once.
    pub fn new(capacity: usize) -> (r: Pool)
        requires
            capacity >= 1,
        ensures
            r@ == (PoolModel {
                capacity: capacity as nat,
                clock: 0,
                closed: false,
                entries: Seq::empty(),
            }),
            wf(r@),
    {
        let r = Pool { capacity, clock: 0, closed: false, entries: Vec::new() };
        proof {
            assert(r@.entries =~= Seq::<EntryModel>::empty());
            assert(r@ =~~= (PoolModel {
                capacity: capacity as nat,
                clock: 0,
                closed: false,
                entries: Seq::empty(),
            }));
        }
        r
    }

    /// The configured capacity.
    pub fn capacity(&self) -> (r: usize)
        ensures
            r as nat == self@.capacity,
    {
        self.capacity
    }

    /// How many servers are currently registered, leased or idle.
    pub fn live_count(&self) -> (r: usize)
        ensures
            r as nat == self@.entries.len(),
    {
        self.entries.len()
    }

    /// Whether the pool has been shut down.
    pub fn is_closed(&self) -> (r: bool)
        ensures
            r == self@.closed,
    {
        self.closed
    }

    /// Advances the logical clock, saturating at the maximum.
    fn advance_clock(&mut self)
        ensures
            final(self)@ == (PoolModel { clock: tick(old(self)@.clock), ..old(self)@ }),
    {
        if self.clock < u64::MAX {
            self.clock = self.clock + 1;
        }
        proof {
            assert(self@ =~~= (PoolModel { clock: tick(old(self)@.clock), ..old(self)@ }));
        }
    }

    /// Finds the registry index of a fingerprint, if any.
    fn find_index(&self, fp: &Fingerprint) -> (r: Option<usize>)
        requires
            entries_distinct(self@.entries),
        ensures
            match r {
                Option::Some(i) => has_fp(self@.entries, fp@) && (i as int)
                    < self@.entries.len() && self@.entries[i as int].fp == fp@ && index_of(
                    self@.entries,
                    fp@,
                ) == i as int,
                Option::None => !has_fp(self@.entries, fp@),
            },
    {
        let mut i: usize = 0;
        while i < self.entries.len()
            invariant
                entries_distinct(self@.entries),
                0 <= i <= self@.entries.len(),
                forall|j: int| #![trigger self@.entries[j]]
                    0 <= j < i ==> self@.entries[j].fp != fp@,
            decreases self@.entries.len() - i,
        {
            if self.entries[i].fp.matches(fp) {
                proof {
                    lemma_index_unique(self@.entries, i as int);
                }
                return Option::Some(i);
            }
            i += 1;
        }
        Option::None
    }

    /// Finds the eviction victim: the least-recently-touched idle entry,
    /// ties broken towards the older installation.
    fn find_victim(&self) -> (r: Option<usize>)
        ensures
            match r {
                Option::Some(v) => is_victim(self@.entries, v as int) && victim_index(
                    self@.entries,
                ) == v as int,
                Option::None => !has_idle(self@.entries),
            },
    {
        let mut best: Option<usize> = Option::None;
        let mut i: usize = 0;
        while i < self.entries.len()
            invariant
                0 <= i <= self@.entries.len(),
                match best {
                    Option::Some(b) => (b as int) < i && !self@.entries[b as int].leased
                        && forall|j: int| #![trigger self@.entries[j]]
                        0 <= j < i && !self@.entries[j].leased ==> (self@.entries[
                            b as int
                        ].touched < self@.entries[j].touched || (self@.entries[b as int].touched
                            == self@.entries[j].touched && b as int <= j)),
                    Option::None => forall|j: int| #![trigger self@.entries[j]]
                        0 <= j < i ==> self@.entries[j].leased,
                },
            decreases self@.entries.len() - i,
        {
            if !self.entries[i].leased {
                match best {
                    Option::Some(b) => {
                        if self.entries[i].touched < self.entries[b].touched {
                            best = Option::Some(i);
                        }
                    },
                    Option::None => {
                        best = Option::Some(i);
                    },
                }
            }
            i += 1;
        }
        proof {
            if let Option::Some(b) = best {
                assert(is_victim(self@.entries, b as int));
                lemma_victim_unique(
                    self@.entries,
                    b as int,
                    choose|v: int| is_victim(self@.entries, v),
                );
            }
        }
        best
    }
}


impl Pool {
    /// The idle registered server that an acquisition of `fp` could reuse,
    /// if there is one. The runtime probes its health and passes the outcome
    /// to `try_acquire`.
    pub fn reuse_candidate(&self, fp: &Fingerprint) -> (r: Option<ProbeTarget>)
        requires
            wf(self@),
        ensures
            match r {
                Option::Some(t) => has_fp(self@.entries, fp@) && !self@.entries[index_of(
                    self@.entries,
                    fp@,
                )].leased && t.port == self@.entries[index_of(self@.entries, fp@)].port && t.pid
                    == self@.entries[index_of(self@.entries, fp@)].pid,
                Option::None => !has_fp(self@.entries, fp@) || self@.entries[index_of(
                    self@.entries,
                    fp@,
                )].leased,
            },
    {
        match self.find_index(fp) {
            Option::Some(i) => {
                if !self.entries[i].leased {
                    Option::Some(ProbeTarget { port: self.entries[i].port, pid: self.entries[i].pid })
                } else {
                    Option::None
                }
            },
            Option::None => Option::None,
        }
    }

    /// One acquisition step for `fp`, run under the runtime's lock.
    ///
    /// `candidate_healthy` is the health-probe outcome for the reuse
    /// candidate; it is consulted only when there is an idle entry for `fp`.
    /// The state and the answer are exactly those of `acquire_transition`:
    /// reuse an idle healthy match, discard an unhealthy one, spawn when a
    /// slot is free (evicting the least-recently-touched idle entry when at
    /// capacity), wait when everything is leased, refuse when shut down.
    pub fn try_acquire(&mut self, fp: &Fingerprint, candidate_healthy: bool) -> (r: AcquireStep)
        requires
            wf(old(self)@),
        ensures
            wf(final(self)@),
            final(self)@ == acquire_transition(old(self)@, fp@, candidate_healthy).0,
            step_matches(r, acquire_transition(old(self)@, fp@, candidate_healthy).1),
    {
        proof {
            lemma_acquire_preserves_wf(old(self)@, fp@, candidate_healthy);
        }
        if self.closed {
            return AcquireStep::Closed;
        }
        let found = self.find_index(fp);
        match found {
            Option::Some(i) => {
                if self.entries[i].leased {
                    AcquireStep::Wait
                } else if candidate_healthy {
                    let now = self.clock;
                    let mut e = self.entries.remove(i);
                    e.leased = true;
                    e.touched = now;
                    let lease = Lease {
                        fp: e.fp.clone(),
                        port: e.port,
                        workdir: e.workdir.clone(),
                        released: false,
                    };
                    self.entries.insert(i, e);
                    self.advance_clock();
                    proof {
                        let t = acquire_transition(old(self)@, fp@, candidate_healthy).0;
                        assert(self@.entries =~= t.entries);
                        assert(self@ =~~= t);
                        let m = acquire_transition(old(self)@, fp@, candidate_healthy).1;
                        if let StepModel::Acquired { fp: mfp, port, workdir } = m {
                            assert(lease@ =~~= (LeaseModel {
                                fp: mfp,
                                port,
                                workdir,
                                released: false,
                            }));
                        }
                    }
                    AcquireStep::Acquired(lease)
                } else {
                    let e = self.entries.remove(i);
                    proof {
                        let t = acquire_transition(old(self)@, fp@, candidate_healthy).0;
                        assert(self@.entries =~= t.entries);
                        assert(self@ =~~= t);
                    }
                    AcquireStep::Spawn(
                        Option::Some(Evicted { port: e.port, pid: e.pid, workdir: e.workdir }),
                    )
                }
            },
            Option::None => {
                if self.entries.len() < self.capacity {
                    AcquireStep::Spawn(Option::None)
                } else {
                    let v = self.find_victim();
                    match v {
                        Option::Some(vi) => {
                            let e = self.entries.remove(vi);
                            proof {
                                let t = acquire_transition(old(self)@, fp@, candidate_healthy).0;
                                assert(self@.entries =~= t.entries);
                                assert(self@ =~~= t);
                            }
                            AcquireStep::Spawn(
                                Option::Some(
                                    Evicted { port: e.port, pid: e.pid, workdir: e.workdir },
                                ),
                            )
                        },
                        Option::None => AcquireStep::Wait,
                    }
                }
            },
        }
    }

    /// Whether some registered server already uses `port` or `workdir`.
    fn has_collision(&self, port: u16, workdir: &String) -> (r: bool)
        ensures
            r == exists|j: int| #![trigger self@.entries[j]]
                0 <= j < self@.entries.len() && (self@.entries[j].port == port
                    || self@.entries[j].workdir == workdir@),
    {
        let mut i: usize = 0;
        while i < self.entries.len()
            invariant
                0 <= i <= self@.entries.len(),
                forall|j: int| #![trigger self@.entries[j]]
                    0 <= j < i ==> self@.entries[j].port != port && self@.entries[j].workdir
                        != workdir@,
            decreases self@.entries.len() - i,
        {
            if self.entries[i].port == port || self.entries[i].workdir == *workdir {
                proof {
                    assert(0 <= i < self@.entries.len() && (self@.entries[i as int].port == port
                        || self@.entries[i as int].workdir == workdir@));
                }
                return true;
            }
            i += 1;
        }
        false
    }

    /// Offers a freshly spawned server for `fp` to the registry.
    ///
    /// `Ok` — with the caller's lease — exactly when the pool is open, no
    /// entry for `fp` appeared meanwhile, a slot is free, and the port and
    /// working directory are fresh; any denial leaves the registry exactly
    /// as it was, so a failed spawn or a lost race never corrupts the pool,
    /// and the runtime kills the orphan server and retries or reports.
    pub fn install(&mut self, fp: &Fingerprint, port: u16, workdir: String, pid: u64) -> (r: Result<
        Lease,
        InstallDenial,
    >)
        requires
            wf(old(self)@),
        ensures
            wf(final(self)@),
            final(self)@ == install_transition(old(self)@, fp@, port, workdir@, pid).0,
            match r {
                Result::Ok(l) => install_transition(old(self)@, fp@, port, workdir@, pid).1
                    == Result::<LeaseModel, InstallDenialModel>::Ok(l@),
                Result::Err(d) => (install_transition(old(self)@, fp@, port, workdir@, pid).1
                    matches Result::Err(dm) && denial_matches(d, dm)) && final(self)@ == old(
                    self,
                )@,
            },
    {
        proof {
            lemma_install_preserves_wf(old(self)@, fp@, port, workdir@, pid);
        }
        if self.closed {
            return Result::Err(InstallDenial::Closed);
        }
        match self.find_index(fp) {
            Option::Some(_) => Result::Err(InstallDenial::Busy),
            Option::None => {
                if self.entries.len() >= self.capacity {
                    Result::Err(InstallDenial::Full)
                } else if self.has_collision(port, &workdir) {
                    Result::Err(InstallDenial::Collision)
                } else {
                    let now = self.clock;
                    let lease = Lease {
                        fp: fp.clone(),
                        port,
                        workdir: workdir.clone(),
                        released: false,
                    };
                    let e = Entry { fp: fp.clone(), port, workdir, pid, leased: true, touched: now };
                    self.entries.push(e);
                    self.advance_clock();
                    proof {
                        let t = install_transition(old(self)@, fp@, port, lease@.workdir, pid).0;
                        assert(self@.entries =~= t.entries);
                        assert(self@ =~~= t);
                        let m = install_transition(old(self)@, fp@, port, lease@.workdir, pid).1;
                        if let Result::Ok(lm) = m {
                            assert(lease@ =~~= lm);
                        }
                    }
                    Result::Ok(lease)
                }
            },
        }
    }

    /// Gives a lease back.
    ///
    /// The first release of a lease always succeeds: a healthy server goes
    /// back to idle with a fresh touch time, an unhealthy one leaves the
    /// registry to be killed — routine cleanup, never an error. A second
    /// release of the same lease is refused with `DoubleRelease` and changes
    /// nothing.
    pub fn release(&mut self, lease: &mut Lease, healthy: bool) -> (r: Result<
        ReleaseAction,
        PoolError,
    >)
        requires
            wf(old(self)@),
        ensures
            wf(final(self)@),
            old(lease)@.released ==> final(self)@ == old(self)@ && final(lease)@ == old(lease)@ && (
            r matches Result::Err(e0) && e0 is DoubleRelease),
            !old(lease)@.released ==> final(lease)@ == (LeaseModel {
                released: true,
                ..old(lease)@
            }) && final(self)@ == release_transition(
                old(self)@,
                old(lease)@.fp,
                old(lease)@.port,
                healthy,
            ).0 && (r matches Result::Ok(a) && action_matches(
                a,
                release_transition(old(self)@, old(lease)@.fp, old(lease)@.port, healthy).1,
            )),
    {
        proof {
            lemma_release_preserves_wf(old(self)@, old(lease)@.fp, old(lease)@.port, healthy);
        }
        if lease.released {
            return Result::Err(PoolError::DoubleRelease);
        }
        lease.released = true;
        match self.find_index(&lease.fp) {
            Option::Some(i) => {
                if self.entries[i].leased && self.entries[i].port == lease.port {
                    if healthy {
                        let now = self.clock;
                        let mut e = self.entries.remove(i);
                        e.leased = false;
                        e.touched = now;
                        self.entries.insert(i, e);
                        self.advance_clock();
                        proof {
                            let t = release_transition(
                                old(self)@,
                                old(lease)@.fp,
                                old(lease)@.port,
                                healthy,
                            ).0;
                            assert(self@.entries =~= t.entries);
                            assert(self@ =~~= t);
                        }
                        Result::Ok(ReleaseAction::Idled)
                    } else {
                        let e = self.entries.remove(i);
                        proof {
                            let t = release_transition(
                                old(self)@,
                                old(lease)@.fp,
                                old(lease)@.port,
                                healthy,
                            ).0;
                            assert(self@.entries =~= t.entries);
                            assert(self@ =~~= t);
                        }
                        Result::Ok(
                            ReleaseAction::Killed(
                                Evicted { port: e.port, pid: e.pid, workdir: e.workdir },
                            ),
                        )
                    }
                } else {
                    Result::Ok(ReleaseAction::Detached)
                }
            },
            Option::None => Result::Ok(ReleaseAction::Detached),
        }
    }

    /// Shuts the pool down: closes it and hands back every registered
    /// server so the runtime can force-kill them all. Acquisitions from now
    /// on answer `Closed`.
    pub fn shutdown(&mut self) -> (r: Vec<Evicted>)
        requires
            wf(old(self)@),
        ensures
            wf(final(self)@),
            final(self)@ == shutdown_transition(old(self)@),
            r@.len() == old(self)@.entries.len(),
            forall|i: int| #![trigger r@[i]]
                0 <= i < r@.len() ==> evicted_matches(r@[i], old(self)@.entries[i]),
    {
        self.closed = true;
        let mut out: Vec<Evicted> = Vec::new();
        while self.entries.len() > 0
            invariant
                self@.closed,
                self@.capacity == old(self)@.capacity,
                self@.clock == old(self)@.clock,
                out@.len() + self@.entries.len() == old(self)@.entries.len(),
                forall|k: int| #![trigger out@[k]]
                    0 <= k < out@.len() ==> evicted_matches(out@[k], old(self)@.entries[k]),
                forall|k: int| #![trigger self@.entries[k]]
                    0 <= k < self@.entries.len() ==> self@.entries[k] == old(self)@.entries[out@.len()
                        + k],
            decreases self@.entries.len(),
        {
            let ghost pre = self@;
            let ghost pre_out = out@;
            let e = self.entries.remove(0);
            out.push(Evicted { port: e.port, pid: e.pid, workdir: e.workdir });
            proof {
                assert(e@ == pre.entries[0]);
                assert(out@ == pre_out.push(out@[pre_out.len() as int]));
                assert forall|k: int| #![trigger self@.entries[k]]
                    0 <= k < self@.entries.len() implies self@.entries[k] == pre.entries[k + 1] by {
                    assert(self@.entries[k] == self.entries@[k]@);
                }
            }
        }
        proof {
            assert(self@.entries =~= Seq::<EntryModel>::empty());
            assert(self@ =~~= shutdown_transition(old(self)@));
        }
        out
    }
}

} // verus!
