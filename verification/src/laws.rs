//! The pool's governing laws, proved once and for all over the transition
//! functions that the executable operations are specified against.

use vstd::prelude::*;

use crate::fingerprint::SpecContent;
use crate::pool::EntryModel;
use crate::pool::PoolModel;
use crate::pool::StepModel;
use crate::pool::acquire_transition;
use crate::pool::has_fp;
use crate::pool::has_idle;
use crate::pool::index_of;
use crate::pool::install_transition;
use crate::pool::is_victim;
use crate::pool::lemma_acquire_preserves_wf;
use crate::pool::lemma_index_unique;
use crate::pool::lemma_install_preserves_wf;
use crate::pool::lemma_release_preserves_wf;
use crate::pool::lemma_victim_exists;
use crate::pool::release_transition;
use crate::pool::shutdown_transition;
use crate::pool::victim_index;
use crate::pool::wf;

verus! {

/// Reuse: once the lease on a fingerprint's server is released healthy, a
/// following acquisition of the same fingerprint is answered by reusing that
/// very server — same port, same working directory, and no spawn is asked
/// for — and the entry is leased again.
pub proof fn lemma_reuse_after_release(s: PoolModel, fp: SpecContent, port: u16)
    requires
        wf(s),
        !s.closed,
        has_fp(s.entries, fp),
        s.entries[index_of(s.entries, fp)].leased,
        s.entries[index_of(s.entries, fp)].port == port,
    ensures
        ({
            let s1 = release_transition(s, fp, port, true).0;
            let i = index_of(s.entries, fp);
            &&& acquire_transition(s1, fp, true).1 == StepModel::Acquired {
                fp,
                port,
                workdir: s.entries[i].workdir,
            }
            &&& has_fp(acquire_transition(s1, fp, true).0.entries, fp)
            &&& acquire_transition(s1, fp, true).0.entries[i].leased
        }),
{
    let i = index_of(s.entries, fp);
    assert(0 <= i < s.entries.len() && s.entries[i].fp == fp);
    lemma_release_preserves_wf(s, fp, port, true);
    let s1 = release_transition(s, fp, port, true).0;
    assert(s1.entries[i].fp == fp);
    lemma_index_unique(s1.entries, i);
    let e1 = s1.entries[i];
    assert(!e1.leased);
    let s2 = acquire_transition(s1, fp, true).0;
    assert(s2.entries == s1.entries.update(i, EntryModel { leased: true, touched: s1.clock, ..e1 }));
    assert(s2.entries[i].fp == fp && s2.entries[i].leased);
}

/// Isolation by fingerprint: two registered servers with different
/// fingerprints never share a port or a working directory, so leases taken
/// under different fingerprints never alias one server.
pub proof fn lemma_isolation(s: PoolModel, i: int, j: int)
    requires
        wf(s),
        0 <= i < s.entries.len(),
        0 <= j < s.entries.len(),
        s.entries[i].fp != s.entries[j].fp,
    ensures
        s.entries[i].port != s.entries[j].port,
        s.entries[i].workdir != s.entries[j].workdir,
{
    assert(i != j);
}

/// Mutual exclusion: while a fingerprint's server is leased, a further
/// acquisition of that fingerprint hands out nothing — it leaves the pool
/// untouched and tells the caller to wait for the release.
pub proof fn lemma_mutual_exclusion(s: PoolModel, fp: SpecContent, healthy: bool)
    requires
        wf(s),
        !s.closed,
        has_fp(s.entries, fp),
        s.entries[index_of(s.entries, fp)].leased,
    ensures
        acquire_transition(s, fp, healthy).0 == s,
        acquire_transition(s, fp, healthy).1 is Wait,
{
}

/// Mutual exclusion, granting side: an acquisition yields a reuse lease only
/// when the fingerprint's entry was idle, and it flips exactly that entry to
/// leased — so a lease is never minted for an entry that already has one.
pub proof fn lemma_lease_grant_requires_idle(s: PoolModel, fp: SpecContent, healthy: bool)
    requires
        wf(s),
        acquire_transition(s, fp, healthy).1 is Acquired,
    ensures
        !s.closed,
        healthy,
        has_fp(s.entries, fp),
        !s.entries[index_of(s.entries, fp)].leased,
        acquire_transition(s, fp, healthy).0.entries[index_of(s.entries, fp)].leased,
{
}

/// Capacity bound: no transition — acquisition, installation, release or
/// shutdown — ever pushes the number of simultaneously registered servers
/// above the configured capacity.
pub proof fn lemma_capacity_bound(
    s: PoolModel,
    fp: SpecContent,
    healthy: bool,
    port: u16,
    workdir: Seq<char>,
    pid: u64,
)
    requires
        wf(s),
    ensures
        acquire_transition(s, fp, healthy).0.entries.len() <= s.capacity,
        install_transition(s, fp, port, workdir, pid).0.entries.len() <= s.capacity,
        release_transition(s, fp, port, healthy).0.entries.len() <= s.capacity,
        shutdown_transition(s).entries.len() <= s.capacity,
{
    lemma_acquire_preserves_wf(s, fp, healthy);
    lemma_install_preserves_wf(s, fp, port, workdir, pid);
    lemma_release_preserves_wf(s, fp, port, healthy);
}

/// Eviction correctness: at capacity, when a new fingerprint arrives and at
/// least one server is idle, the acquisition removes exactly the idle entry
/// with the oldest touch time (ties broken towards the older installation)
/// and only then asks for the spawn.
pub proof fn lemma_eviction(s: PoolModel, fp: SpecContent, healthy: bool)
    requires
        wf(s),
        !s.closed,
        !has_fp(s.entries, fp),
        s.entries.len() == s.capacity,
        has_idle(s.entries),
    ensures
        is_victim(s.entries, victim_index(s.entries)),
        acquire_transition(s, fp, healthy).1 == (StepModel::Spawn {
            victim: Some(s.entries[victim_index(s.entries)]),
        }),
        acquire_transition(s, fp, healthy).0.entries == s.entries.remove(victim_index(s.entries)),
        acquire_transition(s, fp, healthy).0.entries.len() == s.capacity - 1,
{
    let w = choose|w: int| 0 <= w < s.entries.len() && !s.entries[w].leased;
    lemma_victim_exists(s.entries, w);
}

/// Blocking correctness: at capacity with every server leased, an
/// acquisition for a new fingerprint changes nothing and waits; and after
/// any release of a live lease the same acquisition no longer waits — it is
/// told to spawn, either into the freed slot or over the now idle entry.
pub proof fn lemma_block_until_release(
    s: PoolModel,
    fp: SpecContent,
    healthy: bool,
    rel_fp: SpecContent,
    rel_port: u16,
    rel_healthy: bool,
)
    requires
        wf(s),
        !s.closed,
        !has_fp(s.entries, fp),
        s.entries.len() == s.capacity,
        forall|i: int| #![trigger s.entries[i]] 0 <= i < s.entries.len() ==> s.entries[i].leased,
        has_fp(s.entries, rel_fp),
        s.entries[index_of(s.entries, rel_fp)].port == rel_port,
    ensures
        acquire_transition(s, fp, healthy).0 == s,
        acquire_transition(s, fp, healthy).1 is Wait,
        acquire_transition(release_transition(s, rel_fp, rel_port, rel_healthy).0, fp, healthy).1
            is Spawn,
{
    let i = index_of(s.entries, rel_fp);
    assert(0 <= i < s.entries.len() && s.entries[i].fp == rel_fp);
    lemma_release_preserves_wf(s, rel_fp, rel_port, rel_healthy);
    let t1 = release_transition(s, rel_fp, rel_port, rel_healthy).0;
    if rel_healthy {
        assert(t1.entries == s.entries.update(
            i,
            EntryModel { leased: false, touched: s.clock, ..s.entries[i] },
        ));
        assert forall|k: int| #![trigger t1.entries[k]]
            0 <= k < t1.entries.len() implies t1.entries[k].fp == s.entries[k].fp by {}
        if has_fp(t1.entries, fp) {
            let k = choose|k: int| #![trigger t1.entries[k]]
                0 <= k < t1.entries.len() && t1.entries[k].fp == fp;
            assert(s.entries[k].fp == fp);
            assert(false);
        }
        assert(!t1.entries[i].leased);
        assert(has_idle(t1.entries));
        assert(!(t1.entries.len() < t1.capacity));
    } else {
        assert(t1.entries == s.entries.remove(i));
        if has_fp(t1.entries, fp) {
            let k = choose|k: int| #![trigger t1.entries[k]]
                0 <= k < t1.entries.len() && t1.entries[k].fp == fp;
            let k0: int = if k < i {
                k
            } else {
                k + 1
            };
            assert(t1.entries[k] == s.entries[k0]);
            assert(false);
        }
        assert(t1.entries.len() < t1.capacity);
    }
}

} // verus!
