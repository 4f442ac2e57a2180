//! The pool's acquisition, release, eviction and shutdown behaviour, driven
//! the way a runtime would drive it: one decision step at a time, with the
//! outside outcomes (spawned port, working directory, process id, health)
//! supplied as plain values.

use nailgun_pool::fingerprint::Fingerprint;
use nailgun_pool::fingerprint::ProcessSpec;
use nailgun_pool::pool::AcquireStep;
use nailgun_pool::pool::InstallDenial;
use nailgun_pool::pool::Lease;
use nailgun_pool::pool::Pool;
use nailgun_pool::pool::PoolError;
use nailgun_pool::pool::ReleaseAction;

fn spec_for(command: &str) -> ProcessSpec {
    ProcessSpec::new(vec![String::from("/bin/bash"), String::from("-c"), String::from(command)])
}

fn fp_for(command: &str) -> Fingerprint {
    Fingerprint::compute(&spec_for(command))
}

/// Drives one full acquisition that is expected to end in a spawn: asks the
/// pool, then offers the "spawned" server back.
fn acquire_fresh(pool: &mut Pool, fp: &Fingerprint, port: u16, workdir: &str, pid: u64) -> Lease {
    match pool.try_acquire(fp, false) {
        AcquireStep::Spawn(_victim) => {},
        AcquireStep::Acquired(_) => panic!("expected a spawn, got a reuse"),
        AcquireStep::Wait => panic!("expected a spawn, told to wait"),
        AcquireStep::Closed => panic!("expected a spawn, pool closed"),
    }
    pool.install(fp, port, String::from(workdir), pid).unwrap()
}

/// Drives one full acquisition that is expected to reuse an idle healthy
/// server.
fn acquire_reused(pool: &mut Pool, fp: &Fingerprint) -> Lease {
    let candidate = pool.reuse_candidate(fp);
    assert!(candidate.is_some(), "expected an idle entry to reuse");
    match pool.try_acquire(fp, true) {
        AcquireStep::Acquired(lease) => lease,
        _ => panic!("expected a reuse"),
    }
}

#[test]
fn acquire() {
    let mut pool = Pool::new(1);
    let fp = fp_for("echo Mock port 100.; sleep 10");

    // Sequential calls with the same fingerprint reuse the entry.
    let mut one = acquire_fresh(&mut pool, &fp, 100, "/tmp/workdir-one", 11);
    assert_eq!(one.port(), 100);
    let workdir_one = one.workdir_path().clone();
    pool.release(&mut one, true).unwrap();

    let mut two = acquire_reused(&mut pool, &fp);
    assert_eq!(two.port(), 100);
    let workdir_two = two.workdir_path().clone();
    pool.release(&mut two, true).unwrap();
    assert_eq!(workdir_one, workdir_two);

    // A call with a different fingerprint launches in a new workdir and succeeds.
    let fp_other = fp_for("echo Mock port 200.; sleep 10");
    let mut three = acquire_fresh(&mut pool, &fp_other, 200, "/tmp/workdir-three", 12);
    assert_eq!(three.port(), 200);
    let workdir_three = three.workdir_path().clone();
    pool.release(&mut three, true).unwrap();
    assert_ne!(workdir_two, workdir_three);
}

#[test]
fn reuse_keeps_port_and_workdir_without_spawning() {
    let mut pool = Pool::new(1);
    let fp = fp_for("serve-a");

    let mut first = acquire_fresh(&mut pool, &fp, 4100, "/tmp/pool/a", 21);
    pool.release(&mut first, true).unwrap();
    assert_eq!(pool.live_count(), 1);

    // The second acquisition must not ask for a spawn at all.
    let second = acquire_reused(&mut pool, &fp);
    assert_eq!(second.port(), 4100);
    assert_eq!(second.workdir_path().as_str(), "/tmp/pool/a");
    assert_eq!(pool.live_count(), 1);
}

#[test]
fn different_fingerprint_evicts_the_idle_entry_at_capacity() {
    let mut pool = Pool::new(1);
    let fp_a = fp_for("serve-a");
    let fp_b = fp_for("serve-b");

    let mut lease_a = acquire_fresh(&mut pool, &fp_a, 4100, "/tmp/pool/a", 21);
    pool.release(&mut lease_a, true).unwrap();

    match pool.try_acquire(&fp_b, false) {
        AcquireStep::Spawn(Some(victim)) => {
            assert_eq!(victim.port, 4100);
            assert_eq!(victim.pid, 21);
            assert_eq!(victim.workdir.as_str(), "/tmp/pool/a");
        },
        _ => panic!("expected an eviction followed by a spawn"),
    }
    assert_eq!(pool.live_count(), 0);
    let lease_b = pool.install(&fp_b, 4200, String::from("/tmp/pool/b"), 22).unwrap();
    assert_eq!(lease_b.port(), 4200);
    assert_ne!(lease_b.workdir_path().as_str(), "/tmp/pool/a");
    assert_eq!(pool.live_count(), 1);
}

#[test]
fn two_fingerprints_fit_side_by_side_under_capacity_two() {
    let mut pool = Pool::new(2);
    let fp_a = fp_for("serve-a");
    let fp_b = fp_for("serve-b");

    let lease_a = acquire_fresh(&mut pool, &fp_a, 4100, "/tmp/pool/a", 21);
    let lease_b = acquire_fresh(&mut pool, &fp_b, 4200, "/tmp/pool/b", 22);

    assert_ne!(lease_a.port(), lease_b.port());
    assert_ne!(lease_a.workdir_path(), lease_b.workdir_path());
    assert_eq!(pool.live_count(), 2);
}

#[test]
fn acquire_blocks_while_the_only_entry_is_leased_and_proceeds_after_release() {
    let mut pool = Pool::new(1);
    let fp_a = fp_for("serve-a");
    let fp_b = fp_for("serve-b");

    let mut lease_a = acquire_fresh(&mut pool, &fp_a, 4100, "/tmp/pool/a", 21);

    // Same fingerprint leased by someone else: wait for that very entry.
    assert!(matches!(pool.try_acquire(&fp_a, false), AcquireStep::Wait));
    // New fingerprint, at capacity, nothing idle: wait too.
    assert!(matches!(pool.try_acquire(&fp_b, false), AcquireStep::Wait));
    assert_eq!(pool.live_count(), 1);

    pool.release(&mut lease_a, true).unwrap();

    // After the release the retry makes progress at once.
    match pool.try_acquire(&fp_b, false) {
        AcquireStep::Spawn(Some(victim)) => assert_eq!(victim.port, 4100),
        _ => panic!("expected the freed entry to be evicted for the new fingerprint"),
    }
    let lease_b = pool.install(&fp_b, 4200, String::from("/tmp/pool/b"), 22).unwrap();
    assert_eq!(lease_b.port(), 4200);
}

#[test]
fn eviction_picks_the_least_recently_touched_idle_entry() {
    let mut pool = Pool::new(2);
    let fp_a = fp_for("serve-a");
    let fp_b = fp_for("serve-b");
    let fp_c = fp_for("serve-c");

    let mut lease_a = acquire_fresh(&mut pool, &fp_a, 4100, "/tmp/pool/a", 21);
    let mut lease_b = acquire_fresh(&mut pool, &fp_b, 4200, "/tmp/pool/b", 22);
    // Release in this order, so the entry for `fp_a` has the older touch.
    pool.release(&mut lease_a, true).unwrap();
    pool.release(&mut lease_b, true).unwrap();

    match pool.try_acquire(&fp_c, false) {
        AcquireStep::Spawn(Some(victim)) => assert_eq!(victim.port, 4100),
        _ => panic!("expected the oldest idle entry to be evicted"),
    }
    assert_eq!(pool.live_count(), 1);
}

#[test]
fn unhealthy_reuse_candidate_is_discarded_and_respawned() {
    let mut pool = Pool::new(1);
    let fp = fp_for("serve-a");

    let mut lease = acquire_fresh(&mut pool, &fp, 4100, "/tmp/pool/a", 21);
    pool.release(&mut lease, true).unwrap();

    // The probe found the idle server dead: it must leave the registry.
    match pool.try_acquire(&fp, false) {
        AcquireStep::Spawn(Some(victim)) => {
            assert_eq!(victim.port, 4100);
            assert_eq!(victim.pid, 21);
        },
        _ => panic!("expected the unhealthy entry to be discarded"),
    }
    assert_eq!(pool.live_count(), 0);
    let fresh = pool.install(&fp, 4101, String::from("/tmp/pool/a2"), 23).unwrap();
    assert_eq!(fresh.port(), 4101);
}

#[test]
fn unhealthy_release_kills_the_entry_and_frees_capacity() {
    let mut pool = Pool::new(1);
    let fp = fp_for("serve-a");

    let mut lease = acquire_fresh(&mut pool, &fp, 4100, "/tmp/pool/a", 21);
    match pool.release(&mut lease, false).unwrap() {
        ReleaseAction::Killed(victim) => {
            assert_eq!(victim.port, 4100);
            assert_eq!(victim.pid, 21);
            assert_eq!(victim.workdir.as_str(), "/tmp/pool/a");
        },
        _ => panic!("expected the unhealthy entry to be killed"),
    }
    assert_eq!(pool.live_count(), 0);

    // The freed slot is usable at once, no eviction needed.
    let fp_b = fp_for("serve-b");
    assert!(matches!(pool.try_acquire(&fp_b, false), AcquireStep::Spawn(None)));
}

#[test]
fn releasing_a_lease_twice_is_refused() {
    let mut pool = Pool::new(1);
    let fp = fp_for("serve-a");

    let mut lease = acquire_fresh(&mut pool, &fp, 4100, "/tmp/pool/a", 21);
    assert!(!lease.is_released());
    assert!(matches!(pool.release(&mut lease, true), Ok(ReleaseAction::Idled)));
    assert!(lease.is_released());
    assert!(matches!(pool.release(&mut lease, true), Err(PoolError::DoubleRelease)));
    // The failed second release changed nothing.
    assert_eq!(pool.live_count(), 1);
}

#[test]
fn install_is_denied_when_the_fingerprint_or_slot_is_taken() {
    let mut pool = Pool::new(1);
    let fp_a = fp_for("serve-a");
    let fp_b = fp_for("serve-b");

    let _lease = acquire_fresh(&mut pool, &fp_a, 4100, "/tmp/pool/a", 21);

    // Same fingerprint appeared meanwhile.
    assert!(matches!(
        pool.install(&fp_a, 4101, String::from("/tmp/pool/x"), 31),
        Err(InstallDenial::Busy)
    ));
    // No slot left for a different fingerprint.
    assert!(matches!(
        pool.install(&fp_b, 4102, String::from("/tmp/pool/y"), 32),
        Err(InstallDenial::Full)
    ));
    assert_eq!(pool.live_count(), 1);
}

#[test]
fn install_refuses_a_port_or_workdir_already_in_use() {
    let mut pool = Pool::new(2);
    let fp_a = fp_for("serve-a");
    let fp_b = fp_for("serve-b");

    let _lease = acquire_fresh(&mut pool, &fp_a, 4100, "/tmp/pool/a", 21);

    assert!(matches!(
        pool.install(&fp_b, 4100, String::from("/tmp/pool/b"), 22),
        Err(InstallDenial::Collision)
    ));
    assert!(matches!(
        pool.install(&fp_b, 4200, String::from("/tmp/pool/a"), 22),
        Err(InstallDenial::Collision)
    ));
    assert_eq!(pool.live_count(), 1);
}

#[test]
fn reuse_candidate_reports_only_idle_matching_entries() {
    let mut pool = Pool::new(1);
    let fp = fp_for("serve-a");
    let fp_other = fp_for("serve-b");

    assert!(pool.reuse_candidate(&fp).is_none());

    let mut lease = acquire_fresh(&mut pool, &fp, 4100, "/tmp/pool/a", 21);
    // Leased: nothing to probe for reuse.
    assert!(pool.reuse_candidate(&fp).is_none());
    pool.release(&mut lease, true).unwrap();

    let target = pool.reuse_candidate(&fp).unwrap();
    assert_eq!(target.port, 4100);
    assert_eq!(target.pid, 21);
    assert!(pool.reuse_candidate(&fp_other).is_none());
}

#[test]
fn lease_exposes_the_entry_it_references() {
    let mut pool = Pool::new(1);
    let fp = fp_for("serve-a");

    let lease = acquire_fresh(&mut pool, &fp, 4100, "/tmp/pool/a", 21);
    assert_eq!(lease.port(), 4100);
    assert_eq!(lease.workdir_path().as_str(), "/tmp/pool/a");
    assert!(lease.fingerprint().matches(&fp));
    assert!(!lease.is_released());
}

#[test]
fn shutdown_kills_everything_and_refuses_further_acquires() {
    let mut pool = Pool::new(2);
    let fp_a = fp_for("serve-a");
    let fp_b = fp_for("serve-b");

    let mut lease_a = acquire_fresh(&mut pool, &fp_a, 4100, "/tmp/pool/a", 21);
    let _lease_b = acquire_fresh(&mut pool, &fp_b, 4200, "/tmp/pool/b", 22);
    pool.release(&mut lease_a, true).unwrap();

    let victims = pool.shutdown();
    assert_eq!(victims.len(), 2);
    assert_eq!(victims[0].port, 4100);
    assert_eq!(victims[1].port, 4200);
    assert!(pool.is_closed());
    assert_eq!(pool.live_count(), 0);

    assert!(matches!(pool.try_acquire(&fp_a, false), AcquireStep::Closed));
    assert!(matches!(
        pool.install(&fp_a, 4300, String::from("/tmp/pool/c"), 23),
        Err(InstallDenial::Closed)
    ));
}

#[test]
fn live_count_never_exceeds_capacity() {
    let mut pool = Pool::new(2);
    assert_eq!(pool.capacity(), 2);
    let commands = ["serve-a", "serve-b", "serve-c", "serve-d"];
    let mut port: u16 = 4100;
    for command in commands.iter() {
        let fp = fp_for(command);
        match pool.try_acquire(&fp, false) {
            AcquireStep::Spawn(_) => {
                let workdir = format!("/tmp/pool/{}", command);
                let mut lease = pool.install(&fp, port, workdir, port as u64).unwrap();
                assert!(pool.live_count() <= pool.capacity());
                pool.release(&mut lease, true).unwrap();
            },
            _ => panic!("expected each acquisition to spawn"),
        }
        assert!(pool.live_count() <= pool.capacity());
        port += 1;
    }
}

#[test]
fn waiter_on_a_leased_fingerprint_reuses_it_after_release() {
    let mut pool = Pool::new(2);
    let fp = fp_for("serve-a");

    let mut lease = acquire_fresh(&mut pool, &fp, 4100, "/tmp/pool/a", 21);
    // A second caller for the same fingerprint never gets a second server:
    // the mapping is one entry per fingerprint, so it waits even though a
    // slot is free.
    assert!(matches!(pool.try_acquire(&fp, false), AcquireStep::Wait));
    assert_eq!(pool.live_count(), 1);

    pool.release(&mut lease, true).unwrap();
    let reused = acquire_reused(&mut pool, &fp);
    assert_eq!(reused.port(), 4100);
    assert_eq!(reused.workdir_path().as_str(), "/tmp/pool/a");
    assert_eq!(pool.live_count(), 1);
}
