use starry_core::errno::LinuxError;
use starry_core::futex::{
    assert_unsigned, FutexKey, FutexReply, FutexTable, Waiter, sys_futex, FUTEX_CMP_REQUEUE,
    FUTEX_REQUEUE, FUTEX_WAIT, FUTEX_WAIT_BITSET, FUTEX_WAKE, FUTEX_WAKE_BITSET,
};
use starry_core::time::TimeSpec;
use starry_core::usermem::UserMem;

fn key(addr: u64) -> FutexKey {
    FutexKey { aspace_id: 1, addr }
}

#[test]
fn wait_mismatch_returns_eagain_without_blocking() {
    let mut table = FutexTable::new();
    let mut mem = UserMem::new();
    mem.set_word(0x1000, 7);
    let r = sys_futex(&mut table, &mem, 10, 1, 0x1000, FUTEX_WAIT, 8, None, 0, 0, 0);
    assert_eq!(r, Err(LinuxError::EAGAIN));
    // no waiter was ever registered
    assert!(!table.has_futex(key(0x1000)));
}

#[test]
fn wait_unmapped_faults() {
    let mut table = FutexTable::new();
    let mem = UserMem::new();
    let r = sys_futex(&mut table, &mem, 10, 1, 0x1000, FUTEX_WAIT, 0, None, 0, 0, 0);
    assert_eq!(r, Err(LinuxError::EFAULT));
}

#[test]
fn wait_then_wake_one_unblocks_exactly_one() {
    let mut table = FutexTable::new();
    let mut mem = UserMem::new();
    mem.set_word(0x1000, 0);
    let r = sys_futex(&mut table, &mem, 10, 1, 0x1000, FUTEX_WAIT, 0, None, 0, 0, 0);
    assert!(matches!(r, Ok(FutexReply::Block(None))));
    let r = sys_futex(&mut table, &mem, 11, 1, 0x1000, FUTEX_WAKE, 1, None, 0, 0, 0);
    match r {
        Ok(FutexReply::Done(count, woken)) => {
            assert_eq!(count, 1);
            assert_eq!(woken.len(), 1);
            assert_eq!(woken[0].tid, 10);
        },
        _ => panic!("expected a completed wake"),
    }
    // a second wake finds nobody
    let r = sys_futex(&mut table, &mem, 11, 1, 0x1000, FUTEX_WAKE, 1, None, 0, 0, 0);
    match r {
        Ok(FutexReply::Done(count, woken)) => {
            assert_eq!(count, 0);
            assert_eq!(woken.len(), 0);
        },
        _ => panic!("expected a completed wake"),
    }
}

#[test]
fn wait_with_timeout_times_out_without_wake_or_death() {
    let mut table = FutexTable::new();
    let mut mem = UserMem::new();
    mem.set_word(0x2000, 5);
    let ts = TimeSpec { tv_sec: 0, tv_nsec: 1000 };
    let r = sys_futex(&mut table, &mem, 21, 1, 0x2000, FUTEX_WAIT, 5, Some(ts), 0, 0, 0);
    assert!(matches!(r, Ok(FutexReply::Block(Some(_)))));
    // the deadline elapses before any wake: the waiter removes itself
    table.futex_wait_timed_out(key(0x2000), 21);
    // no wake was delivered afterward and no death flag appeared
    let r = sys_futex(&mut table, &mem, 22, 1, 0x2000, FUTEX_WAKE, 1, None, 0, 0, 0);
    match r {
        Ok(FutexReply::Done(count, _)) => assert_eq!(count, 0),
        _ => panic!("expected a completed wake"),
    }
    assert_eq!(table.futex_wait_resume(key(0x2000)), Ok(0));
}

#[test]
fn wait_bad_timeout_is_einval() {
    let mut table = FutexTable::new();
    let mut mem = UserMem::new();
    mem.set_word(0x2000, 5);
    let ts = TimeSpec { tv_sec: -1, tv_nsec: 0 };
    let r = sys_futex(&mut table, &mem, 21, 1, 0x2000, FUTEX_WAIT, 5, Some(ts), 0, 0, 0);
    assert_eq!(r, Err(LinuxError::EINVAL));
    let ts = TimeSpec { tv_sec: 0, tv_nsec: 1_000_000_000 };
    let r = sys_futex(&mut table, &mem, 21, 1, 0x2000, FUTEX_WAIT, 5, Some(ts), 0, 0, 0);
    assert_eq!(r, Err(LinuxError::EINVAL));
}

#[test]
fn bitset_wake_filters_disjoint_waiters() {
    let mut table = FutexTable::new();
    let mut mem = UserMem::new();
    mem.set_word(0x3000, 1);
    // one waiter with bitset 0x1, one with bitset 0x2
    let r = sys_futex(&mut table, &mem, 31, 1, 0x3000, FUTEX_WAIT_BITSET, 1, None, 0, 0, 0x1);
    assert!(matches!(r, Ok(FutexReply::Block(None))));
    let r = sys_futex(&mut table, &mem, 32, 1, 0x3000, FUTEX_WAIT_BITSET, 1, None, 0, 0, 0x2);
    assert!(matches!(r, Ok(FutexReply::Block(None))));
    // a wake with mask 0x2 passes over the disjoint waiter
    let r = sys_futex(&mut table, &mem, 33, 1, 0x3000, FUTEX_WAKE_BITSET, 10, None, 0, 0, 0x2);
    match r {
        Ok(FutexReply::Done(count, woken)) => {
            assert_eq!(count, 1);
            assert_eq!(woken[0].tid, 32);
        },
        _ => panic!("expected a completed wake"),
    }
    // the disjoint waiter is still blocked and a plain wake finds it
    let r = sys_futex(&mut table, &mem, 33, 1, 0x3000, FUTEX_WAKE, 10, None, 0, 0, 0);
    match r {
        Ok(FutexReply::Done(count, woken)) => {
            assert_eq!(count, 1);
            assert_eq!(woken[0].tid, 31);
        },
        _ => panic!("expected a completed wake"),
    }
}

#[test]
fn requeue_mismatch_neither_wakes_nor_requeues() {
    let mut table = FutexTable::new();
    let mut mem = UserMem::new();
    mem.set_word(0x4000, 9);
    let r = sys_futex(&mut table, &mem, 41, 1, 0x4000, FUTEX_WAIT, 9, None, 0, 0, 0);
    assert!(matches!(r, Ok(FutexReply::Block(None))));
    // comparison value 8 does not match the live value 9
    let r = sys_futex(
        &mut table, &mem, 42, 1, 0x4000, FUTEX_CMP_REQUEUE, 1, None, 0x5000, 1, 8,
    );
    assert_eq!(r, Err(LinuxError::EAGAIN));
    assert!(!table.has_futex(key(0x5000)));
    // the waiter is still there
    let woken = table.futex_wake(key(0x4000), 10, None);
    assert_eq!(woken.len(), 1);
}

#[test]
fn requeue_moves_remaining_waiters_after_full_wake() {
    let mut table = FutexTable::new();
    let mut mem = UserMem::new();
    mem.set_word(0x4000, 9);
    for tid in [41, 42, 43] {
        let r = sys_futex(&mut table, &mem, tid, 1, 0x4000, FUTEX_WAIT, 9, None, 0, 0, 0);
        assert!(matches!(r, Ok(FutexReply::Block(None))));
    }
    // wake exactly 1, requeue up to 1 of the remaining two
    let r = sys_futex(
        &mut table, &mem, 44, 1, 0x4000, FUTEX_CMP_REQUEUE, 1, None, 0x5000, 1, 9,
    );
    match r {
        Ok(FutexReply::Done(count, woken)) => {
            assert_eq!(count, 2);
            assert_eq!(woken.len(), 1);
            assert_eq!(woken[0].tid, 41);
        },
        _ => panic!("expected a completed requeue"),
    }
    // one waiter left at the source, one moved to the target unwoken
    let woken_a = table.futex_wake(key(0x4000), 10, None);
    assert_eq!(woken_a.len(), 1);
    assert_eq!(woken_a[0].tid, 43);
    let woken_b = table.futex_wake(key(0x5000), 10, None);
    assert_eq!(woken_b.len(), 1);
    assert_eq!(woken_b[0].tid, 42);
}

#[test]
fn requeue_short_wake_skips_requeue() {
    let mut table = FutexTable::new();
    let mut mem = UserMem::new();
    mem.set_word(0x4000, 9);
    let r = sys_futex(&mut table, &mem, 41, 1, 0x4000, FUTEX_WAIT, 9, None, 0, 0, 0);
    assert!(matches!(r, Ok(FutexReply::Block(None))));
    // asks to wake 2, but only 1 waiter exists: not the exact count, so
    // nothing is requeued
    let r = sys_futex(&mut table, &mem, 44, 1, 0x4000, FUTEX_REQUEUE, 2, None, 0x5000, 5, 0);
    match r {
        Ok(FutexReply::Done(count, woken)) => {
            assert_eq!(count, 1);
            assert_eq!(woken.len(), 1);
        },
        _ => panic!("expected a completed requeue"),
    }
    let woken_b = table.futex_wake(key(0x5000), 10, None);
    assert_eq!(woken_b.len(), 0);
}

#[test]
fn requeue_signed_counts_are_einval() {
    let mut table = FutexTable::new();
    let mut mem = UserMem::new();
    mem.set_word(0x4000, 9);
    let r = sys_futex(
        &mut table, &mem, 44, 1, 0x4000, FUTEX_REQUEUE, 0x8000_0000, None, 0x5000, 1, 0,
    );
    assert_eq!(r, Err(LinuxError::EINVAL));
    let r = sys_futex(
        &mut table, &mem, 44, 1, 0x4000, FUTEX_REQUEUE, 1, None, 0x5000, 0x8000_0000, 0,
    );
    assert_eq!(r, Err(LinuxError::EINVAL));
}

#[test]
fn unknown_command_is_enosys() {
    let mut table = FutexTable::new();
    let mem = UserMem::new();
    let r = sys_futex(&mut table, &mem, 1, 1, 0x1000, 13, 0, None, 0, 0, 0);
    assert_eq!(r, Err(LinuxError::ENOSYS));
}

#[test]
fn owner_death_reports_eownerdead_once() {
    let mut table = FutexTable::new();
    let mut mem = UserMem::new();
    mem.set_word(0x6000, 3);
    let r = sys_futex(&mut table, &mem, 61, 1, 0x6000, FUTEX_WAIT, 3, None, 0, 0, 0);
    assert!(matches!(r, Ok(FutexReply::Block(None))));
    table.mark_owner_dead(key(0x6000));
    let woken = table.futex_wake(key(0x6000), 1, None);
    assert_eq!(woken.len(), 1);
    // the woken waiter observes the death exactly once
    assert_eq!(table.futex_wait_resume(key(0x6000)), Err(LinuxError::EOWNERDEAD));
    assert_eq!(table.futex_wait_resume(key(0x6000)), Ok(0));
}

#[test]
fn keys_in_different_address_spaces_do_not_collide() {
    let mut table = FutexTable::new();
    let mut mem = UserMem::new();
    mem.set_word(0x1000, 0);
    let r = sys_futex(&mut table, &mem, 71, 1, 0x1000, FUTEX_WAIT, 0, None, 0, 0, 0);
    assert!(matches!(r, Ok(FutexReply::Block(None))));
    // same address, different address space: no waiter there
    let r = sys_futex(&mut table, &mem, 72, 2, 0x1000, FUTEX_WAKE, 10, None, 0, 0, 0);
    match r {
        Ok(FutexReply::Done(count, _)) => assert_eq!(count, 0),
        _ => panic!("expected a completed wake"),
    }
}

#[test]
fn assert_unsigned_rejects_sign_bit() {
    assert_eq!(assert_unsigned(5), Ok(5));
    assert_eq!(assert_unsigned(0x7FFF_FFFF), Ok(0x7FFF_FFFF));
    assert_eq!(assert_unsigned(0x8000_0000), Err(LinuxError::EINVAL));
}

#[test]
fn waiter_fields_are_plain() {
    let w = Waiter { tid: 3, bitset: 0xFFFF_FFFF };
    assert_eq!(w.tid, 3);
    assert_eq!(w.bitset, 0xFFFF_FFFF);
}
