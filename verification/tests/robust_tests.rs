use starry_core::errno::LinuxError;
use starry_core::futex::{FutexKey, FutexReply, FutexTable, sys_futex, FUTEX_WAIT};
use starry_core::robust::{
    exit_robust_list, handle_futex_death, RobustListHead, RobustMem, ROBUST_LIST_LIMIT,
};
use starry_core::usermem::UserMem;

const ASPACE: u64 = 1;

fn block_waiter(table: &mut FutexTable, mem: &mut UserMem, tid: u32, addr: u64) {
    mem.set_word(addr, 0);
    let r = sys_futex(table, mem, tid, ASPACE, addr, FUTEX_WAIT, 0, None, 0, 0, 0);
    assert!(matches!(r, Ok(FutexReply::Block(None))));
}

#[test]
fn single_entry_marks_owner_dead_and_wakes_one() {
    let mut table = FutexTable::new();
    let mut mem = UserMem::new();
    // the entry at 0x100 embeds its futex word 16 bytes further
    let entry: u64 = 0x100;
    let offset: i64 = 16;
    block_waiter(&mut table, &mut mem, 7, entry + 16);

    let head_addr: u64 = 0x900;
    let mut rmem = RobustMem::new();
    rmem.set_entry(entry, head_addr); // circular: back to the head
    let head = RobustListHead { list_next: entry, futex_offset: offset, list_op_pending: 0 };
    assert_eq!(exit_robust_list(&mut table, &rmem, ASPACE, head_addr, &head), Ok(()));

    // the one waiter was woken and observes the owner's death
    let key = FutexKey { aspace_id: ASPACE, addr: entry + 16 };
    let woken = table.futex_wake(key, 10, None);
    assert_eq!(woken.len(), 0, "the waiter was already woken by the walk");
    assert_eq!(table.futex_wait_resume(key), Err(LinuxError::EOWNERDEAD));
}

#[test]
fn pending_entry_is_skipped() {
    let mut table = FutexTable::new();
    let mut mem = UserMem::new();
    let entry: u64 = 0x100;
    block_waiter(&mut table, &mut mem, 7, entry + 16);

    let head_addr: u64 = 0x900;
    let mut rmem = RobustMem::new();
    rmem.set_entry(entry, head_addr);
    // the entry is the in-flight pending one: its futex must not be
    // declared dead
    let head = RobustListHead { list_next: entry, futex_offset: 16, list_op_pending: entry };
    assert_eq!(exit_robust_list(&mut table, &rmem, ASPACE, head_addr, &head), Ok(()));

    let key = FutexKey { aspace_id: ASPACE, addr: entry + 16 };
    assert_eq!(table.futex_wait_resume(key), Ok(0));
    let woken = table.futex_wake(key, 10, None);
    assert_eq!(woken.len(), 1, "the waiter was never woken by the walk");
}

#[test]
fn list_of_exactly_the_bound_completes() {
    let mut table = FutexTable::new();
    let mut rmem = RobustMem::new();
    let head_addr: u64 = 0x10;
    let base: u64 = 0x1000;
    // a chain of exactly the bound's many entries that returns to the head
    for i in 0..(ROBUST_LIST_LIMIT as u64 - 1) {
        rmem.set_entry(base + 8 * i, base + 8 * (i + 1));
    }
    rmem.set_entry(base + 8 * (ROBUST_LIST_LIMIT as u64 - 1), head_addr);
    let head = RobustListHead { list_next: base, futex_offset: 0, list_op_pending: 0 };
    assert_eq!(exit_robust_list(&mut table, &rmem, ASPACE, head_addr, &head), Ok(()));
}

#[test]
fn list_exceeding_the_bound_fails_with_eloop() {
    let mut table = FutexTable::new();
    let mut rmem = RobustMem::new();
    // a chain longer than the bound that never returns to the head
    let base: u64 = 0x1000;
    for i in 0..(ROBUST_LIST_LIMIT as u64 + 8) {
        rmem.set_entry(base + 8 * i, base + 8 * (i + 1));
    }
    let head = RobustListHead { list_next: base, futex_offset: 0, list_op_pending: 0 };
    let r = exit_robust_list(&mut table, &rmem, ASPACE, 0x10, &head);
    assert_eq!(r, Err(LinuxError::ELOOP));
}

#[test]
fn unreadable_entry_faults() {
    let mut table = FutexTable::new();
    let rmem = RobustMem::new();
    let head = RobustListHead { list_next: 0x100, futex_offset: 0, list_op_pending: 0 };
    let r = exit_robust_list(&mut table, &rmem, ASPACE, 0x10, &head);
    assert_eq!(r, Err(LinuxError::EFAULT));
}

#[test]
fn overflowing_futex_offset_is_einval() {
    let mut table = FutexTable::new();
    let mut rmem = RobustMem::new();
    rmem.set_entry(u64::MAX - 1, 0x10);
    let head = RobustListHead {
        list_next: u64::MAX - 1,
        futex_offset: 16,
        list_op_pending: 0,
    };
    let r = exit_robust_list(&mut table, &rmem, ASPACE, 0x10, &head);
    assert_eq!(r, Err(LinuxError::EINVAL));
}

#[test]
fn empty_list_is_a_no_op() {
    let mut table = FutexTable::new();
    let rmem = RobustMem::new();
    // next already points back at the head: nothing to walk
    let head = RobustListHead { list_next: 0x10, futex_offset: 0, list_op_pending: 0 };
    assert_eq!(exit_robust_list(&mut table, &rmem, ASPACE, 0x10, &head), Ok(()));
}

#[test]
fn death_on_a_key_with_no_futex_is_a_no_op() {
    let mut table = FutexTable::new();
    assert_eq!(handle_futex_death(&mut table, ASPACE, 0x100, 16), Ok(()));
    assert!(!table.has_futex(FutexKey { aspace_id: ASPACE, addr: 0x110 }));
}

#[test]
fn negative_offset_reaches_a_lower_word() {
    let mut table = FutexTable::new();
    let mut mem = UserMem::new();
    let entry: u64 = 0x200;
    block_waiter(&mut table, &mut mem, 9, entry - 32);
    assert_eq!(handle_futex_death(&mut table, ASPACE, entry, -32), Ok(()));
    let key = FutexKey { aspace_id: ASPACE, addr: entry - 32 };
    assert_eq!(table.futex_wait_resume(key), Err(LinuxError::EOWNERDEAD));
}
