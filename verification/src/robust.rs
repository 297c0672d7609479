//! The robust-list walker: on thread exit, walks the user-memory list of
//! locks the thread still held and signals each one's futex as
//! owner-dead, waking one waiter so the lock is not abandoned silently.
//!
//! The list lives in unmodified user memory laid out as the Linux ABI
//! fixes it: a head holding a pointer to a circular singly-linked chain
//! of entries, a signed byte offset from each entry to its embedded futex
//! word, and a pointer to one "pending" entry whose lock state is
//! indeterminate and must be skipped.  The traversal is bounded so a
//! corrupted chain that never returns to the head cannot run forever.

use vstd::prelude::*;

use crate::errno::LinuxError;
use crate::futex::{wake_split, same_at, FutexKey, FutexTable};

verus! {

/// Bound on robust-list traversal; a longer chain fails with `ELOOP`.
pub const ROBUST_LIST_LIMIT: usize = 2048;

/// Size in bytes of the ABI-fixed robust-list head structure.
pub const ROBUST_LIST_HEAD_SIZE: usize = 24;

/// The robust-list head, as read from the ABI-fixed user structure.
#[derive(Clone, Copy, Debug, PartialEq, Eq, Structural)]
pub struct RobustListHead {
    /// Address of the first list entry (the head's own address when the
    /// list is empty).
    pub list_next: u64,
    /// Signed byte offset from an entry to its embedded futex word.
    pub futex_offset: i64,
    /// Address of the entry whose acquire/release is in flight, skipped
    /// during death notification; zero when none is.
    pub list_op_pending: u64,
}

/// The value at `addr`, taking the most recently recorded entry for it.
pub open spec fn lookup_entry(s: Seq<(u64, u64)>, addr: u64) -> Option<u64>
    decreases s.len(),
{
    if s.len() == 0 {
        None
    } else if s.last().0 == addr {
        Some(s.last().1)
    } else {
        lookup_entry(s.drop_last(), addr)
    }
}

/// The robust-list entries readable in one address space's user memory:
/// each mapped entry address holds the address of the next entry.
pub struct RobustMem {
    /// Recorded entries; a later record for the same address shadows an
    /// earlier one.
    pub entries: Vec<(u64, u64)>,
}

impl RobustMem {
    /// The next-pointer stored at entry address `addr`, or `None` if the
    /// address is unmapped.
    pub open spec fn next_of(self, addr: u64) -> Option<u64> {
        lookup_entry(self.entries@, addr)
    }

    /// A memory with no readable entries.
    pub fn new() -> (m: RobustMem)
        ensures
            forall|a: u64| m.next_of(a) is None,
    {
        RobustMem { entries: Vec::new() }
    }

    /// Records (or overwrites) the entry at `addr`, as a test or the
    /// kernel glue does when it captures user memory.
    pub fn set_entry(&mut self, addr: u64, next: u64)
        ensures
            final(self).next_of(addr) == Some(next),
            forall|a: u64| a != addr ==> final(self).next_of(a) == old(self).next_of(a),
    {
        self.entries.push((addr, next));
        proof {
            assert(self.entries@.drop_last() =~= old(self).entries@);
        }
    }

    /// Reads the next-pointer at `addr` through a validated user pointer.
    pub fn read_next(&self, addr: u64) -> (r: Option<u64>)
        ensures
            r == self.next_of(addr),
    {
        let mut i: usize = self.entries.len();
        proof {
            assert(self.entries@.take(i as int) =~= self.entries@);
        }
        while i > 0
            invariant
                i <= self.entries.len(),
                self.next_of(addr) == lookup_entry(self.entries@.take(i as int), addr),
            decreases i,
        {
            let (a, v) = self.entries[i - 1];
            proof {
                assert(self.entries@.take(i as int).last() == self.entries@[i - 1]);
                assert(self.entries@.take(i as int).drop_last() =~= self.entries@.take(
                    i as int - 1,
                ));
            }
            if a == addr {
                return Some(v);
            }
            i = i - 1;
        }
        None
    }
}

/// The address of the futex word embedded in a list entry: the entry
/// address plus the head's signed offset, or `None` if the sum leaves the
/// address space (the walker fails such an entry with `EINVAL`).
pub open spec fn death_addr(entry: u64, offset: i64) -> Option<u64> {
    if 0 <= entry + offset <= u64::MAX {
        Some((entry + offset) as u64)
    } else {
        None
    }
}

/// The two tables agree on every key.
pub open spec fn table_like(a: FutexTable, b: FutexTable) -> bool {
    forall|k: FutexKey| #[trigger] same_at(a, b, k)
}

/// One owner-death notification turned table `t0` into `t1`: the entry's
/// futex address is computable, and if a futex exists for it, its death
/// flag is set and its first waiter is woken; a key with no live futex is
/// a no-op, not an error.
pub open spec fn death_step(t0: FutexTable, t1: FutexTable, aspace_id: u64, entry: u64, offset: i64) -> bool {
    &&& death_addr(entry, offset) is Some
    &&& ({
        let k = FutexKey { aspace_id, addr: death_addr(entry, offset).unwrap() };
        &&& !t0.has(k) ==> table_like(t0, t1)
        &&& t0.has(k) ==> t1.has(k) && t1.dead(k) && t1.queue(k) == wake_split(
            t0.queue(k),
            1,
            None,
        ).1 && (forall|a: FutexKey| a != k ==> #[trigger] same_at(t0, t1, a))
    })
}

/// One walk step's effect on the table: the pending entry is skipped,
/// every other entry is notified dead.
pub open spec fn step_rel(t0: FutexTable, t1: FutexTable, aspace_id: u64, entry: u64, pending: u64, offset: i64) -> bool {
    if entry == pending {
        table_like(t0, t1)
    } else {
        death_step(t0, t1, aspace_id, entry, offset)
    }
}

/// Table `t1` is `t0` after notifying the entries of `vs`, in order.
pub open spec fn deaths_applied(
    t0: FutexTable,
    t1: FutexTable,
    aspace_id: u64,
    vs: Seq<u64>,
    pending: u64,
    offset: i64,
) -> bool
    decreases vs.len(),
{
    if vs.len() == 0 {
        table_like(t0, t1)
    } else {
        exists|tm: FutexTable|
            #[trigger] step_rel(t0, tm, aspace_id, vs[0], pending, offset) && deaths_applied(
                tm,
                t1,
                aspace_id,
                vs.subrange(1, vs.len() as int),
                pending,
                offset,
            )
    }
}

/// How a bounded walk of the user-memory list ends.
pub enum WalkResult {
    /// The cursor returned to the head; the listed entry addresses were
    /// visited, in order.
    Done(Seq<u64>),
    /// An entry's next-pointer was not readable user memory.
    Fault,
    /// An entry's futex address overflowed the address space.
    Invalid,
    /// The traversal bound was exhausted before reaching the head.
    Loop,
}

/// The bounded traversal of the robust list: from `entry`, following
/// next-pointers until the cursor returns to `head_addr`, visiting at
/// most `fuel` entries.  A list of exactly `fuel` entries that does
/// return to the head completes; only exceeding the bound fails.
pub open spec fn walk(
    rmem: RobustMem,
    head_addr: u64,
    pending: u64,
    offset: i64,
    entry: u64,
    fuel: nat,
) -> WalkResult
    decreases fuel,
{
    if entry == head_addr {
        WalkResult::Done(Seq::empty())
    } else if fuel == 0 {
        WalkResult::Loop
    } else {
        match rmem.next_of(entry) {
            None => WalkResult::Fault,
            Some(next) => {
                if entry != pending && death_addr(entry, offset) is None {
                    WalkResult::Invalid
                } else {
                    match walk(rmem, head_addr, pending, offset, next, (fuel - 1) as nat) {
                        WalkResult::Done(s) => WalkResult::Done(seq![entry] + s),
                        o => o,
                    }
                }
            },
        }
    }
}

/// Every table agrees with itself.
proof fn lemma_table_like_refl(t: FutexTable)
    ensures
        table_like(t, t),
{
    assert forall|k: FutexKey| #[trigger] same_at(t, t, k) by {}
}

/// A step taken from an equal table is a step from the original.
proof fn lemma_step_rel_congruence(
    t0: FutexTable,
    t1: FutexTable,
    t2: FutexTable,
    aspace_id: u64,
    entry: u64,
    pending: u64,
    offset: i64,
)
    requires
        table_like(t0, t1),
        step_rel(t1, t2, aspace_id, entry, pending, offset),
    ensures
        step_rel(t0, t2, aspace_id, entry, pending, offset),
{
    if entry == pending {
        assert forall|k: FutexKey| #[trigger] same_at(t0, t2, k) by {
            assert(same_at(t0, t1, k));
            assert(same_at(t1, t2, k));
        }
    } else {
        let k = FutexKey { aspace_id, addr: death_addr(entry, offset).unwrap() };
        assert(same_at(t0, t1, k));
        if t0.has(k) {
            assert forall|a: FutexKey| a != k implies #[trigger] same_at(t0, t2, a) by {
                assert(same_at(t0, t1, a));
                assert(same_at(t1, t2, a));
            }
        } else {
            assert forall|a: FutexKey| #[trigger] same_at(t0, t2, a) by {
                assert(same_at(t0, t1, a));
                assert(same_at(t1, t2, a));
            }
        }
    }
}

/// Extends a chain of applied deaths by one more entry at its end.
proof fn lemma_deaths_applied_snoc(
    t0: FutexTable,
    t1: FutexTable,
    t2: FutexTable,
    aspace_id: u64,
    vs: Seq<u64>,
    e: u64,
    pending: u64,
    offset: i64,
)
    requires
        deaths_applied(t0, t1, aspace_id, vs, pending, offset),
        step_rel(t1, t2, aspace_id, e, pending, offset),
    ensures
        deaths_applied(t0, t2, aspace_id, vs.push(e), pending, offset),
    decreases vs.len(),
{
    if vs.len() == 0 {
        lemma_step_rel_congruence(t0, t1, t2, aspace_id, e, pending, offset);
        lemma_table_like_refl(t2);
        assert(vs.push(e)[0] == e);
        assert(vs.push(e).subrange(1, vs.push(e).len() as int) =~= Seq::<u64>::empty());
        assert(deaths_applied(t2, t2, aspace_id, Seq::empty(), pending, offset));
        assert(step_rel(t0, t2, aspace_id, vs.push(e)[0], pending, offset));
    } else {
        let tm = choose|tm: FutexTable|
            #[trigger] step_rel(t0, tm, aspace_id, vs[0], pending, offset) && deaths_applied(
                tm,
                t1,
                aspace_id,
                vs.subrange(1, vs.len() as int),
                pending,
                offset,
            );
        lemma_deaths_applied_snoc(
            tm,
            t1,
            t2,
            aspace_id,
            vs.subrange(1, vs.len() as int),
            e,
            pending,
            offset,
        );
        assert(vs.push(e)[0] == vs[0]);
        assert(vs.push(e).subrange(1, vs.push(e).len() as int) =~= vs.subrange(
            1,
            vs.len() as int,
        ).push(e));
        assert(step_rel(t0, tm, aspace_id, vs.push(e)[0], pending, offset));
    }
}

/// Law: a walk that visited exactly one entry, and that entry is not the
/// pending one, marks the entry's futex owner-dead and wakes its first
/// waiter; every other futex is untouched.
pub proof fn lemma_single_entry_death(
    t0: FutexTable,
    t1: FutexTable,
    aspace_id: u64,
    e: u64,
    pending: u64,
    offset: i64,
)
    requires
        deaths_applied(t0, t1, aspace_id, seq![e], pending, offset),
        e != pending,
        death_addr(e, offset) is Some,
        t0.has(FutexKey { aspace_id, addr: death_addr(e, offset).unwrap() }),
    ensures
        ({
            let k = FutexKey { aspace_id, addr: death_addr(e, offset).unwrap() };
            &&& t1.dead(k)
            &&& t1.queue(k) == wake_split(t0.queue(k), 1, None).1
            &&& forall|a: FutexKey| a != k ==> #[trigger] same_at(t0, t1, a)
        }),
{
    let vs = seq![e];
    assert(vs[0] == e);
    let tm = choose|tm: FutexTable|
        #[trigger] step_rel(t0, tm, aspace_id, vs[0], pending, offset) && deaths_applied(
            tm,
            t1,
            aspace_id,
            vs.subrange(1, vs.len() as int),
            pending,
            offset,
        );
    assert(vs.subrange(1, 1) =~= Seq::<u64>::empty());
    assert(table_like(tm, t1));
    let k = FutexKey { aspace_id, addr: death_addr(e, offset).unwrap() };
    assert(same_at(tm, t1, k));
    assert forall|a: FutexKey| a != k implies #[trigger] same_at(t0, t1, a) by {
        assert(same_at(t0, tm, a));
        assert(same_at(tm, t1, a));
    }
}

/// Computes the futex word's address for a dying entry, or `EINVAL` if
/// the signed offset overflows the address space.
fn compute_death_addr(entry: u64, offset: i64) -> (r: Result<u64, LinuxError>)
    ensures
        r == match death_addr(entry, offset) {
            Some(a) => Ok::<u64, LinuxError>(a),
            None => Err::<u64, LinuxError>(LinuxError::EINVAL),
        },
{
    if offset >= 0 {
        let off = offset as u64;
        if entry <= u64::MAX - off {
            Ok(entry + off)
        } else {
            Err(LinuxError::EINVAL)
        }
    } else {
        let mag: u64 = if offset == i64::MIN {
            0x8000_0000_0000_0000u64
        } else {
            (-offset) as u64
        };
        if entry >= mag {
            Ok(entry - mag)
        } else {
            Err(LinuxError::EINVAL)
        }
    }
}

/// Notifies one robust-list entry's futex that its owner died: computes
/// the embedded futex address from the entry and the head's offset, and
/// if the exiting thread's process has a futex there, sets its death flag
/// and wakes one waiter.  A key with no live futex is a no-op: nothing
/// was waiting.
pub fn handle_futex_death(
    table: &mut FutexTable,
    aspace_id: u64,
    entry: u64,
    offset: i64,
) -> (r: Result<(), LinuxError>)
    requires
        old(table).wf(),
    ensures
        final(table).wf(),
        death_addr(entry, offset) is None ==> r == Err::<(), LinuxError>(LinuxError::EINVAL)
            && *final(table) == *old(table),
        death_addr(entry, offset) is Some ==> r == Ok::<(), LinuxError>(()) && death_step(
            *old(table),
            *final(table),
            aspace_id,
            entry,
            offset,
        ),
{
    let addr = match compute_death_addr(entry, offset) {
        Ok(a) => a,
        Err(e) => {
            return Err(e);
        },
    };
    let key = FutexKey { aspace_id, addr };
    if !table.has_futex(key) {
        proof {
            lemma_table_like_refl(*table);
        }
        return Ok(());
    }
    let ghost t0 = *table;
    table.mark_owner_dead(key);
    let ghost t1 = *table;
    let _woken = table.futex_wake(key, 1, None);
    proof {
        assert forall|a: FutexKey| a != key implies #[trigger] same_at(t0, *table, a) by {
            assert(same_at(t0, t1, a));
            assert(same_at(t1, *table, a));
        }
    }
    Ok(())
}

/// Walks the circular robust list of an exiting thread, notifying each
/// entry's futex as owner-dead except the in-flight pending entry, until
/// the cursor returns to the head.  A next-pointer outside readable user
/// memory faults with `EFAULT`; an entry whose futex address overflows
/// fails with `EINVAL`; a chain that has not returned to the head after
/// the bound's many entries fails with `ELOOP` — a list of exactly the
/// bound's length completes.  Whatever the outcome, the table holds the
/// owner-death notifications already made: partial progress is not
/// rolled back.  The kernel glue yields the processor between entries.
pub fn exit_robust_list(
    table: &mut FutexTable,
    rmem: &RobustMem,
    aspace_id: u64,
    head_addr: u64,
    head: &RobustListHead,
) -> (r: Result<(), LinuxError>)
    requires
        old(table).wf(),
    ensures
        final(table).wf(),
        exists|vs: Seq<u64>|
            #[trigger] deaths_applied(
                *old(table),
                *final(table),
                aspace_id,
                vs,
                head.list_op_pending,
                head.futex_offset,
            ),
        ({
            let w = walk(
                *rmem,
                head_addr,
                head.list_op_pending,
                head.futex_offset,
                head.list_next,
                ROBUST_LIST_LIMIT as nat,
            );
            &&& w is Fault ==> r == Err::<(), LinuxError>(LinuxError::EFAULT)
            &&& w is Invalid ==> r == Err::<(), LinuxError>(LinuxError::EINVAL)
            &&& w is Loop ==> r == Err::<(), LinuxError>(LinuxError::ELOOP)
            &&& w matches WalkResult::Done(vs) ==> r == Ok::<(), LinuxError>(())
                && deaths_applied(
                *old(table),
                *final(table),
                aspace_id,
                vs,
                head.list_op_pending,
                head.futex_offset,
            )
        }),
{
    let pending = head.list_op_pending;
    let offset = head.futex_offset;
    let ghost wtotal = walk(
        *rmem,
        head_addr,
        pending,
        offset,
        head.list_next,
        ROBUST_LIST_LIMIT as nat,
    );

    let mut limit: usize = ROBUST_LIST_LIMIT;
    let mut entry = head.list_next;
    let ghost mut vs_acc: Seq<u64> = Seq::empty();
    proof {
        lemma_table_like_refl(*old(table));
        assert(vs_acc + Seq::<u64>::empty() =~= vs_acc);
    }
    while entry != head_addr
        invariant
            table.wf(),
            limit <= ROBUST_LIST_LIMIT,
            pending == head.list_op_pending,
            offset == head.futex_offset,
            wtotal == walk(
                *rmem,
                head_addr,
                pending,
                offset,
                head.list_next,
                ROBUST_LIST_LIMIT as nat,
            ),
            deaths_applied(*old(table), *table, aspace_id, vs_acc, pending, offset),
            wtotal == (match walk(*rmem, head_addr, pending, offset, entry, limit as nat) {
                WalkResult::Done(s) => WalkResult::Done(vs_acc + s),
                o => o,
            }),
        decreases limit,
    {
        if limit == 0 {
            proof {
                assert(walk(*rmem, head_addr, pending, offset, entry, limit as nat) is Loop);
                assert(deaths_applied(*old(table), *table, aspace_id, vs_acc, pending, offset));
            }
            return Err(LinuxError::ELOOP);
        }
        let next = match rmem.read_next(entry) {
            None => {
                proof {
                    assert(walk(*rmem, head_addr, pending, offset, entry, limit as nat)
                        is Fault);
                    assert(deaths_applied(
                        *old(table),
                        *table,
                        aspace_id,
                        vs_acc,
                        pending,
                        offset,
                    ));
                }
                return Err(LinuxError::EFAULT);
            },
            Some(n) => n,
        };
        if entry != pending {
            let ghost tcur = *table;
            match handle_futex_death(table, aspace_id, entry, offset) {
                Err(e) => {
                    proof {
                        assert(walk(*rmem, head_addr, pending, offset, entry, limit as nat)
                            is Invalid);
                        assert(deaths_applied(
                            *old(table),
                            *table,
                            aspace_id,
                            vs_acc,
                            pending,
                            offset,
                        ));
                    }
                    return Err(e);
                },
                Ok(()) => {},
            }
            proof {
                lemma_deaths_applied_snoc(
                    *old(table),
                    tcur,
                    *table,
                    aspace_id,
                    vs_acc,
                    entry,
                    pending,
                    offset,
                );
            }
        } else {
            proof {
                lemma_table_like_refl(*table);
                lemma_deaths_applied_snoc(
                    *old(table),
                    *table,
                    *table,
                    aspace_id,
                    vs_acc,
                    entry,
                    pending,
                    offset,
                );
            }
        }
        proof {
            let ghost inner = walk(*rmem, head_addr, pending, offset, next, (limit - 1) as nat);
            if inner is Done {
                let s = inner->Done_0;
                assert(vs_acc + (seq![entry] + s) =~= vs_acc.push(entry) + s);
            }
            vs_acc = vs_acc.push(entry);
        }
        entry = next;
        limit = limit - 1;
    }
    proof {
        assert(vs_acc + Seq::<u64>::empty() =~= vs_acc);
    }
    Ok(())
}


} // verus!
