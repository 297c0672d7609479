//! The futex engine: per-process wait queues keyed by a synchronization
//! word's address, with bitset filtering, requeueing, and owner-death
//! signaling.
//!
//! A blocked thread appears here as a [`Waiter`] in a queue; the scheduler
//! that actually parks and resumes it is outside this core.  Every
//! operation is the single atomic step the kernel performs while holding
//! the registration lock, so a wake can never slip between a waiter's
//! value check and its registration.

use vstd::prelude::*;

use crate::errno::LinuxError;
use crate::time::{TimeSpec, TimeValue};
use crate::usermem::UserMem;

verus! {

/// Futex command: wait until woken.
pub const FUTEX_WAIT: u32 = 0;
/// Futex command: wake up to a given number of waiters.
pub const FUTEX_WAKE: u32 = 1;
/// Futex command: wake some waiters, move others to a second key.
pub const FUTEX_REQUEUE: u32 = 3;
/// Futex command: requeue guarded by a comparison of the live value.
pub const FUTEX_CMP_REQUEUE: u32 = 4;
/// Futex command: wait, recording a wake-filter bitset.
pub const FUTEX_WAIT_BITSET: u32 = 9;
/// Futex command: wake only waiters whose bitset overlaps the given one.
pub const FUTEX_WAKE_BITSET: u32 = 10;
/// Mask selecting the command bits of a futex operation word.
pub const FUTEX_CMD_MASK: u32 = 0xFFFF_FE7F;
/// The bitset a plain wait records: it overlaps every non-empty wake set.
pub const FUTEX_BITSET_MATCH_ANY: u32 = 0xFFFF_FFFF;

/// Identifies a synchronization word: the owning address space plus the
/// word's virtual address.  Two threads sharing an address space resolve
/// the same raw address to the same key; equal addresses in different
/// address spaces never compare equal.
#[derive(Clone, Copy, Debug, PartialEq, Eq, Structural)]
pub struct FutexKey {
    /// Identity of the address space the address is interpreted against.
    pub aspace_id: u64,
    /// Virtual address of the futex word.
    pub addr: u64,
}

/// One blocked thread in a futex wait queue.
#[derive(Clone, Copy, Debug, PartialEq, Eq, Structural)]
pub struct Waiter {
    /// The blocked thread's id.
    pub tid: u32,
    /// The wake-filter bitset the thread registered with.
    pub bitset: u32,
}

/// Per-key futex state: the queue of blocked threads, in arrival order,
/// and whether the last holder died while owning the futex.
pub struct Futex {
    /// Blocked threads, oldest first.
    pub waiters: Vec<Waiter>,
    /// Set when a robust-list walk found the owner dead; cleared by the
    /// next waiter to be woken.
    pub owner_dead: bool,
}

/// A process's futex table: the futexes created so far, keyed uniquely.
pub struct FutexTable {
    /// The table entries; no two entries carry the same key.
    pub futexes: Vec<(FutexKey, Futex)>,
}

/// The entry for `k` in `s`, scanning from the front, or `None`.
pub open spec fn flookup_from(s: Seq<(FutexKey, Futex)>, k: FutexKey, i: int) -> Option<Futex>
    decreases s.len() - i,
{
    if i < 0 || i >= s.len() {
        None
    } else if s[i].0 == k {
        Some(s[i].1)
    } else {
        flookup_from(s, k, i + 1)
    }
}

/// The entry for `k` in `s`, or `None` if no futex exists for the key.
pub open spec fn flookup(s: Seq<(FutexKey, Futex)>, k: FutexKey) -> Option<Futex> {
    flookup_from(s, k, 0)
}

/// Whether a waiter qualifies for a wake: a plain wake takes any waiter, a
/// bitset wake only one whose recorded bitset shares a bit with the mask.
pub open spec fn eligible(w: Waiter, mask: Option<u32>) -> bool {
    match mask {
        None => true,
        Some(m) => w.bitset & m != 0,
    }
}

/// Splits a queue under a wake of up to `n` waiters with filter `mask`,
/// scanning from position `i`: the pair of (waiters woken, waiters left
/// queued), both in queue order.
pub open spec fn wake_split_from(
    q: Seq<Waiter>,
    n: nat,
    mask: Option<u32>,
    i: int,
) -> (Seq<Waiter>, Seq<Waiter>)
    decreases q.len() - i,
{
    if i < 0 || i >= q.len() {
        (Seq::empty(), Seq::empty())
    } else if n == 0 {
        (Seq::empty(), q.subrange(i, q.len() as int))
    } else if eligible(q[i], mask) {
        let (w, r) = wake_split_from(q, (n - 1) as nat, mask, i + 1);
        (seq![q[i]] + w, r)
    } else {
        let (w, r) = wake_split_from(q, n, mask, i + 1);
        (w, seq![q[i]] + r)
    }
}

/// The effect of a wake of up to `n` waiters with filter `mask` on queue
/// `q`: (waiters woken, waiters left queued).
pub open spec fn wake_split(q: Seq<Waiter>, n: nat, mask: Option<u32>) -> (Seq<Waiter>, Seq<Waiter>) {
    wake_split_from(q, n, mask, 0)
}

/// The queue with the first waiter carrying `tid` removed, as a timed-out
/// wait removes its own registration.
pub open spec fn remove_first_tid(q: Seq<Waiter>, tid: u32) -> Seq<Waiter>
    decreases q.len(),
{
    if q.len() == 0 {
        q
    } else if q[0].tid == tid {
        q.subrange(1, q.len() as int)
    } else {
        seq![q[0]] + remove_first_tid(q.subrange(1, q.len() as int), tid)
    }
}

impl FutexTable {
    /// No two entries carry the same key.
    pub open spec fn wf(self) -> bool {
        forall|i: int, j: int|
            0 <= i < j < self.futexes@.len() ==> self.futexes@[i].0 != self.futexes@[j].0
    }

    /// Whether a futex has been created for `k`.
    pub open spec fn has(self, k: FutexKey) -> bool {
        flookup(self.futexes@, k) is Some
    }

    /// The wait queue at `k`; a key without a futex has an empty queue.
    pub open spec fn queue(self, k: FutexKey) -> Seq<Waiter> {
        match flookup(self.futexes@, k) {
            Some(f) => f.waiters@,
            None => Seq::empty(),
        }
    }

    /// The owner-death flag at `k`; clear when no futex exists.
    pub open spec fn dead(self, k: FutexKey) -> bool {
        match flookup(self.futexes@, k) {
            Some(f) => f.owner_dead,
            None => false,
        }
    }

    /// An empty table, as a process starts with.
    pub fn new() -> (t: FutexTable)
        ensures
            t.wf(),
            forall|k: FutexKey| !t.has(k),
            forall|k: FutexKey| t.queue(k) == Seq::<Waiter>::empty(),
            forall|k: FutexKey| !t.dead(k),
    {
        FutexTable { futexes: Vec::new() }
    }
}

/// The state of `k` is the same in `a` and `b`: same existence, queue and
/// death flag.
pub open spec fn same_at(a: FutexTable, b: FutexTable, k: FutexKey) -> bool {
    a.has(k) == b.has(k) && a.queue(k) == b.queue(k) && a.dead(k) == b.dead(k)
}

proof fn lemma_flookup_from_at(s: Seq<(FutexKey, Futex)>, k: FutexKey, i: int, j: int)
    requires
        forall|p: int, q: int| 0 <= p < q < s.len() ==> s[p].0 != s[q].0,
        0 <= i <= j < s.len(),
        s[j].0 == k,
    ensures
        flookup_from(s, k, i) == Some(s[j].1),
    decreases j - i,
{
    if i < j {
        assert(s[i].0 != k);
        lemma_flookup_from_at(s, k, i + 1, j);
    }
}

/// In a well-formed table, any index whose key is `k` determines the lookup.
proof fn lemma_flookup_at(s: Seq<(FutexKey, Futex)>, k: FutexKey, j: int)
    requires
        forall|p: int, q: int| 0 <= p < q < s.len() ==> s[p].0 != s[q].0,
        0 <= j < s.len(),
        s[j].0 == k,
    ensures
        flookup(s, k) == Some(s[j].1),
{
    lemma_flookup_from_at(s, k, 0, j);
}

proof fn lemma_flookup_none_from(s: Seq<(FutexKey, Futex)>, k: FutexKey, i: int, j: int)
    requires
        flookup_from(s, k, i) is None,
        0 <= i <= j < s.len(),
    ensures
        s[j].0 != k,
    decreases j - i,
{
    if i < j {
        lemma_flookup_none_from(s, k, i + 1, j);
    }
}

/// A key without an entry matches no index.
proof fn lemma_flookup_none(s: Seq<(FutexKey, Futex)>, k: FutexKey, j: int)
    requires
        flookup(s, k) is None,
        0 <= j < s.len(),
    ensures
        s[j].0 != k,
{
    lemma_flookup_none_from(s, k, 0, j);
}

proof fn lemma_flookup_update_other_from(
    s: Seq<(FutexKey, Futex)>,
    j: int,
    f: Futex,
    a: FutexKey,
    i: int,
)
    requires
        0 <= j < s.len(),
        a != s[j].0,
    ensures
        flookup_from(s.update(j, (s[j].0, f)), a, i) == flookup_from(s, a, i),
    decreases s.len() - i,
{
    if 0 <= i && i < s.len() {
        lemma_flookup_update_other_from(s, j, f, a, i + 1);
    }
}

/// Replacing the futex stored at one index leaves every other key's lookup
/// unchanged.
proof fn lemma_flookup_update_other(s: Seq<(FutexKey, Futex)>, j: int, f: Futex, a: FutexKey)
    requires
        0 <= j < s.len(),
        a != s[j].0,
    ensures
        flookup(s.update(j, (s[j].0, f)), a) == flookup(s, a),
{
    lemma_flookup_update_other_from(s, j, f, a, 0);
}

proof fn lemma_flookup_push_from(
    s: Seq<(FutexKey, Futex)>,
    k: FutexKey,
    f: Futex,
    a: FutexKey,
    i: int,
)
    requires
        0 <= i <= s.len(),
    ensures
        flookup_from(s.push((k, f)), a, i) == match flookup_from(s, a, i) {
            Some(g) => Some(g),
            None => if a == k {
                Some(f)
            } else {
                None
            },
        },
    decreases s.len() - i,
{
    if i < s.len() {
        lemma_flookup_push_from(s, k, f, a, i + 1);
    } else {
        assert(s.push((k, f))[i] == (k, f));
        assert(flookup_from(s.push((k, f)), a, i + 1) is None);
    }
}

/// Appending a fresh entry resolves its own key and leaves the others.
proof fn lemma_flookup_push(s: Seq<(FutexKey, Futex)>, k: FutexKey, f: Futex, a: FutexKey)
    ensures
        flookup(s.push((k, f)), a) == match flookup(s, a) {
            Some(g) => Some(g),
            None => if a == k {
                Some(f)
            } else {
                None
            },
        },
{
    lemma_flookup_push_from(s, k, f, a, 0);
}

impl FutexTable {
    /// Finds the index of the entry for `key`, if a futex exists for it.
    fn find_idx(&self, key: FutexKey) -> (r: Option<usize>)
        requires
            self.wf(),
        ensures
            match r {
                Some(j) => j < self.futexes@.len() && self.futexes@[j as int].0 == key
                    && flookup(self.futexes@, key) == Some(self.futexes@[j as int].1),
                None => !self.has(key),
            },
    {
        let mut i: usize = 0;
        while i < self.futexes.len()
            invariant
                self.wf(),
                i <= self.futexes@.len(),
                flookup(self.futexes@, key) == flookup_from(self.futexes@, key, i as int),
            decreases self.futexes@.len() - i,
        {
            if self.futexes[i].0 == key {
                return Some(i);
            }
            i = i + 1;
        }
        None
    }

    /// Replaces the futex stored at index `j`, keeping its key.
    fn replace_futex_at(&mut self, j: usize, f: Futex)
        requires
            old(self).wf(),
            j < old(self).futexes@.len(),
        ensures
            final(self).wf(),
            final(self).futexes@ == old(self).futexes@.update(
                j as int,
                (old(self).futexes@[j as int].0, f),
            ),
            ({
                let k = old(self).futexes@[j as int].0;
                final(self).has(k) && final(self).queue(k) == f.waiters@ && final(self).dead(k)
                    == f.owner_dead
            }),
            forall|a: FutexKey| a != old(self).futexes@[j as int].0 ==> #[trigger] same_at(
                *old(self),
                *final(self),
                a,
            ),
    {
        let ghost s = self.futexes@;
        let ghost k = s[j as int].0;
        let (key, _old_futex) = self.futexes.remove(j);
        self.futexes.insert(j, (key, f));
        proof {
            assert(self.futexes@ =~= s.update(j as int, (k, f)));
            lemma_flookup_at(self.futexes@, k, j as int);
            assert forall|a: FutexKey| a != k implies #[trigger] same_at(
                *old(self),
                *self,
                a,
            ) by {
                lemma_flookup_update_other(s, j as int, f, a);
            }
        }
    }

    /// Borrows the futex stored at index `j` for in-place update.
    fn futex_at_mut(&mut self, j: usize) -> (f: &mut Futex)
        requires
            j < old(self).futexes@.len(),
        ensures
            *f == old(self).futexes@[j as int].1,
            final(self).futexes@ == old(self).futexes@.update(
                j as int,
                (old(self).futexes@[j as int].0, *final(f)),
            ),
    {
        proof {
            assert(old(self).futexes@.update(
                j as int,
                (old(self).futexes@[j as int].0, old(self).futexes@[j as int].1),
            ) =~= old(self).futexes@);
        }
        &mut self.futexes[j].1
    }

    /// Creates the futex for `key` if none exists, and returns the index of
    /// its entry.  A single winner creates; a concurrent caller under the
    /// same table lock observes the existing entry.
    fn get_or_insert_idx(&mut self, key: FutexKey) -> (j: usize)
        requires
            old(self).wf(),
        ensures
            final(self).wf(),
            j < final(self).futexes@.len(),
            final(self).futexes@[j as int].0 == key,
            flookup(final(self).futexes@, key) == Some(final(self).futexes@[j as int].1),
            old(self).has(key) ==> *final(self) == *old(self),
            final(self).has(key),
            final(self).queue(key) == old(self).queue(key),
            final(self).dead(key) == old(self).dead(key),
            forall|a: FutexKey| a != key ==> #[trigger] same_at(*old(self), *final(self), a),
    {
        match self.find_idx(key) {
            Some(j) => {
                proof {
                    assert forall|a: FutexKey| a != key implies #[trigger] same_at(
                        *old(self),
                        *self,
                        a,
                    ) by {}
                }
                j
            },
            None => {
                let ghost s = self.futexes@;
                let j = self.futexes.len();
                let fresh = Futex { waiters: Vec::new(), owner_dead: false };
                self.futexes.push((key, fresh));
                proof {
                    assert forall|p: int, q: int|
                        0 <= p < q < self.futexes@.len() implies self.futexes@[p].0
                        != self.futexes@[q].0 by {
                        if q == self.futexes@.len() - 1 {
                            lemma_flookup_none(s, key, p);
                        }
                    }
                    lemma_flookup_push(s, key, fresh, key);
                    assert forall|a: FutexKey| a != key implies #[trigger] same_at(
                        *old(self),
                        *self,
                        a,
                    ) by {
                        lemma_flookup_push(s, key, fresh, a);
                    }
                }
                j
            },
        }
    }
}

/// After replacing the futex at index `j` of a well-formed table with `f`,
/// the table is still well formed, the entry's key resolves to `f`, and
/// every other key is untouched.
proof fn lemma_table_update(t0: FutexTable, t1: FutexTable, j: int, f: Futex)
    requires
        t0.wf(),
        0 <= j < t0.futexes@.len(),
        t1.futexes@ == t0.futexes@.update(j, (t0.futexes@[j].0, f)),
    ensures
        t1.wf(),
        t1.has(t0.futexes@[j].0),
        t1.queue(t0.futexes@[j].0) == f.waiters@,
        t1.dead(t0.futexes@[j].0) == f.owner_dead,
        forall|a: FutexKey| a != t0.futexes@[j].0 ==> #[trigger] same_at(t0, t1, a),
{
    let k = t0.futexes@[j].0;
    assert forall|p: int, q: int| 0 <= p < q < t1.futexes@.len() implies t1.futexes@[p].0
        != t1.futexes@[q].0 by {
        assert(t1.futexes@[p].0 == t0.futexes@[p].0);
        assert(t1.futexes@[q].0 == t0.futexes@[q].0);
    }
    lemma_flookup_at(t1.futexes@, k, j);
    assert forall|a: FutexKey| a != k implies #[trigger] same_at(t0, t1, a) by {
        lemma_flookup_update_other(t0.futexes@, j, f, a);
    }
}

impl FutexTable {
    /// `Wait(address, expected, bitset)`: the single atomic
    /// resolve-or-register step of a futex wait, performed under the lock
    /// that keeps a concurrent wake out.
    ///
    /// Fails with `EFAULT` if the address is unmapped and with `EAGAIN` if
    /// the live value differs from `expected` — in both cases no waiter is
    /// ever registered and the table is unchanged.  Otherwise the caller is
    /// appended to the key's queue (creating the futex on first use) and
    /// must then block until woken, timed out, or requeued.
    pub fn futex_wait(
        &mut self,
        mem: &UserMem,
        key: FutexKey,
        tid: u32,
        expected: u32,
        bitset: u32,
    ) -> (r: Result<(), LinuxError>)
        requires
            old(self).wf(),
        ensures
            final(self).wf(),
            mem.word(key.addr) is None ==> r == Err::<(), LinuxError>(LinuxError::EFAULT)
                && *final(self) == *old(self),
            mem.word(key.addr) is Some && mem.word(key.addr) != Some(expected) ==> r == Err::<
                (),
                LinuxError,
            >(LinuxError::EAGAIN) && *final(self) == *old(self),
            mem.word(key.addr) == Some(expected) ==> r == Ok::<(), LinuxError>(())
                && final(self).queue(key) == old(self).queue(key).push(
                Waiter { tid, bitset },
            ) && final(self).dead(key) == old(self).dead(key) && final(self).has(key) && forall|
                a: FutexKey,
            |
                a != key ==> #[trigger] same_at(*old(self), *final(self), a),
    {
        match mem.read_word(key.addr) {
            None => Err(LinuxError::EFAULT),
            Some(v) => {
                if v != expected {
                    return Err(LinuxError::EAGAIN);
                }
                let j = self.get_or_insert_idx(key);
                let ghost t1 = *self;
                let f = self.futex_at_mut(j);
                f.waiters.push(Waiter { tid, bitset });
                proof {
                    lemma_table_update(t1, *self, j as int, self.futexes@[j as int].1);
                    assert(t1.queue(key) == t1.futexes@[j as int].1.waiters@);
                    assert(self.queue(key) =~= old(self).queue(key).push(
                        Waiter { tid, bitset },
                    ));
                    assert forall|a: FutexKey| a != key implies #[trigger] same_at(
                        *old(self),
                        *self,
                        a,
                    ) by {
                        assert(same_at(*old(self), t1, a));
                        assert(same_at(t1, *self, a));
                    }
                }
                Ok(())
            },
        }
    }

    /// `Wake(address, max_count, bitset)`: removes and returns up to
    /// `max_count` waiters from the key's queue, oldest first; with a mask,
    /// only waiters whose recorded bitset shares a bit with it qualify, and
    /// the others stay queued in order.  A key with no futex wakes nobody.
    /// The caller hands the returned waiters to the scheduler and then
    /// yields so they get a scheduling opportunity.
    pub fn futex_wake(&mut self, key: FutexKey, max_count: u32, mask: Option<u32>) -> (woken: Vec<
        Waiter,
    >)
        requires
            old(self).wf(),
        ensures
            final(self).wf(),
            woken@ == wake_split(old(self).queue(key), max_count as nat, mask).0,
            final(self).queue(key) == wake_split(old(self).queue(key), max_count as nat, mask).1,
            final(self).has(key) == old(self).has(key),
            final(self).dead(key) == old(self).dead(key),
            woken@.len() <= max_count,
            forall|a: FutexKey| a != key ==> #[trigger] same_at(*old(self), *final(self), a),
    {
        let j_opt = self.find_idx(key);
        let j = match j_opt {
            None => {
                proof {
                    lemma_wake_split_len(old(self).queue(key), max_count as nat, mask, 0);
                    assert(wake_split(old(self).queue(key), max_count as nat, mask).0
                        =~= Seq::<Waiter>::empty());
                    assert(wake_split(old(self).queue(key), max_count as nat, mask).1
                        =~= Seq::<Waiter>::empty());
                }
                return Vec::new();
            },
            Some(j) => j,
        };
        let ghost q = self.futexes@[j as int].1.waiters@;
        let qlen = self.futexes[j].1.waiters.len();
        let mut woken: Vec<Waiter> = Vec::new();
        let mut remaining: Vec<Waiter> = Vec::new();
        let mut i: usize = 0;
        while i < qlen
            invariant
                self.wf(),
                j < self.futexes@.len(),
                self.futexes@[j as int].1.waiters@ == q,
                qlen == q.len(),
                i <= qlen,
                woken@.len() <= max_count,
                wake_split(q, max_count as nat, mask).0 == woken@ + wake_split_from(
                    q,
                    (max_count - woken@.len()) as nat,
                    mask,
                    i as int,
                ).0,
                wake_split(q, max_count as nat, mask).1 == remaining@ + wake_split_from(
                    q,
                    (max_count - woken@.len()) as nat,
                    mask,
                    i as int,
                ).1,
            decreases qlen - i,
        {
            let w = self.futexes[j].1.waiters[i];
            let budget_left = (woken.len() as u32) < max_count;
            if budget_left && is_eligible(w, mask) {
                woken.push(w);
                proof {
                    assert(wake_split(q, max_count as nat, mask).0 =~= woken@
                        + wake_split_from(q, (max_count - woken@.len()) as nat, mask, i + 1).0);
                }
            } else {
                remaining.push(w);
                proof {
                    if (max_count - woken@.len()) as nat == 0 {
                        assert(q.subrange(i as int, q.len() as int) =~= seq![q[i as int]]
                            + q.subrange(i + 1, q.len() as int));
                    }
                    assert(wake_split(q, max_count as nat, mask).1 =~= remaining@
                        + wake_split_from(q, (max_count - woken@.len()) as nat, mask, i + 1).1);
                }
            }
            i = i + 1;
        }
        let ghost t1 = *self;
        let dead = self.futexes[j].1.owner_dead;
        self.replace_futex_at(j, Futex { waiters: remaining, owner_dead: dead });
        proof {
            lemma_flookup_at(t1.futexes@, key, j as int);
        }
        woken
    }

    /// A wait whose deadline elapsed: the timed-out thread removes its own
    /// registration and returns `ETIMEDOUT` to userspace.  No wake is
    /// delivered and the owner-death flag is untouched.
    pub fn futex_wait_timed_out(&mut self, key: FutexKey, tid: u32)
        requires
            old(self).wf(),
        ensures
            final(self).wf(),
            final(self).queue(key) == remove_first_tid(old(self).queue(key), tid),
            final(self).has(key) == old(self).has(key),
            final(self).dead(key) == old(self).dead(key),
            forall|a: FutexKey| a != key ==> #[trigger] same_at(*old(self), *final(self), a),
    {
        let j = match self.find_idx(key) {
            None => {
                return;
            },
            Some(j) => j,
        };
        let ghost q = self.futexes@[j as int].1.waiters@;
        let qlen = self.futexes[j].1.waiters.len();
        let mut out: Vec<Waiter> = Vec::new();
        let mut removed = false;
        let mut i: usize = 0;
        proof {
            assert(q.subrange(0, q.len() as int) =~= q);
            assert(Seq::<Waiter>::empty() + remove_first_tid(q, tid) =~= remove_first_tid(
                q,
                tid,
            ));
        }
        while i < qlen
            invariant
                self.wf(),
                j < self.futexes@.len(),
                self.futexes@[j as int].1.waiters@ == q,
                qlen == q.len(),
                i <= qlen,
                remove_first_tid(q, tid) == out@ + (if removed {
                    q.subrange(i as int, q.len() as int)
                } else {
                    remove_first_tid(q.subrange(i as int, q.len() as int), tid)
                }),
            decreases qlen - i,
        {
            let w = self.futexes[j].1.waiters[i];
            proof {
                assert(q.subrange(i as int, q.len() as int)[0] == q[i as int]);
                assert(q.subrange(i as int, q.len() as int).subrange(
                    1,
                    q.len() - i,
                ) =~= q.subrange(i + 1, q.len() as int));
            }
            if !removed && w.tid == tid {
                removed = true;
            } else {
                out.push(w);
                proof {
                    if removed {
                        assert(q.subrange(i as int, q.len() as int) =~= seq![q[i as int]]
                            + q.subrange(i + 1, q.len() as int));
                    }
                    assert(remove_first_tid(q, tid) =~= out@ + (if removed {
                        q.subrange(i + 1, q.len() as int)
                    } else {
                        remove_first_tid(q.subrange(i + 1, q.len() as int), tid)
                    }));
                }
            }
            i = i + 1;
        }
        proof {
            assert(q.subrange(q.len() as int, q.len() as int) =~= Seq::<Waiter>::empty());
            assert(remove_first_tid(q, tid) =~= out@);
        }
        let ghost t1 = *self;
        let dead = self.futexes[j].1.owner_dead;
        self.replace_futex_at(j, Futex { waiters: out, owner_dead: dead });
        proof {
            lemma_flookup_at(t1.futexes@, key, j as int);
        }
    }

    /// Whether a futex has been created for `key` (the executable probe
    /// of `has`).
    pub fn has_futex(&self, key: FutexKey) -> (b: bool)
        requires
            self.wf(),
        ensures
            b == self.has(key),
    {
        self.find_idx(key).is_some()
    }

    /// Sets the owner-death flag on `key`'s futex, which must exist, as
    /// the robust-list walker does for a lock whose holder died.
    pub fn mark_owner_dead(&mut self, key: FutexKey)
        requires
            old(self).wf(),
            old(self).has(key),
        ensures
            final(self).wf(),
            final(self).has(key),
            final(self).dead(key),
            final(self).queue(key) == old(self).queue(key),
            forall|a: FutexKey| a != key ==> #[trigger] same_at(*old(self), *final(self), a),
    {
        if let Some(j) = self.find_idx(key) {
            let ghost t1 = *self;
            let f = self.futex_at_mut(j);
            f.owner_dead = true;
            proof {
                lemma_table_update(t1, *self, j as int, self.futexes@[j as int].1);
            }
        }
    }

    /// The step a woken waiter performs as it resumes: if the futex's
    /// owner-death flag is set it is cleared and the wait reports
    /// `EOWNERDEAD` — the lock is acquired but its previous holder died.
    /// Otherwise the wait succeeded normally.
    pub fn futex_wait_resume(&mut self, key: FutexKey) -> (r: Result<isize, LinuxError>)
        requires
            old(self).wf(),
        ensures
            final(self).wf(),
            r == if old(self).dead(key) {
                Err::<isize, LinuxError>(LinuxError::EOWNERDEAD)
            } else {
                Ok::<isize, LinuxError>(0)
            },
            !final(self).dead(key),
            final(self).queue(key) == old(self).queue(key),
            final(self).has(key) == old(self).has(key),
            forall|a: FutexKey| a != key ==> #[trigger] same_at(*old(self), *final(self), a),
    {
        let j = match self.find_idx(key) {
            None => {
                return Ok(0);
            },
            Some(j) => j,
        };
        let was_dead = self.futexes[j].1.owner_dead;
        let ghost t1 = *self;
        let f = self.futex_at_mut(j);
        f.owner_dead = false;
        proof {
            lemma_table_update(t1, *self, j as int, self.futexes@[j as int].1);
        }
        if was_dead {
            Err(LinuxError::EOWNERDEAD)
        } else {
            Ok(0)
        }
    }
}

impl FutexTable {
    /// `Requeue(address1, wake_count, requeue_count, address2, expected)`:
    /// wakes up to `wake_count` waiters at `key1`, oldest first, and — only
    /// if that exact count was woken — moves up to `requeue_count` of the
    /// remaining waiters onto `key2`'s queue without waking them, creating
    /// `key2`'s futex as needed.
    ///
    /// A supplied comparison value guards the whole operation: if the live
    /// value at `key1`'s address differs, nothing is woken or requeued and
    /// the call fails with `EAGAIN`.  Counts with the sign bit set are
    /// rejected with `EINVAL`, as the ABI reuses signed fields for them.
    /// Returns the number woken plus the number requeued, and the woken
    /// waiters themselves for the scheduler.
    pub fn futex_requeue(
        &mut self,
        mem: &UserMem,
        key1: FutexKey,
        key2: FutexKey,
        wake_count: u32,
        requeue_count: u32,
        cmp: Option<u32>,
    ) -> (r: Result<(isize, Vec<Waiter>), LinuxError>)
        requires
            old(self).wf(),
            // machine limit: thread ids are 32-bit, so no queue can hold
            // 2^31 blocked threads and the returned count fits the ABI word
            old(self).queue(key1).len() < 0x8000_0000,
        ensures
            final(self).wf(),
            wake_count >= 0x8000_0000 ==> r == Err::<(isize, Vec<Waiter>), LinuxError>(
                LinuxError::EINVAL,
            ) && *final(self) == *old(self),
            wake_count < 0x8000_0000 && cmp is Some && mem.word(key1.addr) is None ==> r
                == Err::<(isize, Vec<Waiter>), LinuxError>(LinuxError::EFAULT) && *final(self)
                == *old(self),
            wake_count < 0x8000_0000 && cmp is Some && mem.word(key1.addr) is Some
                && mem.word(key1.addr) != cmp ==> r == Err::<(isize, Vec<Waiter>), LinuxError>(
                LinuxError::EAGAIN,
            ) && *final(self) == *old(self),
            wake_count < 0x8000_0000 && (cmp is None || mem.word(key1.addr) == cmp)
                && requeue_count >= 0x8000_0000 ==> r == Err::<(isize, Vec<Waiter>), LinuxError>(
                LinuxError::EINVAL,
            ) && *final(self) == *old(self),
            wake_count < 0x8000_0000 && (cmp is None || mem.word(key1.addr) == cmp)
                && requeue_count < 0x8000_0000 ==> ({
                let q1 = old(self).queue(key1);
                let q2 = old(self).queue(key2);
                let w2 = if q1.len() < wake_count { q1.len() as int } else { wake_count as int };
                let do_req = q1.len() >= wake_count;
                let rem = q1.subrange(w2, q1.len() as int);
                let m2 = if do_req {
                    if rem.len() < requeue_count { rem.len() as int } else { requeue_count as int }
                } else {
                    0
                };
                let moved = rem.subrange(0, m2);
                let stay = rem.subrange(m2, rem.len() as int);
                &&& r is Ok
                &&& r.unwrap().0 == w2 + m2
                &&& r.unwrap().1@ == q1.subrange(0, w2)
                &&& key1 == key2 ==> final(self).queue(key1) == stay + moved
                &&& key1 != key2 ==> final(self).queue(key1) == stay && final(self).queue(key2)
                    == q2 + moved && final(self).has(key1) == old(self).has(key1)
                &&& final(self).has(key2)
                &&& final(self).dead(key1) == old(self).dead(key1)
                &&& final(self).dead(key2) == old(self).dead(key2)
                &&& forall|a: FutexKey|
                    a != key1 && a != key2 ==> #[trigger] same_at(*old(self), *final(self), a)
            }),
    {
        if let Err(e) = assert_unsigned(wake_count) {
            return Err(e);
        }
        if let Some(e) = cmp {
            match mem.read_word(key1.addr) {
                None => {
                    return Err(LinuxError::EFAULT);
                },
                Some(v) => {
                    if v != e {
                        return Err(LinuxError::EAGAIN);
                    }
                },
            }
        }
        if let Err(e) = assert_unsigned(requeue_count) {
            return Err(e);
        }
        let j2 = self.get_or_insert_idx(key2);
        let ghost t1 = *self;
        let j1 = match self.find_idx(key1) {
            None => {
                proof {
                    assert(key1 != key2);
                    assert(same_at(*old(self), t1, key1));
                    assert(old(self).queue(key1) =~= Seq::<Waiter>::empty());
                    assert(old(self).queue(key1).subrange(0, 0) =~= Seq::<Waiter>::empty());
                    assert(old(self).queue(key2) + Seq::<Waiter>::empty() =~= old(
                        self,
                    ).queue(key2));
                }
                return Ok((0, Vec::new()));
            },
            Some(j1) => j1,
        };
        let ghost q1 = self.futexes@[j1 as int].1.waiters@;
        proof {
            assert(t1.queue(key1) == q1);
            if key1 != key2 {
                assert(same_at(*old(self), t1, key1));
            }
            assert(old(self).queue(key1) == q1);
        }
        let qlen = self.futexes[j1].1.waiters.len();
        let wc = wake_count as usize;
        let w2: usize = if qlen < wc { qlen } else { wc };
        let do_req = qlen >= wc;
        let rc = requeue_count as usize;
        let rlen = qlen - w2;
        let m2: usize = if do_req {
            if rlen < rc { rlen } else { rc }
        } else {
            0
        };
        let mut woken: Vec<Waiter> = Vec::new();
        let mut i: usize = 0;
        while i < w2
            invariant
                self.wf(),
                self.futexes@ == t1.futexes@,
                j1 < self.futexes@.len(),
                self.futexes@[j1 as int].1.waiters@ == q1,
                w2 <= qlen == q1.len(),
                i <= w2,
                woken@ == q1.subrange(0, i as int),
            decreases w2 - i,
        {
            woken.push(self.futexes[j1].1.waiters[i]);
            proof {
                assert(woken@ =~= q1.subrange(0, i + 1));
            }
            i = i + 1;
        }
        let mut moved: Vec<Waiter> = Vec::new();
        let mut i: usize = w2;
        while i < w2 + m2
            invariant
                self.wf(),
                self.futexes@ == t1.futexes@,
                j1 < self.futexes@.len(),
                self.futexes@[j1 as int].1.waiters@ == q1,
                w2 + m2 <= qlen == q1.len(),
                w2 <= i <= w2 + m2,
                moved@ == q1.subrange(w2 as int, i as int),
            decreases w2 + m2 - i,
        {
            moved.push(self.futexes[j1].1.waiters[i]);
            proof {
                assert(moved@ =~= q1.subrange(w2 as int, i + 1));
            }
            i = i + 1;
        }
        let mut stay: Vec<Waiter> = Vec::new();
        let mut i: usize = w2 + m2;
        while i < qlen
            invariant
                self.wf(),
                self.futexes@ == t1.futexes@,
                j1 < self.futexes@.len(),
                self.futexes@[j1 as int].1.waiters@ == q1,
                w2 + m2 <= qlen == q1.len(),
                w2 + m2 <= i <= qlen,
                stay@ == q1.subrange((w2 + m2) as int, i as int),
            decreases qlen - i,
        {
            stay.push(self.futexes[j1].1.waiters[i]);
            proof {
                assert(stay@ =~= q1.subrange((w2 + m2) as int, i + 1));
            }
            i = i + 1;
        }
        let ghost rem = q1.subrange(w2 as int, q1.len() as int);
        proof {
            assert(moved@ =~= rem.subrange(0, m2 as int));
            assert(stay@ =~= rem.subrange(m2 as int, rem.len() as int));
        }
        let dead1 = self.futexes[j1].1.owner_dead;
        let count = w2 + m2;
        proof {
            assert(count <= qlen < 0x8000_0000);
        }
        if self.futexes[j1].0 == self.futexes[j2].0 {
            proof {
                assert(key1 == key2);
            }
            let ghost stay0 = stay@;
            let mut newq = stay;
            let mut k: usize = 0;
            while k < m2
                invariant
                    m2 == moved@.len(),
                    k <= m2,
                    newq@ == stay0 + moved@.subrange(0, k as int),
                decreases m2 - k,
            {
                newq.push(moved[k]);
                proof {
                    assert(newq@ =~= stay0 + moved@.subrange(0, k + 1));
                }
                k = k + 1;
            }
            proof {
                assert(moved@.subrange(0, m2 as int) =~= moved@);
            }
            self.replace_futex_at(j1, Futex { waiters: newq, owner_dead: dead1 });
            proof {
                assert(self.queue(key1) == stay0 + moved@);
                assert(t1.dead(key1) == dead1);
                assert forall|a: FutexKey| a != key1 && a != key2 implies #[trigger] same_at(
                    *old(self),
                    *self,
                    a,
                ) by {
                    assert(same_at(*old(self), t1, a));
                    assert(same_at(t1, *self, a));
                }
            }
            Ok((count as isize, woken))
        } else {
            proof {
                assert(self.futexes@[j1 as int].0 == key1);
                assert(self.futexes@[j2 as int].0 == key2);
            }
            let ghost q2 = t1.queue(key2);
            self.replace_futex_at(j1, Futex { waiters: stay, owner_dead: dead1 });
            let ghost t2 = *self;
            proof {
                assert(same_at(t1, t2, key2));
                assert(t2.futexes@[j2 as int].0 == key2);
                lemma_flookup_at(t2.futexes@, key2, j2 as int);
            }
            let q2len = self.futexes[j2].1.waiters.len();
            let dead2 = self.futexes[j2].1.owner_dead;
            let ghost q2v = self.futexes@[j2 as int].1.waiters@;
            let mut newq2: Vec<Waiter> = Vec::new();
            let mut k: usize = 0;
            while k < q2len
                invariant
                    self.futexes@ == t2.futexes@,
                    j2 < self.futexes@.len(),
                    self.futexes@[j2 as int].1.waiters@ == q2v,
                    q2len == q2v.len(),
                    k <= q2len,
                    newq2@ == q2v.subrange(0, k as int),
                decreases q2len - k,
            {
                newq2.push(self.futexes[j2].1.waiters[k]);
                proof {
                    assert(newq2@ =~= q2v.subrange(0, k + 1));
                }
                k = k + 1;
            }
            proof {
                assert(newq2@ =~= q2v);
            }
            let mut k: usize = 0;
            while k < m2
                invariant
                    m2 == moved@.len(),
                    k <= m2,
                    newq2@ == q2v + moved@.subrange(0, k as int),
                decreases m2 - k,
            {
                newq2.push(moved[k]);
                proof {
                    assert(newq2@ =~= q2v + moved@.subrange(0, k + 1));
                }
                k = k + 1;
            }
            proof {
                assert(moved@.subrange(0, m2 as int) =~= moved@);
            }
            let ghost t2b = *self;
            proof {
                assert(t2b.wf());
                assert(t2b.futexes@[j2 as int].0 == key2);
            }
            self.replace_futex_at(j2, Futex { waiters: newq2, owner_dead: dead2 });
            proof {
                assert(t1.dead(key1) == dead1);
                assert(t2.dead(key2) == dead2);
                assert(same_at(t2, *self, key1));
                assert forall|a: FutexKey| a != key1 && a != key2 implies #[trigger] same_at(
                    *old(self),
                    *self,
                    a,
                ) by {
                    assert(same_at(*old(self), t1, a));
                    assert(same_at(t1, t2, a));
                    assert(same_at(t2, *self, a));
                }
            }
            Ok((count as isize, woken))
        }
    }
}

/// Rejects a count whose sign bit is set with `EINVAL`: the ABI carries
/// futex counts in fields that are signed in the original interface.
pub fn assert_unsigned(value: u32) -> (r: Result<u32, LinuxError>)
    ensures
        r == if value >= 0x8000_0000 {
            Err::<u32, LinuxError>(LinuxError::EINVAL)
        } else {
            Ok::<u32, LinuxError>(value)
        },
{
    if value >= 0x8000_0000 {
        Err(LinuxError::EINVAL)
    } else {
        Ok(value)
    }
}

/// Whether a waiter qualifies for a wake under `mask`.
fn is_eligible(w: Waiter, mask: Option<u32>) -> (b: bool)
    ensures
        b == eligible(w, mask),
{
    match mask {
        None => true,
        Some(m) => w.bitset & m != 0,
    }
}

/// A wake never returns more waiters than it was asked for.
proof fn lemma_wake_split_len(q: Seq<Waiter>, n: nat, mask: Option<u32>, i: int)
    ensures
        wake_split_from(q, n, mask, i).0.len() <= n,
    decreases q.len() - i,
{
    if 0 <= i && i < q.len() && n > 0 {
        if eligible(q[i], mask) {
            lemma_wake_split_len(q, (n - 1) as nat, mask, i + 1);
        } else {
            lemma_wake_split_len(q, n, mask, i + 1);
        }
    }
}

/// A wake never returns more waiters than were queued.
pub proof fn lemma_wake_split_le_queue(q: Seq<Waiter>, n: nat, mask: Option<u32>, i: int)
    requires
        0 <= i <= q.len(),
    ensures
        wake_split_from(q, n, mask, i).0.len() + i <= q.len(),
    decreases q.len() - i,
{
    if i < q.len() && n > 0 {
        if eligible(q[i], mask) {
            lemma_wake_split_le_queue(q, (n - 1) as nat, mask, i + 1);
        } else {
            lemma_wake_split_le_queue(q, n, mask, i + 1);
        }
    }
}

/// What a successful requeue did to the table: `t0` is the table before,
/// `t1` after; `retval` and `wokenv` are what the call reported.  Waiters
/// are split off the front of `key1`'s queue — first those woken, then,
/// only if the wake count was fully used, those moved onto `key2`'s queue
/// without waking.
pub open spec fn requeue_outcome(
    t0: FutexTable,
    t1: FutexTable,
    key1: FutexKey,
    key2: FutexKey,
    wake_count: u32,
    requeue_count: u32,
    retval: int,
    wokenv: Seq<Waiter>,
) -> bool {
    let q1 = t0.queue(key1);
    let q2 = t0.queue(key2);
    let w2 = if q1.len() < wake_count {
        q1.len() as int
    } else {
        wake_count as int
    };
    let do_req = q1.len() >= wake_count;
    let rem = q1.subrange(w2, q1.len() as int);
    let m2 = if do_req {
        if rem.len() < requeue_count {
            rem.len() as int
        } else {
            requeue_count as int
        }
    } else {
        0
    };
    let moved = rem.subrange(0, m2);
    let stay = rem.subrange(m2, rem.len() as int);
    &&& retval == w2 + m2
    &&& wokenv == q1.subrange(0, w2)
    &&& key1 == key2 ==> t1.queue(key1) == stay + moved
    &&& key1 != key2 ==> t1.queue(key1) == stay && t1.queue(key2) == q2 + moved && t1.has(key1)
        == t0.has(key1)
    &&& t1.has(key2)
    &&& t1.dead(key1) == t0.dead(key1)
    &&& t1.dead(key2) == t0.dead(key2)
    &&& forall|a: FutexKey| a != key1 && a != key2 ==> #[trigger] same_at(t0, t1, a)
}

/// Law: once a wait has registered its waiter (the queue grew by `w`, as
/// `futex_wait` ensures), a wake of one unblocks exactly one waiter and
/// reports count 1; a wake of one on a queue with nobody left reports 0.
pub proof fn lemma_wait_then_wake_one(q: Seq<Waiter>, w: Waiter)
    ensures
        wake_split(q.push(w), 1, None).0.len() == 1,
        wake_split(Seq::<Waiter>::empty(), 1, None).0.len() == 0,
{
    let qp = q.push(w);
    assert(qp.len() >= 1);
    assert(eligible(qp[0], None));
    assert(wake_split_from(qp, 0, None, 1).0 =~= Seq::<Waiter>::empty());
    assert(wake_split(qp, 1, None).0 =~= seq![qp[0]] + wake_split_from(qp, 0, None, 1).0);
}

proof fn lemma_wake_bitset_filters_from(q: Seq<Waiter>, n: nat, m: u32, i: int)
    requires
        0 <= i <= q.len(),
    ensures
        forall|k: int|
            0 <= k < wake_split_from(q, n, Some(m), i).0.len() ==> (#[trigger] wake_split_from(
                q,
                n,
                Some(m),
                i,
            ).0[k]).bitset & m != 0,
        forall|j: int|
            i <= j < q.len() && q[j].bitset & m == 0 ==> wake_split_from(
                q,
                n,
                Some(m),
                i,
            ).1.contains(q[j]),
    decreases q.len() - i,
{
    if i >= q.len() {
    } else if n == 0 {
        let r = wake_split_from(q, n, Some(m), i).1;
        assert forall|j: int| i <= j < q.len() && q[j].bitset & m == 0 implies r.contains(
            q[j],
        ) by {
            assert(r[j - i] == q[j]);
        }
    } else if eligible(q[i], Some(m)) {
        lemma_wake_bitset_filters_from(q, (n - 1) as nat, m, i + 1);
        let (w0, r0) = wake_split_from(q, (n - 1) as nat, Some(m), i + 1);
        assert forall|k: int|
            0 <= k < wake_split_from(q, n, Some(m), i).0.len() implies (#[trigger] wake_split_from(
            q,
            n,
            Some(m),
            i,
        ).0[k]).bitset & m != 0 by {
            if k > 0 {
                assert(wake_split_from(q, n, Some(m), i).0[k] == w0[k - 1]);
            }
        }
    } else {
        lemma_wake_bitset_filters_from(q, n, m, i + 1);
        let (w0, r0) = wake_split_from(q, n, Some(m), i + 1);
        let r = wake_split_from(q, n, Some(m), i).1;
        assert forall|j: int| i <= j < q.len() && q[j].bitset & m == 0 implies r.contains(
            q[j],
        ) by {
            if j == i {
                assert(r[0] == q[i]);
            } else {
                assert(r0.contains(q[j]));
                let idx = choose|idx: int| 0 <= idx < r0.len() && r0[idx] == q[j];
                assert(r[1 + idx] == q[j]);
            }
        }
    }
}

/// Law: a bitset wake only wakes waiters whose recorded bitset shares a
/// set bit with the wake mask, and every waiter with a disjoint bitset is
/// still in the queue afterward.
pub proof fn lemma_wake_bitset_filters(q: Seq<Waiter>, n: nat, m: u32)
    ensures
        forall|k: int|
            0 <= k < wake_split(q, n, Some(m)).0.len() ==> (#[trigger] wake_split(
                q,
                n,
                Some(m),
            ).0[k]).bitset & m != 0,
        forall|j: int|
            0 <= j < q.len() && q[j].bitset & m == 0 ==> wake_split(q, n, Some(m)).1.contains(
                q[j],
            ),
{
    lemma_wake_bitset_filters_from(q, n, m, 0);
}

/// What a futex syscall hands back to the kernel glue around it.
#[derive(Debug, PartialEq, Eq)]
pub enum FutexReply {
    /// The operation completed with the given return value; the listed
    /// waiters must be handed to the scheduler, and the caller yields
    /// afterward so they get a scheduling opportunity.
    Done(isize, Vec<Waiter>),
    /// The caller registered as a waiter and must now block, with the
    /// validated timeout if one was supplied, until woken, timed out or
    /// requeued.
    Block(Option<TimeValue>),
}

/// The futex syscall: dispatches on the command bits of `futex_op` over
/// the caller's futex table and address-space memory.
///
/// `uaddr` and `uaddr2` are interpreted against the caller's address
/// space (`aspace_id`); `value2` is the requeue count, which the raw ABI
/// smuggles in the timeout-pointer register.  A wait that registers the
/// caller reports `Block`; every other outcome is immediate.
pub fn sys_futex(
    table: &mut FutexTable,
    mem: &UserMem,
    caller_tid: u32,
    aspace_id: u64,
    uaddr: u64,
    futex_op: u32,
    value: u32,
    timeout: Option<TimeSpec>,
    uaddr2: u64,
    value2: u32,
    value3: u32,
) -> (r: Result<FutexReply, LinuxError>)
    requires
        old(table).wf(),
        // machine limit: no queue can hold 2^31 blocked threads
        old(table).queue(FutexKey { aspace_id, addr: uaddr }).len() < 0x8000_0000,
    ensures
        final(table).wf(),
        ({
            let cmd = futex_op & FUTEX_CMD_MASK;
            let key = FutexKey { aspace_id, addr: uaddr };
            let key2 = FutexKey { aspace_id, addr: uaddr2 };
            &&& (cmd != FUTEX_WAIT && cmd != FUTEX_WAIT_BITSET && cmd != FUTEX_WAKE && cmd
                != FUTEX_WAKE_BITSET && cmd != FUTEX_REQUEUE && cmd != FUTEX_CMP_REQUEUE) ==> r
                == Err::<FutexReply, LinuxError>(LinuxError::ENOSYS) && *final(table) == *old(
                table,
            )
            &&& (cmd == FUTEX_WAIT || cmd == FUTEX_WAIT_BITSET) ==> {
                let bs = if cmd == FUTEX_WAIT_BITSET {
                    value3
                } else {
                    FUTEX_BITSET_MATCH_ANY
                };
                &&& mem.word(uaddr) is None ==> r == Err::<FutexReply, LinuxError>(
                    LinuxError::EFAULT,
                ) && *final(table) == *old(table)
                &&& mem.word(uaddr) is Some && mem.word(uaddr) != Some(value) ==> r == Err::<
                    FutexReply,
                    LinuxError,
                >(LinuxError::EAGAIN) && *final(table) == *old(table)
                &&& mem.word(uaddr) == Some(value) && timeout is Some
                    && !timeout.unwrap().valid() ==> r == Err::<FutexReply, LinuxError>(
                    LinuxError::EINVAL,
                ) && *final(table) == *old(table)
                &&& mem.word(uaddr) == Some(value) && (timeout is None
                    || timeout.unwrap().valid()) ==> (r matches Ok(FutexReply::Block(tv))
                    && (timeout is None ==> tv is None) && (timeout is Some ==> tv
                    == Some(TimeValue {
                    secs: timeout.unwrap().tv_sec as u64,
                    nanos: timeout.unwrap().tv_nsec as u32,
                })) && final(table).queue(key) == old(table).queue(key).push(
                    Waiter { tid: caller_tid, bitset: bs },
                ) && final(table).dead(key) == old(table).dead(key) && (forall|a: FutexKey|
                    a != key ==> #[trigger] same_at(*old(table), *final(table), a)))
            }
            &&& (cmd == FUTEX_WAKE || cmd == FUTEX_WAKE_BITSET) ==> {
                let mask = if cmd == FUTEX_WAKE_BITSET {
                    Some(value3)
                } else {
                    None::<u32>
                };
                let split = wake_split(old(table).queue(key), value as nat, mask);
                r matches Ok(FutexReply::Done(c, w)) && c == split.0.len() && w@ == split.0
                    && final(table).queue(key) == split.1 && final(table).dead(key) == old(
                    table,
                ).dead(key) && (forall|a: FutexKey|
                    a != key ==> #[trigger] same_at(*old(table), *final(table), a))
            }
            &&& (cmd == FUTEX_REQUEUE || cmd == FUTEX_CMP_REQUEUE) ==> {
                let cmp = if cmd == FUTEX_CMP_REQUEUE {
                    Some(value3)
                } else {
                    None::<u32>
                };
                &&& value >= 0x8000_0000 ==> r == Err::<FutexReply, LinuxError>(
                    LinuxError::EINVAL,
                ) && *final(table) == *old(table)
                &&& value < 0x8000_0000 && cmp is Some && mem.word(uaddr) is None ==> r
                    == Err::<FutexReply, LinuxError>(LinuxError::EFAULT) && *final(table)
                    == *old(table)
                &&& value < 0x8000_0000 && cmp is Some && mem.word(uaddr) is Some
                    && mem.word(uaddr) != cmp ==> r == Err::<FutexReply, LinuxError>(
                    LinuxError::EAGAIN,
                ) && *final(table) == *old(table)
                &&& value < 0x8000_0000 && (cmp is None || mem.word(uaddr) == cmp) && value2
                    >= 0x8000_0000 ==> r == Err::<FutexReply, LinuxError>(LinuxError::EINVAL)
                    && *final(table) == *old(table)
                &&& value < 0x8000_0000 && (cmp is None || mem.word(uaddr) == cmp) && value2
                    < 0x8000_0000 ==> (r matches Ok(FutexReply::Done(c, w)) && requeue_outcome(
                    *old(table),
                    *final(table),
                    key,
                    key2,
                    value,
                    value2,
                    c as int,
                    w@,
                ))
            }
        }),
{
    let key = FutexKey { aspace_id, addr: uaddr };
    let command = futex_op & FUTEX_CMD_MASK;
    if command == FUTEX_WAIT || command == FUTEX_WAIT_BITSET {
        // Fast path: no registration when the value already changed.
        let cur = match mem.read_word(uaddr) {
            None => {
                return Err(LinuxError::EFAULT);
            },
            Some(v) => v,
        };
        if cur != value {
            return Err(LinuxError::EAGAIN);
        }
        let tv = match timeout {
            None => None,
            Some(ts) => match ts.try_into_time_value() {
                Ok(v) => Some(v),
                Err(e) => {
                    return Err(e);
                },
            },
        };
        let bitset = if command == FUTEX_WAIT_BITSET {
            value3
        } else {
            FUTEX_BITSET_MATCH_ANY
        };
        // Registration re-checks the value under the lock; with this
        // memory it is the value the fast path read, so it registers.
        match table.futex_wait(mem, key, caller_tid, value, bitset) {
            Ok(()) => Ok(FutexReply::Block(tv)),
            Err(e) => Err(e),
        }
    } else if command == FUTEX_WAKE || command == FUTEX_WAKE_BITSET {
        let mask = if command == FUTEX_WAKE_BITSET {
            Some(value3)
        } else {
            None
        };
        proof {
            lemma_wake_split_le_queue(old(table).queue(key), value as nat, mask, 0);
        }
        let woken = table.futex_wake(key, value, mask);
        let count = woken.len();
        Ok(FutexReply::Done(count as isize, woken))
    } else if command == FUTEX_REQUEUE || command == FUTEX_CMP_REQUEUE {
        let key2 = FutexKey { aspace_id, addr: uaddr2 };
        let cmp = if command == FUTEX_CMP_REQUEUE {
            Some(value3)
        } else {
            None
        };
        match table.futex_requeue(mem, key, key2, value, value2, cmp) {
            Ok((count, woken)) => Ok(FutexReply::Done(count, woken)),
            Err(e) => Err(e),
        }
    } else {
        Err(LinuxError::ENOSYS)
    }
}

} // verus!
