//! Processes, threads, and the clone/fork orchestrator: how a new thread
//! or process is spawned from an existing one, with precise control over
//! what is shared and what is copied.
//!
//! The kernel's task state is modeled explicitly: processes and threads
//! live in tables indexed by creation order, and sharing a resource
//! (address space, signal actions, fd table, fs context) is holding the
//! same index into the kernel's store for it, while copying pushes a new
//! entry.  The scheduler that runs threads is outside this core; a
//! thread is registered in the table before it is made runnable, so a
//! concurrent futex or robust-list operation can never observe a
//! registered-but-missing thread.

use vstd::prelude::*;

use crate::errno::LinuxError;
use crate::futex::FutexTable;
use crate::mm::AddressSpace;
use crate::robust::ROBUST_LIST_HEAD_SIZE;
use crate::usermem::UserMem;

verus! {

/// Clone flag: caller and child run in the same memory space.
pub const CLONE_VM: u32 = 0x100;
/// Clone flag: caller and child share filesystem information.
pub const CLONE_FS: u32 = 0x200;
/// Clone flag: caller and child share the file descriptor table.
pub const CLONE_FILES: u32 = 0x400;
/// Clone flag: caller and child share the signal handler table.
pub const CLONE_SIGHAND: u32 = 0x800;
/// Clone flag: child gets the caller's parent as its own parent.
pub const CLONE_PARENT: u32 = 0x8000;
/// Clone flag: child joins the caller's thread group.
pub const CLONE_THREAD: u32 = 0x10000;
/// Clone flag: set the child's thread-local-storage descriptor.
pub const CLONE_SETTLS: u32 = 0x80000;
/// Clone flag: store the child's id in the parent's memory.
pub const CLONE_PARENT_SETTID: u32 = 0x100000;
/// Clone flag: clear the child's id in child memory on exit and wake a
/// futex there.
pub const CLONE_CHILD_CLEARTID: u32 = 0x200000;
/// Clone flag: store the child's id in the child's memory.
pub const CLONE_CHILD_SETTID: u32 = 0x1000000;
/// The signal a plain `fork` asks to be sent to the parent on exit.
pub const SIGCHLD: u32 = 17;

/// The sharing decisions a clone request asks for, as a set of flags;
/// validation and every branch of the orchestrator read only this set,
/// never raw bit positions.
#[derive(Clone, Copy, Debug, PartialEq, Eq, Structural)]
pub struct CloneFlags {
    /// Share the address space.
    pub vm: bool,
    /// Share the filesystem context.
    pub fs: bool,
    /// Share the file descriptor table.
    pub files: bool,
    /// Share the signal handler table.
    pub sighand: bool,
    /// Use the caller's parent as the child's parent.
    pub parent: bool,
    /// Place the child in the caller's thread group.
    pub thread: bool,
    /// Set the child's thread-local storage.
    pub settls: bool,
    /// Store the child's id at the parent-side address.
    pub parent_settid: bool,
    /// Clear the child's id address and wake a futex there on exit.
    pub child_cleartid: bool,
    /// Store the child's id at the child-side address.
    pub child_settid: bool,
}

impl CloneFlags {
    /// Reads the flag set out of the raw syscall word; unrecognized bits
    /// are ignored.
    pub fn from_bits(raw: u32) -> (f: CloneFlags)
        ensures
            f.vm == (raw & CLONE_VM != 0),
            f.fs == (raw & CLONE_FS != 0),
            f.files == (raw & CLONE_FILES != 0),
            f.sighand == (raw & CLONE_SIGHAND != 0),
            f.parent == (raw & CLONE_PARENT != 0),
            f.thread == (raw & CLONE_THREAD != 0),
            f.settls == (raw & CLONE_SETTLS != 0),
            f.parent_settid == (raw & CLONE_PARENT_SETTID != 0),
            f.child_cleartid == (raw & CLONE_CHILD_CLEARTID != 0),
            f.child_settid == (raw & CLONE_CHILD_SETTID != 0),
    {
        CloneFlags {
            vm: raw & CLONE_VM != 0,
            fs: raw & CLONE_FS != 0,
            files: raw & CLONE_FILES != 0,
            sighand: raw & CLONE_SIGHAND != 0,
            parent: raw & CLONE_PARENT != 0,
            thread: raw & CLONE_THREAD != 0,
            settls: raw & CLONE_SETTLS != 0,
            parent_settid: raw & CLONE_PARENT_SETTID != 0,
            child_cleartid: raw & CLONE_CHILD_CLEARTID != 0,
            child_settid: raw & CLONE_CHILD_SETTID != 0,
        }
    }
}

/// The caller's trap-restorable execution context, reduced to the fields
/// the orchestrator touches.
#[derive(Clone, Copy, Debug, PartialEq, Eq, Structural)]
pub struct TrapFrame {
    /// Instruction pointer to resume at.
    pub ip: u64,
    /// Stack pointer.
    pub sp: u64,
    /// Thread-local-storage descriptor.
    pub tls: u64,
}

/// The userspace context a new thread starts from.
#[derive(Clone, Copy, Debug, PartialEq, Eq, Structural)]
pub struct UspaceContext {
    /// Instruction pointer.
    pub ip: u64,
    /// Stack pointer.
    pub sp: u64,
    /// Thread-local-storage descriptor.
    pub tls: u64,
    /// The syscall return value the thread observes on entry; a clone
    /// child observes 0.
    pub retval: u64,
}

/// Thread-local synchronization state.
#[derive(Clone, Copy, Debug, PartialEq, Eq, Structural)]
pub struct ThreadData {
    /// Address of the thread's registered robust-list head; 0 when none.
    pub robust_list_head: u64,
    /// Address cleared and futex-woken when the thread exits; 0 if unset.
    pub clear_child_tid: u64,
    /// The bitset the thread's last bitset-wait recorded.
    pub futex_bitset: u32,
}

/// One thread: its id, the process it belongs to, its scheduling state
/// and start context.
pub struct Thread {
    /// Thread id.
    pub tid: u32,
    /// Index of the owning process in the kernel's process table.
    pub proc_idx: usize,
    /// Whether the scheduler has accepted the thread; set only after the
    /// thread stands in the thread table.
    pub runnable: bool,
    /// Whether the thread's weak self-reference was back-filled; done
    /// only after the scheduler accepted the task, never before.
    pub self_ref_init: bool,
    /// The userspace context the thread starts from.
    pub uctx: UspaceContext,
    /// The page-table root the thread's context switches to.
    pub page_table_root: u64,
    /// Thread-local synchronization state.
    pub data: ThreadData,
}

/// One process: its identity, lineage, and the resources it owns or
/// shares (an equal index means shared).
pub struct Process {
    /// Process id (the id of its first thread).
    pub pid: u32,
    /// Index of the lineage parent, if any.
    pub parent: Option<usize>,
    /// Pids of children registered so far, in creation order.
    pub children: Vec<u32>,
    /// Index of the owned or shared address space.
    pub aspace: usize,
    /// Index of the owned or shared signal-action table.
    pub signal_actions: usize,
    /// File-mode creation mask, copied by value on fork, never shared.
    pub umask: u32,
    /// Path of the executable image, copied on fork.
    pub exe_path: Vec<u8>,
    /// Signal delivered to the parent when this process exits; 0 = none.
    pub exit_signal: u32,
    /// Index of the owned or shared file descriptor table.
    pub fd_table: usize,
    /// Index of the owned or shared filesystem context.
    pub fs_context: usize,
    /// The process's futex table, created empty with the process.
    pub futex_table: FutexTable,
}

/// The kernel's task state: every table sharing decisions index into.
pub struct Kernel {
    /// All processes, in creation order; never removed in this model.
    pub processes: Vec<Process>,
    /// The global thread table.
    pub threads: Vec<Thread>,
    /// All address spaces; processes share one by holding its index.
    pub aspaces: Vec<AddressSpace>,
    /// All signal-action tables (one handler word per signal).
    pub signal_tables: Vec<Vec<u64>>,
    /// All file descriptor tables.
    pub fd_tables: Vec<Vec<u64>>,
    /// All filesystem contexts (a current working directory path).
    pub fs_contexts: Vec<Vec<u8>>,
    /// Next unused thread/process id.
    pub next_tid: u32,
    /// Next unused page-table root identity, handed out by the paging
    /// collaborator.
    pub next_pt_root: u64,
}

/// The first index of the thread with id `tid`, from position `i` on.
pub open spec fn tfind(s: Seq<Thread>, tid: u32, i: int) -> Option<int>
    decreases s.len() - i,
{
    if i < 0 || i >= s.len() {
        None
    } else if s[i].tid == tid {
        Some(i)
    } else {
        tfind(s, tid, i + 1)
    }
}

impl Kernel {
    /// Every index stored anywhere points into the table it indexes, and
    /// every address space is well formed.
    pub open spec fn wf(self) -> bool {
        &&& forall|i: int|
            0 <= i < self.threads@.len() ==> (#[trigger] self.threads@[i]).proc_idx
                < self.processes@.len()
        &&& forall|i: int|
            0 <= i < self.processes@.len() ==> (#[trigger] self.processes@[i]).aspace
                < self.aspaces@.len() && self.processes@[i].signal_actions
                < self.signal_tables@.len() && self.processes@[i].fd_table
                < self.fd_tables@.len() && self.processes@[i].fs_context
                < self.fs_contexts@.len() && (self.processes@[i].parent matches Some(p) ==> p
                < self.processes@.len()) && self.processes@[i].futex_table.wf()
        &&& forall|i: int|
            0 <= i < self.aspaces@.len() ==> (#[trigger] self.aspaces@[i]).wf()
    }

    /// Finds the first thread with id `tid` in the global thread table.
    pub fn find_thread(&self, tid: u32) -> (r: Option<usize>)
        ensures
            match r {
                Some(j) => j < self.threads@.len() && self.threads@[j as int].tid == tid
                    && tfind(self.threads@, tid, 0) == Some(j as int),
                None => tfind(self.threads@, tid, 0) is None,
            },
    {
        let mut i: usize = 0;
        while i < self.threads.len()
            invariant
                i <= self.threads@.len(),
                tfind(self.threads@, tid, 0) == tfind(self.threads@, tid, i as int),
            decreases self.threads@.len() - i,
        {
            if self.threads[i].tid == tid {
                return Some(i);
            }
            i = i + 1;
        }
        None
    }
}

/// Returns the current robust-list head registered for a thread: the
/// caller's own when `tid` is 0, else the head of the thread with that
/// id, together with the ABI-fixed size of the head structure.  An
/// unknown id fails with `ESRCH`.
pub fn sys_get_robust_list(k: &Kernel, caller_tidx: usize, tid: u32) -> (r: Result<
    (u64, usize),
    LinuxError,
>)
    requires
        caller_tidx < k.threads@.len(),
    ensures
        tid == 0 ==> r == Ok::<(u64, usize), LinuxError>(
            (k.threads@[caller_tidx as int].data.robust_list_head, ROBUST_LIST_HEAD_SIZE),
        ),
        tid != 0 ==> match tfind(k.threads@, tid, 0) {
            Some(j) => r == Ok::<(u64, usize), LinuxError>(
                (k.threads@[j].data.robust_list_head, ROBUST_LIST_HEAD_SIZE),
            ),
            None => r == Err::<(u64, usize), LinuxError>(LinuxError::ESRCH),
        },
{
    let j = if tid == 0 {
        caller_tidx
    } else {
        match k.find_thread(tid) {
            Some(j) => j,
            None => {
                return Err(LinuxError::ESRCH);
            },
        }
    };
    Ok((k.threads[j].data.robust_list_head, ROBUST_LIST_HEAD_SIZE))
}

/// Registers a robust-list head for the calling thread.  The supplied
/// structure size must be exactly the ABI-fixed head size, else `EINVAL`.
pub fn sys_set_robust_list(k: &mut Kernel, caller_tidx: usize, head: u64, size: usize) -> (r:
    Result<isize, LinuxError>)
    requires
        caller_tidx < old(k).threads@.len(),
    ensures
        size != ROBUST_LIST_HEAD_SIZE ==> r == Err::<isize, LinuxError>(LinuxError::EINVAL)
            && *final(k) == *old(k),
        size == ROBUST_LIST_HEAD_SIZE ==> r == Ok::<isize, LinuxError>(0) && final(k).threads@
            == old(k).threads@.update(
            caller_tidx as int,
            (Thread {
                data: ThreadData {
                    robust_list_head: head,
                    ..old(k).threads@[caller_tidx as int].data
                },
                ..old(k).threads@[caller_tidx as int]
            }),
        ) && final(k).processes@ == old(k).processes@ && final(k).aspaces@ == old(k).aspaces@
            && final(k).next_tid == old(k).next_tid,
{
    if size != ROBUST_LIST_HEAD_SIZE {
        return Err(LinuxError::EINVAL);
    }
    let t = &mut k.threads[caller_tidx];
    t.data.robust_list_head = head;
    Ok(0)
}

/// The flag set encoded in a raw clone word.
pub open spec fn flags_of(raw: u32) -> CloneFlags {
    CloneFlags {
        vm: raw & CLONE_VM != 0,
        fs: raw & CLONE_FS != 0,
        files: raw & CLONE_FILES != 0,
        sighand: raw & CLONE_SIGHAND != 0,
        parent: raw & CLONE_PARENT != 0,
        thread: raw & CLONE_THREAD != 0,
        settls: raw & CLONE_SETTLS != 0,
        parent_settid: raw & CLONE_PARENT_SETTID != 0,
        child_cleartid: raw & CLONE_CHILD_CLEARTID != 0,
        child_settid: raw & CLONE_CHILD_SETTID != 0,
    }
}

/// The context a clone child starts from: the caller's trap context with
/// the requested stack and thread-local storage substituted, and return
/// value 0 — the child observes the syscall returning zero.
pub open spec fn child_uctx(tf: TrapFrame, f: CloneFlags, stack: u64, tls: u64) -> UspaceContext {
    UspaceContext {
        ip: tf.ip,
        sp: if stack != 0 {
            stack
        } else {
            tf.sp
        },
        tls: if f.settls {
            tls
        } else {
            tf.tls
        },
        retval: 0,
    }
}

/// Whether a raw clone request is rejected outright: a non-zero exit
/// signal together with both "same thread group" and "same parent", or a
/// thread-group request without shared memory and shared signal handlers.
pub open spec fn clone_flags_invalid(raw: u32) -> bool {
    let f = flags_of(raw);
    let sig = raw & 0xFF;
    ||| (sig != 0 && f.thread && f.parent)
    ||| (f.thread && !(f.vm && f.sighand))
}

/// A byte-for-byte copy of a file descriptor table.
fn copy_words(src: &Vec<u64>) -> (v: Vec<u64>)
    ensures
        v@ == src@,
{
    let mut v: Vec<u64> = Vec::new();
    let mut i: usize = 0;
    while i < src.len()
        invariant
            i <= src@.len(),
            v@ == src@.subrange(0, i as int),
        decreases src@.len() - i,
    {
        v.push(src[i]);
        proof {
            assert(v@ =~= src@.subrange(0, i + 1));
        }
        i = i + 1;
    }
    proof {
        assert(v@ =~= src@);
    }
    v
}

/// `clone`: spawns a new thread or process from the calling thread, with
/// the flag set deciding what is shared and what is copied.
///
/// With "same thread group" the caller's process is reused and the new
/// thread runs on the existing address space's page-table root.
/// Otherwise a new process is created under the selected lineage parent
/// (the caller, or the caller's own parent): its address space is the
/// caller's shared handle or a fresh deep copy with the kernel region
/// re-applied; signal actions are shared or fresh; the umask and
/// executable path are copied by value; and the fd table and fs context
/// are each shared or deep-copied.  The new thread stands in the global
/// thread table before it becomes runnable, and its weak self-reference
/// is back-filled only after the scheduler accepts it.  Returns the new
/// thread's id.
pub fn sys_clone(
    k: &mut Kernel,
    caller_tidx: usize,
    tf: &TrapFrame,
    flags: u32,
    stack: u64,
    parent_tid_addr: u64,
    child_tid_addr: u64,
    tls: u64,
    mem: &mut UserMem,
) -> (r: Result<u32, LinuxError>)
    requires
        old(k).wf(),
        caller_tidx < old(k).threads@.len(),
        1 <= old(k).next_tid < u32::MAX,
        old(k).next_pt_root < u64::MAX,
    ensures
        final(k).wf(),
        ({
            let f = flags_of(flags);
            let sig = flags & 0xFF;
            let caller = old(k).threads@[caller_tidx as int];
            let cproc = old(k).processes@[caller.proc_idx as int];
            let tid = old(k).next_tid;
            let efault_child = f.child_settid && old(mem).word(child_tid_addr) is None;
            let efault_parent = f.parent_settid && old(mem).word(parent_tid_addr) is None;
            let no_parent = !f.thread && f.parent && cproc.parent is None;
            &&& clone_flags_invalid(flags) ==> r == Err::<u32, LinuxError>(LinuxError::EINVAL)
                && *final(k) == *old(k) && *final(mem) == *old(mem)
            &&& !clone_flags_invalid(flags) && (efault_child || efault_parent) ==> r == Err::<
                u32,
                LinuxError,
            >(LinuxError::EFAULT) && *final(k) == *old(k) && *final(mem) == *old(mem)
            &&& !clone_flags_invalid(flags) && !efault_child && !efault_parent && no_parent
                ==> r == Err::<u32, LinuxError>(LinuxError::EINVAL) && *final(k) == *old(k)
                && *final(mem) == *old(mem)
            &&& !clone_flags_invalid(flags) && !efault_child && !efault_parent && !no_parent
                ==> ({
                let new_thread = final(k).threads@.last();
                &&& r == Ok::<u32, LinuxError>(tid)
                &&& tid > 0
                &&& final(k).next_tid == tid + 1
                &&& final(k).threads@.len() == old(k).threads@.len() + 1
                &&& final(k).threads@.subrange(0, old(k).threads@.len() as int) == old(
                    k,
                ).threads@
                &&& new_thread.tid == tid
                &&& new_thread.runnable
                &&& new_thread.self_ref_init
                &&& new_thread.uctx == child_uctx(*tf, f, stack, tls)
                &&& new_thread.data.robust_list_head == 0
                &&& new_thread.data.futex_bitset == 0
                &&& new_thread.data.clear_child_tid == (if f.child_cleartid {
                    child_tid_addr
                } else {
                    0
                })
                &&& (f.parent_settid ==> final(mem).word(parent_tid_addr) == Some(tid))
                &&& (f.child_settid ==> final(mem).word(child_tid_addr) == Some(tid))
                &&& (forall|a: u64|
                    (!f.parent_settid || a != parent_tid_addr) && (!f.child_settid || a
                        != child_tid_addr) ==> #[trigger] final(mem).word(a) == old(mem).word(
                        a,
                    ))
                &&& f.thread ==> new_thread.proc_idx == caller.proc_idx
                    && new_thread.page_table_root == old(k).aspaces@[cproc.aspace as int].pt_root
                    && final(k).processes@ == old(k).processes@
                    && final(k).aspaces@ == old(k).aspaces@
                    && final(k).signal_tables@ == old(k).signal_tables@
                    && final(k).fd_tables@ == old(k).fd_tables@
                    && final(k).fs_contexts@ == old(k).fs_contexts@
                &&& !f.thread ==> ({
                    let parent_idx = if f.parent {
                        cproc.parent.unwrap() as int
                    } else {
                        caller.proc_idx as int
                    };
                    let np = final(k).processes@.last();
                    &&& new_thread.proc_idx == old(k).processes@.len()
                    &&& final(k).processes@.len() == old(k).processes@.len() + 1
                    &&& final(k).processes@[parent_idx].children@ == old(
                        k,
                    ).processes@[parent_idx].children@.push(tid)
                    &&& (forall|i: int|
                        0 <= i < old(k).processes@.len() && i != parent_idx
                            ==> #[trigger] final(k).processes@[i] == old(k).processes@[i])
                    &&& np.pid == tid
                    &&& np.parent == Some(parent_idx as usize)
                    &&& np.children@.len() == 0
                    &&& np.umask == cproc.umask
                    &&& np.exe_path@ == cproc.exe_path@
                    &&& np.exit_signal == (if 1 <= sig <= 64 {
                        sig
                    } else {
                        0
                    })
                    &&& (forall|key: crate::futex::FutexKey| !(#[trigger] np.futex_table.has(key)))
                    &&& np.aspace == (if f.vm {
                        cproc.aspace as int
                    } else {
                        old(k).aspaces@.len() as int
                    })
                    &&& f.vm ==> final(k).aspaces@ == old(k).aspaces@
                    &&& !f.vm ==> final(k).aspaces@.len() == old(k).aspaces@.len() + 1
                        && final(k).aspaces@.subrange(0, old(k).aspaces@.len() as int) == old(
                        k,
                    ).aspaces@ && ({
                        let na = final(k).aspaces@.last();
                        &&& na.pt_root == old(k).next_pt_root
                        &&& na.kernel_mapped
                        &&& forall|b: int| #[trigger]
                            na.byte_at(b) == old(k).aspaces@[cproc.aspace as int].byte_at(b)
                    })
                    &&& np.signal_actions == (if f.sighand {
                        old(k).processes@[parent_idx].signal_actions as int
                    } else {
                        old(k).signal_tables@.len() as int
                    })
                    &&& (!f.sighand ==> final(k).signal_tables@.len() == old(
                        k,
                    ).signal_tables@.len() + 1 && final(k).signal_tables@.last()@.len() == 0)
                    &&& (f.sighand ==> final(k).signal_tables@ == old(k).signal_tables@)
                    &&& final(k).signal_tables@.subrange(
                        0,
                        old(k).signal_tables@.len() as int,
                    ) == old(k).signal_tables@
                    &&& final(k).fd_tables@.subrange(0, old(k).fd_tables@.len() as int) == old(
                        k,
                    ).fd_tables@
                    &&& final(k).fs_contexts@.subrange(0, old(k).fs_contexts@.len() as int)
                        == old(k).fs_contexts@
                    &&& np.fd_table == (if f.files {
                        cproc.fd_table as int
                    } else {
                        old(k).fd_tables@.len() as int
                    })
                    &&& (!f.files ==> final(k).fd_tables@.len() == old(k).fd_tables@.len() + 1
                        && final(k).fd_tables@.last()@ == old(
                        k,
                    ).fd_tables@[cproc.fd_table as int]@)
                    &&& (f.files ==> final(k).fd_tables@ == old(k).fd_tables@)
                    &&& np.fs_context == (if f.fs {
                        cproc.fs_context as int
                    } else {
                        old(k).fs_contexts@.len() as int
                    })
                    &&& (!f.fs ==> final(k).fs_contexts@.len() == old(k).fs_contexts@.len() + 1
                        && final(k).fs_contexts@.last()@ == old(
                        k,
                    ).fs_contexts@[cproc.fs_context as int]@)
                    &&& (f.fs ==> final(k).fs_contexts@ == old(k).fs_contexts@)
                    &&& new_thread.page_table_root == final(k).aspaces@[np.aspace as int].pt_root
                })
            })
        }),
{
    let sig = flags & 0xFF;
    // the clone flag bits all lie above the exit-signal byte
    let f = CloneFlags::from_bits(flags);
    if sig != 0 && f.thread && f.parent {
        return Err(LinuxError::EINVAL);
    }
    if f.thread && !(f.vm && f.sighand) {
        return Err(LinuxError::EINVAL);
    }
    let exit_signal: u32 = if 1 <= sig && sig <= 64 {
        sig
    } else {
        0
    };
    if f.child_settid {
        if mem.read_word(child_tid_addr).is_none() {
            return Err(LinuxError::EFAULT);
        }
    }
    if f.parent_settid {
        if mem.read_word(parent_tid_addr).is_none() {
            return Err(LinuxError::EFAULT);
        }
    }
    let caller_proc = k.threads[caller_tidx].proc_idx;
    if !f.thread && f.parent && k.processes[caller_proc].parent.is_none() {
        return Err(LinuxError::EINVAL);
    }

    let tid = k.next_tid;
    k.next_tid = tid + 1;
    if f.parent_settid {
        let _ = mem.write_word(parent_tid_addr, tid);
    }
    if f.child_settid {
        let _ = mem.write_word(child_tid_addr, tid);
    }
    let uctx = UspaceContext {
        ip: tf.ip,
        sp: if stack != 0 {
            stack
        } else {
            tf.sp
        },
        tls: if f.settls {
            tls
        } else {
            tf.tls
        },
        retval: 0,
    };

    let (proc_idx, ptroot): (usize, u64) = if f.thread {
        let root = k.aspaces[k.processes[caller_proc].aspace].pt_root;
        (caller_proc, root)
    } else {
        let parent_idx = if f.parent {
            match k.processes[caller_proc].parent {
                Some(p) => p,
                None => {
                    return Err(LinuxError::EINVAL);
                },
            }
        } else {
            caller_proc
        };
        let aspace_idx = if f.vm {
            k.processes[caller_proc].aspace
        } else {
            let root = k.next_pt_root;
            k.next_pt_root = root + 1;
            let ca = k.processes[caller_proc].aspace;
            let mut na = k.aspaces[ca].clone_for_fork(root);
            let ghost gna0 = na;
            let _ = crate::mm::copy_from_kernel(&mut na);
            let ghost gna1 = na;
            let idx = k.aspaces.len();
            k.aspaces.push(na);
            proof {
                assert forall|b: int| #[trigger] k.aspaces@.last().byte_at(b) == old(
                    k,
                ).aspaces@[ca as int].byte_at(b) by {
                    assert(k.aspaces@.last() == gna1);
                    assert(crate::mm::byte_lookup(gna1.areas@, b, 0) == crate::mm::byte_lookup(
                        gna0.areas@,
                        b,
                        0,
                    ));
                    assert(gna0.byte_at(b) == old(k).aspaces@[ca as int].byte_at(b));
                }
            }
            idx
        };
        let signal_idx = if f.sighand {
            k.processes[parent_idx].signal_actions
        } else {
            let idx = k.signal_tables.len();
            k.signal_tables.push(Vec::new());
            idx
        };
        let fd_idx = if f.files {
            k.processes[caller_proc].fd_table
        } else {
            let idx = k.fd_tables.len();
            let copy = copy_words(&k.fd_tables[k.processes[caller_proc].fd_table]);
            k.fd_tables.push(copy);
            idx
        };
        let fs_idx = if f.fs {
            k.processes[caller_proc].fs_context
        } else {
            let idx = k.fs_contexts.len();
            let copy = crate::mm::copy_bytes(&k.fs_contexts[k.processes[caller_proc].fs_context]);
            k.fs_contexts.push(copy);
            idx
        };
        let exe = crate::mm::copy_bytes(&k.processes[caller_proc].exe_path);
        let umask = k.processes[caller_proc].umask;
        let new_pidx = k.processes.len();
        // register the prospective child with the lineage parent, inside
        // the same critical section that creates the process record
        let pref = &mut k.processes[parent_idx];
        pref.children.push(tid);
        k.processes.push(
            Process {
                pid: tid,
                parent: Some(parent_idx),
                children: Vec::new(),
                aspace: aspace_idx,
                signal_actions: signal_idx,
                umask,
                exe_path: exe,
                exit_signal,
                fd_table: fd_idx,
                fs_context: fs_idx,
                futex_table: FutexTable::new(),
            },
        );
        let root = k.aspaces[aspace_idx].pt_root;
        (new_pidx, root)
    };

    let tdata = ThreadData {
        robust_list_head: 0,
        clear_child_tid: if f.child_cleartid {
            child_tid_addr
        } else {
            0
        },
        futex_bitset: 0,
    };
    // the thread stands in the global table before it can run
    k.threads.push(
        Thread {
            tid,
            proc_idx,
            runnable: false,
            self_ref_init: false,
            uctx,
            page_table_root: ptroot,
            data: tdata,
        },
    );
    // hand the task to the scheduler, then back-fill the weak
    // self-reference once a stable handle exists
    let ti = k.threads.len() - 1;
    let tr = &mut k.threads[ti];
    tr.runnable = true;
    tr.self_ref_init = true;
    proof {
        assert(k.threads@.subrange(0, old(k).threads@.len() as int) =~= old(k).threads@);
        if !f.thread && !f.vm {
            assert(k.aspaces@.subrange(0, old(k).aspaces@.len() as int) =~= old(k).aspaces@);
        }
        if !f.thread {
            assert(k.signal_tables@.subrange(0, old(k).signal_tables@.len() as int) =~= old(
                k,
            ).signal_tables@);
            assert(k.fd_tables@.subrange(0, old(k).fd_tables@.len() as int) =~= old(
                k,
            ).fd_tables@);
            assert(k.fs_contexts@.subrange(0, old(k).fs_contexts@.len() as int) =~= old(
                k,
            ).fs_contexts@);
        }
        if !f.thread {
            let caller = old(k).threads@[caller_tidx as int];
            let cproc = old(k).processes@[caller.proc_idx as int];
            let parent_idx_s: int = if f.parent {
                cproc.parent.unwrap() as int
            } else {
                caller.proc_idx as int
            };
            let np = k.processes@.last();
            assert(k.processes@[parent_idx_s].children@ == old(
                k,
            ).processes@[parent_idx_s].children@.push(tid));
            assert(forall|i: int|
                0 <= i < old(k).processes@.len() && i != parent_idx_s ==> #[trigger] k.processes@[i]
                    == old(k).processes@[i]);
            assert(np.pid == tid);
            assert(np.parent == Some(parent_idx_s as usize));
            assert(np.umask == cproc.umask);
            assert(np.exe_path@ == cproc.exe_path@);
            assert(forall|key: crate::futex::FutexKey| !(#[trigger] np.futex_table.has(key)));
            assert(np.aspace == (if f.vm {
                cproc.aspace as int
            } else {
                old(k).aspaces@.len() as int
            }));
            assert(np.signal_actions == (if f.sighand {
                old(k).processes@[parent_idx_s].signal_actions as int
            } else {
                old(k).signal_tables@.len() as int
            }));
            assert(np.fd_table == (if f.files {
                cproc.fd_table as int
            } else {
                old(k).fd_tables@.len() as int
            }));
            assert(np.fs_context == (if f.fs {
                cproc.fs_context as int
            } else {
                old(k).fs_contexts@.len() as int
            }));
            assert(k.threads@.last().page_table_root == k.aspaces@[np.aspace as int].pt_root);
            assert(np.children@.len() == 0);
            assert(np.exit_signal == (if 1 <= (flags & 0xFF) <= 64 {
                (flags & 0xFF)
            } else {
                0
            }));
            assert(k.threads@.last().proc_idx == old(k).processes@.len());
            assert(k.processes@.len() == old(k).processes@.len() + 1);
            if !f.vm {
                assert(k.aspaces@.last().pt_root == old(k).next_pt_root);
                assert(k.aspaces@.last().kernel_mapped);
                assert(forall|b: int| #[trigger]
                    k.aspaces@.last().byte_at(b) == old(
                        k,
                    ).aspaces@[cproc.aspace as int].byte_at(b));
            }
            if !f.sighand {
                assert(k.signal_tables@.len() == old(k).signal_tables@.len() + 1);
                assert(k.signal_tables@.last()@.len() == 0);
            }
            if !f.files {
                assert(k.fd_tables@.len() == old(k).fd_tables@.len() + 1);
                assert(k.fd_tables@.last()@ == old(k).fd_tables@[cproc.fd_table as int]@);
            }
            if !f.fs {
                assert(k.fs_contexts@.len() == old(k).fs_contexts@.len() + 1);
                assert(k.fs_contexts@.last()@ == old(k).fs_contexts@[cproc.fs_context as int]@);
            }
        }
    }
    Ok(tid)
}

/// `fork`: a clone that shares nothing, asking only for the
/// child-exited signal to be delivered to the parent.
pub fn sys_fork(k: &mut Kernel, caller_tidx: usize, tf: &TrapFrame, mem: &mut UserMem) -> (r:
    Result<u32, LinuxError>)
    requires
        old(k).wf(),
        caller_tidx < old(k).threads@.len(),
        1 <= old(k).next_tid < u32::MAX,
        old(k).next_pt_root < u64::MAX,
    ensures
        final(k).wf(),
        r == Ok::<u32, LinuxError>(old(k).next_tid),
        final(k).processes@.len() == old(k).processes@.len() + 1,
        final(k).threads@.len() == old(k).threads@.len() + 1,
        ({
            let np = final(k).processes@.last();
            &&& np.exit_signal == SIGCHLD
            &&& np.aspace == old(k).aspaces@.len()
            &&& final(k).aspaces@.len() == old(k).aspaces@.len() + 1
        }),
        forall|a: u64| #[trigger] final(mem).word(a) == old(mem).word(a),
{
    proof {
        assert((17u32 & 0x100u32) == 0 && (17u32 & 0x200u32) == 0 && (17u32 & 0x400u32) == 0
            && (17u32 & 0x800u32) == 0 && (17u32 & 0x8000u32) == 0 && (17u32 & 0x10000u32) == 0
            && (17u32 & 0x80000u32) == 0 && (17u32 & 0x100000u32) == 0 && (17u32 & 0x200000u32)
            == 0 && (17u32 & 0x1000000u32) == 0 && (17u32 & 0xFFu32) == 17) by (bit_vector);
    }
    sys_clone(k, caller_tidx, tf, SIGCHLD, 0, 0, 0, 0, mem)
}

/// Writes one byte of user memory through a given address space; every
/// other address space — in particular a forked parent's — is untouched.
pub fn write_user_byte(k: &mut Kernel, aspace_idx: usize, addr: usize, b: u8) -> (r: Result<
    (),
    LinuxError,
>)
    requires
        old(k).wf(),
        aspace_idx < old(k).aspaces@.len(),
    ensures
        final(k).wf(),
        final(k).processes@ == old(k).processes@,
        final(k).threads@ == old(k).threads@,
        final(k).aspaces@.len() == old(k).aspaces@.len(),
        forall|j: int|
            0 <= j < old(k).aspaces@.len() && j != aspace_idx ==> #[trigger] final(k).aspaces@[j]
                == old(k).aspaces@[j],
        old(k).aspaces@[aspace_idx as int].byte_at(addr as int) is None ==> r == Err::<
            (),
            LinuxError,
        >(LinuxError::EFAULT) && final(k).aspaces@[aspace_idx as int].byte_at(addr as int) == old(
            k,
        ).aspaces@[aspace_idx as int].byte_at(addr as int),
        old(k).aspaces@[aspace_idx as int].byte_at(addr as int) is Some ==> r == Ok::<
            (),
            LinuxError,
        >(()) && final(k).aspaces@[aspace_idx as int].byte_at(addr as int) == Some(b) && (forall|
            a: int,
        |
            a != addr ==> #[trigger] final(k).aspaces@[aspace_idx as int].byte_at(a) == old(
                k,
            ).aspaces@[aspace_idx as int].byte_at(a)),
{
    let aref = &mut k.aspaces[aspace_idx];
    let r = aref.write_byte(addr, b);
    r
}

/// Law: a process created by clone without shared memory holds an
/// address-space index distinct from every pre-existing process's, so a
/// later write through the child's space — which touches only that
/// space — stays invisible when the same address is read through the
/// parent's.
pub proof fn lemma_fork_aspace_distinct(k0: Kernel, k1: Kernel, i: int)
    requires
        k0.wf(),
        0 <= i < k0.processes@.len(),
        k1.processes@.last().aspace == k0.aspaces@.len(),
        k1.processes@[i] == k0.processes@[i],
    ensures
        k1.processes@.last().aspace != k1.processes@[i].aspace,
{
}

} // verus!
