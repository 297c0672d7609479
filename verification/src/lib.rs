//! Process/thread lifecycle and userspace-synchronization core of a
//! Linux-ABI-compatible kernel personality.
//!
//! The crate models the state this core owns — futex tables, wait queues,
//! robust lists, processes, threads and user address spaces — as explicit
//! values, and verifies the decisions the kernel makes over them: futex
//! wait/wake/requeue with bitset filtering and owner-death signaling,
//! robust-list walking on thread exit, clone/fork sharing decisions, and
//! ELF image loading with initial stack layout.  The collaborators the core
//! relies on (scheduler, page tables, filesystem) are out of scope and enter
//! only through the state handed to these functions.

pub mod errno;
pub mod time;
pub mod usermem;
pub mod futex;
pub mod robust;
pub mod mm;
pub mod task;
pub mod loader;
