use starry_core::errno::LinuxError;
use starry_core::futex::FutexTable;
use starry_core::mm::new_user_aspace_empty;
use starry_core::robust::ROBUST_LIST_HEAD_SIZE;
use starry_core::task::{
    sys_clone, sys_fork, sys_get_robust_list, sys_set_robust_list, write_user_byte, Kernel,
    Process, Thread, ThreadData, TrapFrame, UspaceContext, CLONE_CHILD_CLEARTID,
    CLONE_CHILD_SETTID, CLONE_FILES, CLONE_PARENT, CLONE_PARENT_SETTID, CLONE_SETTLS,
    CLONE_SIGHAND, CLONE_THREAD, CLONE_VM, SIGCHLD,
};
use starry_core::usermem::UserMem;

fn fixture() -> Kernel {
    let mut aspace = new_user_aspace_empty(77);
    aspace
        .map_alloc(
            0x3000_0000,
            0x1000,
            starry_core::mm::MapFlags { read: true, write: true, execute: false, user: true },
        )
        .unwrap();
    Kernel {
        processes: vec![Process {
            pid: 1,
            parent: None,
            children: Vec::new(),
            aspace: 0,
            signal_actions: 0,
            umask: 0o022,
            exe_path: b"/init".to_vec(),
            exit_signal: 0,
            fd_table: 0,
            fs_context: 0,
            futex_table: FutexTable::new(),
        }],
        threads: vec![Thread {
            tid: 1,
            proc_idx: 0,
            runnable: true,
            self_ref_init: true,
            uctx: UspaceContext { ip: 0x4000, sp: 0x7000, tls: 0, retval: 0 },
            page_table_root: 77,
            data: ThreadData { robust_list_head: 0, clear_child_tid: 0, futex_bitset: 0 },
        }],
        aspaces: vec![aspace],
        signal_tables: vec![vec![0; 64]],
        fd_tables: vec![vec![100, 101, 102]],
        fs_contexts: vec![b"/".to_vec()],
        next_tid: 2,
        next_pt_root: 78,
    }
}

fn tf() -> TrapFrame {
    TrapFrame { ip: 0x4000, sp: 0x7000, tls: 0x9000 }
}

#[test]
fn clone_thread_without_vm_is_einval() {
    let mut k = fixture();
    let mut mem = UserMem::new();
    let r = sys_clone(&mut k, 0, &tf(), CLONE_THREAD | CLONE_SIGHAND, 0, 0, 0, 0, &mut mem);
    assert_eq!(r, Err(LinuxError::EINVAL));
    let r = sys_clone(&mut k, 0, &tf(), CLONE_THREAD | CLONE_VM, 0, 0, 0, 0, &mut mem);
    assert_eq!(r, Err(LinuxError::EINVAL));
}

#[test]
fn clone_thread_and_parent_with_exit_signal_is_einval() {
    let mut k = fixture();
    let mut mem = UserMem::new();
    let flags = CLONE_THREAD | CLONE_VM | CLONE_SIGHAND | CLONE_PARENT | SIGCHLD;
    let r = sys_clone(&mut k, 0, &tf(), flags, 0, 0, 0, 0, &mut mem);
    assert_eq!(r, Err(LinuxError::EINVAL));
}

#[test]
fn clone_thread_reuses_the_process() {
    let mut k = fixture();
    let mut mem = UserMem::new();
    let flags = CLONE_THREAD | CLONE_VM | CLONE_SIGHAND;
    let r = sys_clone(&mut k, 0, &tf(), flags, 0x7100, 0, 0, 0, &mut mem);
    assert_eq!(r, Ok(2));
    assert_eq!(k.processes.len(), 1);
    assert_eq!(k.threads.len(), 2);
    let t = &k.threads[1];
    assert_eq!(t.proc_idx, 0);
    assert_eq!(t.page_table_root, 77);
    assert_eq!(t.uctx.sp, 0x7100);
    assert_eq!(t.uctx.retval, 0);
    assert!(t.runnable && t.self_ref_init);
}

#[test]
fn fork_copies_the_address_space() {
    let mut k = fixture();
    let mut mem = UserMem::new();
    let r = sys_fork(&mut k, 0, &tf(), &mut mem);
    assert_eq!(r, Ok(2));
    assert_eq!(k.processes.len(), 2);
    let child = &k.processes[1];
    assert_eq!(child.pid, 2);
    assert_eq!(child.parent, Some(0));
    assert_eq!(child.exit_signal, SIGCHLD);
    assert_eq!(child.umask, 0o022);
    assert_eq!(child.exe_path, b"/init".to_vec());
    // the parent registered the prospective child
    assert_eq!(k.processes[0].children, vec![2]);
    // a fresh address space, kernel region re-applied
    assert_ne!(child.aspace, k.processes[0].aspace);
    assert_eq!(k.aspaces.len(), 2);
    assert!(k.aspaces[child.aspace].kernel_mapped);
    // fd table and fs context were deep-copied
    assert_ne!(child.fd_table, k.processes[0].fd_table);
    assert_eq!(k.fd_tables[child.fd_table], k.fd_tables[0]);
    assert_ne!(child.fs_context, k.processes[0].fs_context);
    // signal actions default to an independent empty table
    assert_ne!(child.signal_actions, k.processes[0].signal_actions);
    assert_eq!(k.signal_tables[child.signal_actions].len(), 0);
}

#[test]
fn fork_child_writes_stay_invisible_to_the_parent() {
    let mut k = fixture();
    let mut mem = UserMem::new();
    sys_fork(&mut k, 0, &tf(), &mut mem).unwrap();
    let parent_aspace = k.processes[0].aspace;
    let child_aspace = k.processes[1].aspace;
    assert_ne!(parent_aspace, child_aspace);
    let addr = 0x3000_0010;
    let before = k.aspaces[parent_aspace].read_byte(addr);
    assert_eq!(before, Some(0));
    // write a heap byte through the child's address space
    write_user_byte(&mut k, child_aspace, addr, 0xAB).unwrap();
    assert_eq!(k.aspaces[child_aspace].read_byte(addr), Some(0xAB));
    // the same address read through the parent's space is unchanged
    assert_eq!(k.aspaces[parent_aspace].read_byte(addr), Some(0));
}

#[test]
fn clone_vm_shares_the_address_space() {
    let mut k = fixture();
    let mut mem = UserMem::new();
    let r = sys_clone(&mut k, 0, &tf(), CLONE_VM, 0, 0, 0, 0, &mut mem);
    assert_eq!(r, Ok(2));
    assert_eq!(k.processes[1].aspace, k.processes[0].aspace);
    assert_eq!(k.aspaces.len(), 1);
    // a write through the shared space is visible to both
    let addr = 0x3000_0010;
    let shared = k.processes[1].aspace;
    write_user_byte(&mut k, shared, addr, 0xCD).unwrap();
    assert_eq!(k.aspaces[k.processes[0].aspace].read_byte(addr), Some(0xCD));
}

#[test]
fn clone_files_shares_the_fd_table() {
    let mut k = fixture();
    let mut mem = UserMem::new();
    let r = sys_clone(&mut k, 0, &tf(), CLONE_FILES, 0, 0, 0, 0, &mut mem);
    assert_eq!(r, Ok(2));
    assert_eq!(k.processes[1].fd_table, k.processes[0].fd_table);
}

#[test]
fn clone_settid_pointers_receive_the_child_id() {
    let mut k = fixture();
    let mut mem = UserMem::new();
    mem.set_word(0x500, 0);
    mem.set_word(0x600, 0);
    let flags = CLONE_PARENT_SETTID | CLONE_CHILD_SETTID | CLONE_CHILD_CLEARTID | CLONE_SETTLS;
    let r = sys_clone(&mut k, 0, &tf(), flags, 0, 0x500, 0x600, 0xAA, &mut mem);
    assert_eq!(r, Ok(2));
    assert_eq!(mem.read_word(0x500), Some(2));
    assert_eq!(mem.read_word(0x600), Some(2));
    let t = &k.threads[1];
    assert_eq!(t.data.clear_child_tid, 0x600);
    assert_eq!(t.uctx.tls, 0xAA);
}

#[test]
fn clone_settid_unmapped_pointer_faults() {
    let mut k = fixture();
    let mut mem = UserMem::new();
    let r = sys_clone(&mut k, 0, &tf(), CLONE_CHILD_SETTID, 0, 0, 0x600, 0, &mut mem);
    assert_eq!(r, Err(LinuxError::EFAULT));
    assert_eq!(k.threads.len(), 1);
}

#[test]
fn clone_parent_without_grandparent_is_einval() {
    let mut k = fixture();
    let mut mem = UserMem::new();
    let r = sys_clone(&mut k, 0, &tf(), CLONE_PARENT, 0, 0, 0, 0, &mut mem);
    assert_eq!(r, Err(LinuxError::EINVAL));
}

#[test]
fn robust_list_registration_roundtrip() {
    let mut k = fixture();
    assert_eq!(
        sys_set_robust_list(&mut k, 0, 0xBEE0, ROBUST_LIST_HEAD_SIZE - 1),
        Err(LinuxError::EINVAL)
    );
    assert_eq!(sys_set_robust_list(&mut k, 0, 0xBEE0, ROBUST_LIST_HEAD_SIZE), Ok(0));
    assert_eq!(sys_get_robust_list(&k, 0, 0), Ok((0xBEE0, ROBUST_LIST_HEAD_SIZE)));
    assert_eq!(sys_get_robust_list(&k, 0, 1), Ok((0xBEE0, ROBUST_LIST_HEAD_SIZE)));
    assert_eq!(sys_get_robust_list(&k, 0, 99), Err(LinuxError::ESRCH));
}
