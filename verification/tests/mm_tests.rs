use starry_core::errno::LinuxError;
use starry_core::mm::{
    access_user_memory, copy_from_kernel, is_accessing_user_memory, map_trampoline,
    new_user_aspace_empty, MapFlags, UserAccessState, PAGE_SIZE_4K, SIGNAL_TRAMPOLINE,
    USER_SPACE_BASE, USER_SPACE_SIZE,
};
use starry_core::time::{TimeSpec, TimeValue};

fn rw() -> MapFlags {
    MapFlags { read: true, write: true, execute: false, user: true }
}

#[test]
fn empty_aspace_has_no_mappings() {
    let a = new_user_aspace_empty(5);
    assert_eq!(a.base, USER_SPACE_BASE);
    assert_eq!(a.size, USER_SPACE_SIZE);
    assert_eq!(a.pt_root, 5);
    assert!(!a.kernel_mapped);
    assert_eq!(a.read_byte(0x10000), None);
}

#[test]
fn map_alloc_zero_fills_and_rejects_overlap() {
    let mut a = new_user_aspace_empty(5);
    a.map_alloc(0x10000, 0x2000, rw()).unwrap();
    assert_eq!(a.read_byte(0x10000), Some(0));
    assert_eq!(a.read_byte(0x11FFF), Some(0));
    assert_eq!(a.read_byte(0x12000), None);
    // overlapping mapping is refused
    assert_eq!(a.map_alloc(0x11000, 0x1000, rw()), Err(LinuxError::EEXIST));
    // a range outside the user window is invalid
    assert_eq!(a.map_alloc(0, 0x1000, rw()), Err(LinuxError::EINVAL));
    assert_eq!(a.map_alloc(0x10000, 0, rw()), Err(LinuxError::EINVAL));
}

#[test]
fn write_byte_faults_on_unmapped_memory() {
    let mut a = new_user_aspace_empty(5);
    a.map_alloc(0x10000, 0x1000, rw()).unwrap();
    assert_eq!(a.write_byte(0x10004, 0x5A), Ok(()));
    assert_eq!(a.read_byte(0x10004), Some(0x5A));
    assert_eq!(a.read_byte(0x10005), Some(0));
    assert_eq!(a.write_byte(0x20000, 1), Err(LinuxError::EFAULT));
}

#[test]
fn fork_copy_is_independent() {
    let mut a = new_user_aspace_empty(5);
    a.map_alloc(0x10000, 0x1000, rw()).unwrap();
    a.write_byte(0x10000, 0x11).unwrap();
    let mut c = a.clone_for_fork(6);
    assert_eq!(c.pt_root, 6);
    assert_eq!(c.read_byte(0x10000), Some(0x11));
    c.write_byte(0x10000, 0x22).unwrap();
    assert_eq!(c.read_byte(0x10000), Some(0x22));
    assert_eq!(a.read_byte(0x10000), Some(0x11));
}

#[test]
fn kernel_region_copy_marks_the_space() {
    let mut a = new_user_aspace_empty(5);
    assert_eq!(copy_from_kernel(&mut a), Ok(()));
    assert!(a.kernel_mapped);
}

#[test]
fn trampoline_is_one_read_execute_page() {
    let mut a = new_user_aspace_empty(5);
    assert_eq!(map_trampoline(&mut a), Ok(()));
    let t = a.areas.last().unwrap();
    assert_eq!(t.start, SIGNAL_TRAMPOLINE);
    assert_eq!(t.size, PAGE_SIZE_4K);
    assert!(t.flags.read && t.flags.execute && !t.flags.write && t.flags.user);
    // mapping it twice fails: the page is already there
    assert_eq!(map_trampoline(&mut a), Err(LinuxError::EEXIST));
}

#[test]
fn user_memory_access_window_is_scoped() {
    let mut s = UserAccessState::new();
    assert!(!is_accessing_user_memory(&s));
    let r = access_user_memory(&mut s, || 41 + 1);
    assert_eq!(r, 42);
    // the marker is restored on exit
    assert!(!is_accessing_user_memory(&s));
}

#[test]
fn timespec_validation_matches_the_abi() {
    assert_eq!(
        TimeSpec { tv_sec: 1, tv_nsec: 500 }.try_into_time_value(),
        Ok(TimeValue { secs: 1, nanos: 500 })
    );
    assert_eq!(
        TimeSpec { tv_sec: -1, tv_nsec: 0 }.try_into_time_value(),
        Err(LinuxError::EINVAL)
    );
    assert_eq!(
        TimeSpec { tv_sec: 0, tv_nsec: -1 }.try_into_time_value(),
        Err(LinuxError::EINVAL)
    );
    assert_eq!(
        TimeSpec { tv_sec: 0, tv_nsec: 1_000_000_000 }.try_into_time_value(),
        Err(LinuxError::EINVAL)
    );
    let ts = TimeSpec::from_time_value(TimeValue { secs: 3, nanos: 9 });
    assert_eq!(ts, TimeSpec { tv_sec: 3, tv_nsec: 9 });
}
