use starry_core::errno::LinuxError;
use starry_core::loader::{
    app_stack_region, build_aux_vector, expand_shebang, load_user_app, parse_elf, read_u16,
    read_u32, read_u64, resolve_load_path, resolve_script_chain, FsModel, PathResolution,
    AT_BASE, AT_ENTRY, AT_PAGESZ, SCRIPT_RECURSION_LIMIT,
};
use starry_core::mm::{
    new_user_aspace_empty, USER_HEAP_BASE, USER_HEAP_SIZE, USER_SPACE_BASE, USER_STACK_SIZE,
    USER_STACK_TOP,
};

fn put_u16(v: &mut Vec<u8>, off: usize, x: u16) {
    let b = x.to_le_bytes();
    v[off..off + 2].copy_from_slice(&b);
}

fn put_u32(v: &mut Vec<u8>, off: usize, x: u32) {
    let b = x.to_le_bytes();
    v[off..off + 4].copy_from_slice(&b);
}

fn put_u64(v: &mut Vec<u8>, off: usize, x: u64) {
    let b = x.to_le_bytes();
    v[off..off + 8].copy_from_slice(&b);
}

/// A minimal one-segment 64-bit little-endian executable image.
fn tiny_elf(e_type: u16, entry: u64, vaddr: u64) -> Vec<u8> {
    let mut v = vec![0u8; 120];
    v[0] = 0x7f;
    v[1] = 0x45;
    v[2] = 0x4c;
    v[3] = 0x46;
    v[4] = 2; // 64-bit
    v[5] = 1; // little-endian
    put_u16(&mut v, 16, e_type);
    put_u64(&mut v, 24, entry);
    put_u64(&mut v, 32, 64); // program headers right after the header
    put_u16(&mut v, 54, 56); // phentsize
    put_u16(&mut v, 56, 1); // one header
    // PT_LOAD, readable and executable
    put_u32(&mut v, 64, 1);
    put_u32(&mut v, 68, 5);
    put_u64(&mut v, 72, 0); // offset
    put_u64(&mut v, 80, vaddr);
    put_u64(&mut v, 96, 120); // filesz
    put_u64(&mut v, 104, 0x1000); // memsz
    v
}

#[test]
fn byte_readers_decode_little_endian() {
    let data = vec![0x01, 0x02, 0x03, 0x04, 0x05, 0x06, 0x07, 0x08];
    assert_eq!(read_u16(&data, 0), 0x0201);
    assert_eq!(read_u32(&data, 0), 0x0403_0201);
    assert_eq!(read_u64(&data, 0), 0x0807_0605_0403_0201);
    assert_eq!(read_u16(&data, 6), 0x0807);
}

#[test]
fn parse_elf_reads_entry_and_segment() {
    let data = tiny_elf(2, 0x10040, 0x10000);
    let img = parse_elf(&data, USER_SPACE_BASE).unwrap();
    assert_eq!(img.entry, 0x10040);
    assert!(img.interp.is_none());
    assert_eq!(img.segments.len(), 1);
    let seg = img.segments[0];
    assert_eq!(seg.vaddr, 0x10000);
    assert_eq!(seg.offset, 0);
    assert_eq!(seg.filesz, 120);
    assert_eq!(seg.memsz, 0x1000);
    assert!(seg.flags.read && seg.flags.execute && !seg.flags.write && seg.flags.user);
}

#[test]
fn parse_elf_applies_the_bias_to_shared_objects() {
    // a position-independent image is shifted to the requested base
    let data = tiny_elf(3, 0x40, 0x0);
    let img = parse_elf(&data, 0x40000).unwrap();
    assert_eq!(img.entry, 0x40000 + 0x40);
    assert_eq!(img.segments[0].vaddr, 0x40000);
}

#[test]
fn parse_elf_rejects_non_elf() {
    assert_eq!(parse_elf(&vec![0u8; 10], 0), Err(LinuxError::ENOEXEC));
    let mut data = tiny_elf(2, 0x10040, 0x10000);
    data[0] = 0x23;
    assert_eq!(parse_elf(&data, 0), Err(LinuxError::ENOEXEC));
}

#[test]
fn parse_elf_rejects_misaligned_segment() {
    let mut data = tiny_elf(2, 0x10040, 0x10000);
    // virtual address no longer agrees with the file offset modulo 4K
    put_u64(&mut data, 80, 0x10008);
    assert_eq!(parse_elf(&data, 0), Err(LinuxError::ENOEXEC));
}

#[test]
fn shebang_expansion_prepends_the_interpreter() {
    let data = b"#!/bin/sh\necho hi".to_vec();
    let args = vec![b"/app".to_vec()];
    let v = expand_shebang(&data, &args).unwrap();
    assert_eq!(v.len(), 2);
    assert_eq!(v[0], b"/bin/sh".to_vec());
    assert_eq!(v[1], b"/app".to_vec());
}

#[test]
fn shebang_expansion_splits_one_argument() {
    let data = b"#! /usr/bin/env  python \nrest".to_vec();
    let args = vec![b"x".to_vec(), b"y".to_vec()];
    let v = expand_shebang(&data, &args).unwrap();
    assert_eq!(v.len(), 4);
    assert_eq!(v[0], b"/usr/bin/env".to_vec());
    assert_eq!(v[1], b"python".to_vec());
    assert_eq!(v[2], b"x".to_vec());
    assert_eq!(v[3], b"y".to_vec());
}

#[test]
fn non_shebang_is_not_expanded() {
    assert!(expand_shebang(&b"ELF".to_vec(), &Vec::new()).is_none());
    assert!(expand_shebang(&Vec::new(), &Vec::new()).is_none());
}

#[test]
fn script_suffix_redirects_through_the_shell() {
    let args = vec![b"/app.sh".to_vec()];
    match resolve_load_path(None, &args).unwrap() {
        PathResolution::Restart(v) => {
            assert_eq!(v.len(), 2);
            assert_eq!(v[0], b"/bin/sh".to_vec());
            assert_eq!(v[1], b"/app.sh".to_vec());
        },
        _ => panic!("expected a shell restart"),
    }
    match resolve_load_path(None, &vec![b"/app".to_vec()]).unwrap() {
        PathResolution::Proceed(p) => assert_eq!(p, b"/app".to_vec()),
        _ => panic!("expected to proceed"),
    }
    assert_eq!(resolve_load_path(None, &Vec::new()), Err(LinuxError::EINVAL));
}

#[test]
fn script_chain_recurses_until_a_real_binary() {
    let mut fs = FsModel::new();
    fs.set_file(b"/app".to_vec(), b"#!/interp\n".to_vec());
    fs.set_file(b"/interp".to_vec(), b"#!/inner\n".to_vec());
    fs.set_file(b"/inner".to_vec(), tiny_elf(2, 0x10040, 0x10000));
    let (data, args, used) = resolve_script_chain(
        &fs,
        None,
        vec![b"/app".to_vec()],
        SCRIPT_RECURSION_LIMIT,
    )
    .unwrap();
    assert_eq!(used, b"/inner".to_vec());
    assert_eq!(data, tiny_elf(2, 0x10040, 0x10000));
    assert_eq!(args.len(), 3);
    assert_eq!(args[0], b"/inner".to_vec());
    assert_eq!(args[1], b"/interp".to_vec());
    assert_eq!(args[2], b"/app".to_vec());
}

#[test]
fn cyclic_script_chain_fails_with_eloop() {
    let mut fs = FsModel::new();
    fs.set_file(b"/a".to_vec(), b"#!/a\n".to_vec());
    let r = resolve_script_chain(&fs, None, vec![b"/a".to_vec()], SCRIPT_RECURSION_LIMIT);
    assert_eq!(r.map(|_| ()), Err(LinuxError::ELOOP));
}

#[test]
fn missing_file_is_enoent() {
    let fs = FsModel::new();
    let r = resolve_script_chain(&fs, None, vec![b"/gone".to_vec()], SCRIPT_RECURSION_LIMIT);
    assert_eq!(r.map(|_| ()), Err(LinuxError::ENOENT));
}

#[test]
fn aux_vector_describes_page_size_and_interpreter() {
    let v = build_aux_vector(0x10040, Some(0x400_0000));
    assert_eq!(v, vec![(AT_PAGESZ, 0x1000), (AT_BASE, 0x400_0000), (AT_ENTRY, 0x10040)]);
    let v = build_aux_vector(0x10040, None);
    assert_eq!(v[1], (AT_BASE, 0));
}

#[test]
fn stack_region_serializes_argc_and_strings() {
    let args = vec![b"/app".to_vec(), b"-x".to_vec()];
    let envs = vec![b"HOME=/".to_vec()];
    let auxv = build_aux_vector(0x10040, None);
    let (img, sp) = app_stack_region(&args, &envs, &auxv).unwrap();
    assert_eq!(sp % 16, 0);
    assert_eq!(sp + img.len(), USER_STACK_TOP);
    assert!(sp >= USER_STACK_TOP - USER_STACK_SIZE);
    // the stack pointer addresses the argument count
    assert_eq!(read_u64(&img, 0), 2);
    // the strings sit packed at the very top of the stack
    let tail = &img[img.len() - 15..];
    assert_eq!(tail, b"/app\0-x\0HOME=/\0");
    // the first argument pointer targets the first string
    let str_base = (USER_STACK_TOP - 15) as u64;
    assert_eq!(read_u64(&img, 8), str_base);
    assert_eq!(read_u64(&img, 16), str_base + 5);
    assert_eq!(read_u64(&img, 24), 0); // argv terminator
    assert_eq!(read_u64(&img, 32), str_base + 8); // envp[0]
    assert_eq!(read_u64(&img, 40), 0); // envp terminator
    assert_eq!(read_u64(&img, 48), AT_PAGESZ);
    assert_eq!(read_u64(&img, 56), 0x1000);
}

#[test]
fn load_user_app_maps_images_stack_and_heap() {
    let mut fs = FsModel::new();
    fs.set_file(b"/init".to_vec(), tiny_elf(2, 0x10040, 0x10000));
    let mut uspace = new_user_aspace_empty(7);
    let (entry, sp) = load_user_app(
        &mut uspace,
        &fs,
        Some(b"/init".to_vec()),
        vec![b"/init".to_vec()],
        &Vec::new(),
    )
    .unwrap();
    assert_eq!(entry, 0x10040);
    assert_eq!(sp % 16, 0);
    assert!(sp >= USER_STACK_TOP - USER_STACK_SIZE && sp < USER_STACK_TOP);
    // segment, stack and heap are all mapped
    let n = uspace.areas.len();
    assert_eq!(n, 3);
    assert_eq!(uspace.areas[0].start, 0x10000);
    assert_eq!(uspace.areas[1].start, USER_STACK_TOP - USER_STACK_SIZE);
    assert_eq!(uspace.areas[1].size, USER_STACK_SIZE);
    assert_eq!(uspace.areas[2].start, USER_HEAP_BASE);
    assert_eq!(uspace.areas[2].size, USER_HEAP_SIZE);
    // the mapped segment carries the file bytes
    assert_eq!(uspace.read_byte(0x10000), Some(0x7f));
    assert_eq!(uspace.read_byte(0x10001), Some(0x45));
    // and the zero-filled tail up to the in-memory size
    assert_eq!(uspace.read_byte(0x10000 + 200), Some(0));
}

#[test]
fn load_user_app_through_a_shell_script() {
    let mut fs = FsModel::new();
    fs.set_file(b"/bin/sh".to_vec(), tiny_elf(2, 0x10040, 0x10000));
    let mut uspace = new_user_aspace_empty(7);
    let (entry, sp) = load_user_app(
        &mut uspace,
        &fs,
        Some(b"/app.sh".to_vec()),
        vec![b"/app.sh".to_vec()],
        &Vec::new(),
    )
    .unwrap();
    assert_eq!(entry, 0x10040);
    // the serialized argument block names the shell first
    let stack = &uspace.areas[1];
    let block_off = (sp - (USER_STACK_TOP - USER_STACK_SIZE)) as usize;
    let argc = read_u64(&stack.data, block_off);
    assert_eq!(argc, 2);
}

/// A two-header image: a `PT_INTERP` naming `interp`, and one loadable
/// segment.
fn tiny_elf_with_interp(interp: &[u8]) -> Vec<u8> {
    let isz = interp.len() + 1;
    let mut v = vec![0u8; 180 + isz];
    v[0] = 0x7f;
    v[1] = 0x45;
    v[2] = 0x4c;
    v[3] = 0x46;
    v[4] = 2;
    v[5] = 1;
    put_u16(&mut v, 16, 2);
    put_u64(&mut v, 24, 0x10040);
    put_u64(&mut v, 32, 64);
    put_u16(&mut v, 54, 56);
    put_u16(&mut v, 56, 2);
    // PT_INTERP
    put_u32(&mut v, 64, 3);
    put_u64(&mut v, 72, 180);
    put_u64(&mut v, 96, isz as u64);
    // PT_LOAD
    put_u32(&mut v, 120, 1);
    put_u32(&mut v, 124, 5);
    put_u64(&mut v, 128, 0);
    put_u64(&mut v, 136, 0x10000);
    put_u64(&mut v, 152, 64);
    put_u64(&mut v, 160, 0x1000);
    v[180..180 + interp.len()].copy_from_slice(interp);
    v
}

#[test]
fn dynamic_linker_supplies_the_entry_point() {
    let mut fs = FsModel::new();
    fs.set_file(b"/app".to_vec(), tiny_elf_with_interp(b"/ld.so"));
    // the linker is position-independent, loaded at the fixed base
    fs.set_file(b"/ld.so".to_vec(), tiny_elf(3, 0x40, 0x0));
    let mut uspace = new_user_aspace_empty(7);
    let (entry, sp) = load_user_app(
        &mut uspace,
        &fs,
        Some(b"/app".to_vec()),
        vec![b"/app".to_vec()],
        &Vec::new(),
    )
    .unwrap();
    // the process entry point is the linker's, at the interpreter base
    assert_eq!(entry, starry_core::mm::USER_INTERP_BASE + 0x40);
    // the linker image itself is mapped at the interpreter base
    assert_eq!(uspace.areas[0].start, starry_core::mm::USER_INTERP_BASE);
    // the auxiliary vector on the stack records the interpreter base and
    // the main image's own entry
    let stack = &uspace.areas[2];
    let block_off = (sp - (USER_STACK_TOP - USER_STACK_SIZE)) as usize;
    let n = 1; // one argument
    assert_eq!(read_u64(&stack.data, block_off + 8 * (5 + n)), AT_BASE);
    assert_eq!(
        read_u64(&stack.data, block_off + 8 * (6 + n)),
        starry_core::mm::USER_INTERP_BASE as u64
    );
    assert_eq!(read_u64(&stack.data, block_off + 8 * (7 + n)), AT_ENTRY);
    assert_eq!(read_u64(&stack.data, block_off + 8 * (8 + n)), 0x10040);
}

#[test]
fn load_user_app_without_path_or_args_is_einval() {
    let fs = FsModel::new();
    let mut uspace = new_user_aspace_empty(7);
    let r = load_user_app(&mut uspace, &fs, None, Vec::new(), &Vec::new());
    assert_eq!(r.map(|_| ()), Err(LinuxError::EINVAL));
    assert!(uspace.areas.is_empty());
}

#[test]
fn load_user_app_rejects_non_executables() {
    let mut fs = FsModel::new();
    fs.set_file(b"/data".to_vec(), b"not an executable image".to_vec());
    let mut uspace = new_user_aspace_empty(7);
    let r = load_user_app(
        &mut uspace,
        &fs,
        Some(b"/data".to_vec()),
        vec![b"/data".to_vec()],
        &Vec::new(),
    );
    assert_eq!(r.map(|_| ()), Err(LinuxError::ENOEXEC));
}
