//! User address-space management: the mappings and contents this core
//! decides about, over the page-table and allocator collaborators.
//!
//! An [`AddressSpace`] holds the user-visible mapping layout and the bytes
//! this core itself placed in it; the page-table root stands for the
//! hardware-level identity the scheduler context needs.  Sharing an
//! address space is holding the same one; forking copies it.

use vstd::prelude::*;

use crate::errno::LinuxError;

verus! {

/// Small page size: every mapping this core creates is 4K-granular.
pub const PAGE_SIZE_4K: usize = 0x1000;

/// Lowest user virtual address.
pub const USER_SPACE_BASE: usize = 0x1000;

/// Extent of the user virtual range, from `USER_SPACE_BASE` upward.
pub const USER_SPACE_SIZE: usize = 0x7fff_e000;

/// Fixed page the signal trampoline is mapped at.
pub const SIGNAL_TRAMPOLINE: usize = 0x7fff_d000;

/// Top of the user stack region; the region lies immediately below.
pub const USER_STACK_TOP: usize = 0x7000_0000;

/// Fixed size of the user stack region.
pub const USER_STACK_SIZE: usize = 0x2_0000;

/// Fixed base of the user heap region.
pub const USER_HEAP_BASE: usize = 0x3000_0000;

/// Fixed initial size of the user heap region.
pub const USER_HEAP_SIZE: usize = 0x4_0000;

/// Fixed secondary base a dynamic linker image is loaded at.
pub const USER_INTERP_BASE: usize = 0x400_0000;

/// Permissions of one mapping.
#[derive(Clone, Copy, Debug, PartialEq, Eq, Structural)]
pub struct MapFlags {
    /// Readable.
    pub read: bool,
    /// Writable.
    pub write: bool,
    /// Executable.
    pub execute: bool,
    /// Accessible from user mode.
    pub user: bool,
}

/// One mapped region and the bytes this core placed in it.
pub struct MemArea {
    /// First virtual address of the region.
    pub start: usize,
    /// Length of the region in bytes.
    pub size: usize,
    /// Permissions the region was mapped with.
    pub flags: MapFlags,
    /// The region's contents, one byte per mapped address.
    pub data: Vec<u8>,
}

/// A user address space: its reserved range, the page-table root the
/// scheduler context switches to, whether the kernel mappings were copied
/// in, and its mapped regions.
pub struct AddressSpace {
    /// First address of the reserved user range.
    pub base: usize,
    /// Extent of the reserved user range.
    pub size: usize,
    /// Identity of the backing page-table root.
    pub pt_root: u64,
    /// Whether the kernel's mappings were copied into this space, as
    /// architectures with a shared page-table format require.
    pub kernel_mapped: bool,
    /// The mapped regions, in creation order.
    pub areas: Vec<MemArea>,
}

/// The byte at `addr` according to the first area containing it, or
/// `None` when no area does.
pub open spec fn byte_lookup(s: Seq<MemArea>, addr: int, i: int) -> Option<u8>
    decreases s.len() - i,
{
    if i < 0 || i >= s.len() {
        None
    } else if s[i].start <= addr < s[i].start + s[i].size {
        if 0 <= addr - s[i].start < s[i].data@.len() {
            Some(s[i].data@[addr - s[i].start])
        } else {
            None
        }
    } else {
        byte_lookup(s, addr, i + 1)
    }
}

/// Two area sequences describe the same memory, field for field.
pub open spec fn areas_like(s1: Seq<MemArea>, s2: Seq<MemArea>) -> bool {
    &&& s1.len() == s2.len()
    &&& forall|i: int|
        0 <= i < s1.len() ==> (#[trigger] s1[i]).start == s2[i].start && s1[i].size == s2[i].size
            && s1[i].flags == s2[i].flags && s1[i].data@ == s2[i].data@
}

impl AddressSpace {
    /// Every area's contents cover exactly its range, and no range
    /// overflows the address arithmetic.
    pub open spec fn wf(self) -> bool {
        &&& self.base + self.size <= usize::MAX
        &&& forall|i: int|
            0 <= i < self.areas@.len() ==> (#[trigger] self.areas@[i]).data@.len()
                == self.areas@[i].size && self.areas@[i].start + self.areas@[i].size <= usize::MAX
    }

    /// The byte mapped at `addr`, or `None` if the address is unmapped.
    pub open spec fn byte_at(self, addr: int) -> Option<u8> {
        byte_lookup(self.areas@, addr, 0)
    }

    /// Whether `[start, start+size)` overlaps no existing area.
    pub open spec fn range_free(self, start: int, size: int) -> bool {
        forall|i: int|
            0 <= i < self.areas@.len() ==> (#[trigger] self.areas@[i]).start + self.areas@[i].size
                <= start || start + size <= self.areas@[i].start
    }
}

/// Like areas read like bytes.
proof fn lemma_byte_lookup_congruence(s1: Seq<MemArea>, s2: Seq<MemArea>, addr: int, i: int)
    requires
        areas_like(s1, s2),
    ensures
        byte_lookup(s1, addr, i) == byte_lookup(s2, addr, i),
    decreases s1.len() - i,
{
    if 0 <= i && i < s1.len() {
        lemma_byte_lookup_congruence(s1, s2, addr, i + 1);
    }
}

proof fn lemma_byte_lookup_update_other(s: Seq<MemArea>, j: int, d: Vec<u8>, a: int, i: int)
    requires
        0 <= j < s.len(),
        d@.len() == s[j].data@.len(),
        forall|p: int|
            0 <= p < d@.len() && s[j].start + p != a ==> d@[p] == (#[trigger] s[j].data@[p]),
    ensures
        ({
            let s2 = s.update(
                j,
                (MemArea { start: s[j].start, size: s[j].size, flags: s[j].flags, data: d }),
            );
            forall|b: int| b != a ==> #[trigger] byte_lookup(s2, b, i) == byte_lookup(s, b, i)
        }),
    decreases s.len() - i,
{
    let s2 = s.update(
        j,
        (MemArea { start: s[j].start, size: s[j].size, flags: s[j].flags, data: d }),
    );
    if 0 <= i && i < s.len() {
        lemma_byte_lookup_update_other(s, j, d, a, i + 1);
        assert forall|b: int| b != a implies #[trigger] byte_lookup(s2, b, i) == byte_lookup(
            s,
            b,
            i,
        ) by {
            assert(byte_lookup(s2, b, i + 1) == byte_lookup(s, b, i + 1));
            if i == j && s[j].start <= b < s[j].start + s[j].size && 0 <= b - s[j].start
                < d@.len() {
                assert(s[j].start + (b - s[j].start) == b);
                assert(d@[b - s[j].start] == s[j].data@[b - s[j].start]);
            }
        }
    }
}

proof fn lemma_byte_lookup_update_at(s: Seq<MemArea>, j: int, d: Vec<u8>, a: int, i: int)
    requires
        0 <= j < s.len(),
        d@.len() == s[j].data@.len(),
        s[j].start <= a < s[j].start + s[j].size,
        0 <= a - s[j].start < d@.len(),
        forall|p: int| i <= p < j ==> !((#[trigger] s[p]).start <= a < s[p].start + s[p].size),
        0 <= i <= j,
    ensures
        ({
            let s2 = s.update(
                j,
                (MemArea { start: s[j].start, size: s[j].size, flags: s[j].flags, data: d }),
            );
            byte_lookup(s2, a, i) == Some(d@[a - s[j].start])
        }),
    decreases s.len() - i,
{
    if i < j {
        assert(!(s[i].start <= a < s[i].start + s[i].size));
        lemma_byte_lookup_update_at(s, j, d, a, i + 1);
    }
}

/// A vector of `n` zero bytes, as a freshly allocated region reads.
pub fn zeroed(n: usize) -> (v: Vec<u8>)
    ensures
        v@.len() == n,
        forall|i: int| 0 <= i < n ==> v@[i] == 0,
{
    let mut v: Vec<u8> = Vec::new();
    let mut i: usize = 0;
    while i < n
        invariant
            i <= n,
            v@.len() == i,
            forall|p: int| 0 <= p < i ==> v@[p] == 0,
        decreases n - i,
    {
        v.push(0);
        i = i + 1;
    }
    v
}

/// A byte-for-byte copy of `src`.
pub fn copy_bytes(src: &Vec<u8>) -> (v: Vec<u8>)
    ensures
        v@ == src@,
{
    let mut v: Vec<u8> = Vec::new();
    let mut i: usize = 0;
    while i < src.len()
        invariant
            i <= src@.len(),
            v@ == src@.subrange(0, i as int),
        decreases src@.len() - i,
    {
        v.push(src[i]);
        proof {
            assert(v@ =~= src@.subrange(0, i + 1));
        }
        i = i + 1;
    }
    proof {
        assert(v@ =~= src@);
    }
    v
}

/// Creates a new empty user address space over the fixed user-reserved
/// virtual range, backed by the page-table root the paging collaborator
/// allocated.
pub fn new_user_aspace_empty(pt_root: u64) -> (a: AddressSpace)
    ensures
        a.wf(),
        a.base == USER_SPACE_BASE,
        a.size == USER_SPACE_SIZE,
        a.pt_root == pt_root,
        !a.kernel_mapped,
        a.areas@.len() == 0,
        forall|b: int| a.byte_at(b) is None,
{
    AddressSpace {
        base: USER_SPACE_BASE,
        size: USER_SPACE_SIZE,
        pt_root,
        kernel_mapped: false,
        areas: Vec::new(),
    }
}

/// Copies the kernel's mappings into the user space, as architectures
/// sharing one page-table format between kernel and user mode require so
/// kernel code stays reachable after a page-table switch.  The user-
/// visible mappings and contents are untouched.
pub fn copy_from_kernel(aspace: &mut AddressSpace) -> (r: Result<(), LinuxError>)
    ensures
        r == Ok::<(), LinuxError>(()),
        final(aspace).kernel_mapped,
        final(aspace).areas@ == old(aspace).areas@,
        final(aspace).base == old(aspace).base,
        final(aspace).size == old(aspace).size,
        final(aspace).pt_root == old(aspace).pt_root,
{
    aspace.kernel_mapped = true;
    Ok(())
}

impl AddressSpace {
    /// Maps a fresh zero-filled region.  The range must be non-empty,
    /// must lie within the user-reserved range (`EINVAL` otherwise), and
    /// must not overlap an existing mapping (`EEXIST`).
    pub fn map_alloc(&mut self, start: usize, size: usize, flags: MapFlags) -> (r: Result<
        (),
        LinuxError,
    >)
        requires
            old(self).wf(),
        ensures
            final(self).wf(),
            final(self).base == old(self).base,
            final(self).size == old(self).size,
            final(self).pt_root == old(self).pt_root,
            final(self).kernel_mapped == old(self).kernel_mapped,
            !(size > 0 && old(self).base <= start && start + size <= old(self).base + old(
                self,
            ).size && start + size <= usize::MAX) ==> r == Err::<(), LinuxError>(
                LinuxError::EINVAL,
            ) && final(self).areas@ == old(self).areas@,
            (size > 0 && old(self).base <= start && start + size <= old(self).base + old(
                self,
            ).size && start + size <= usize::MAX && !old(self).range_free(
                start as int,
                size as int,
            )) ==> r == Err::<(), LinuxError>(LinuxError::EEXIST) && final(self).areas@ == old(
                self,
            ).areas@,
            (size > 0 && old(self).base <= start && start + size <= old(self).base + old(
                self,
            ).size && start + size <= usize::MAX && old(self).range_free(
                start as int,
                size as int,
            )) ==> r == Ok::<(), LinuxError>(()) && final(self).areas@.len() == old(
                self,
            ).areas@.len() + 1 && final(self).areas@.subrange(0, old(self).areas@.len() as int)
                == old(self).areas@ && ({
                let a = final(self).areas@.last();
                a.start == start && a.size == size && a.flags == flags && a.data@.len() == size
                    && (forall|p: int| 0 <= p < size ==> a.data@[p] == 0)
            }),
    {
        if !(size > 0 && self.base <= start && size <= usize::MAX - start && start + size
            <= self.base + self.size) {
            return Err(LinuxError::EINVAL);
        }
        let mut i: usize = 0;
        while i < self.areas.len()
            invariant
                self.wf(),
                self.areas@ == old(self).areas@,
                self.base == old(self).base,
                self.size == old(self).size,
                self.pt_root == old(self).pt_root,
                self.kernel_mapped == old(self).kernel_mapped,
                size > 0,
                self.base <= start,
                size <= usize::MAX - start,
                start + size <= self.base + self.size,
                i <= self.areas@.len(),
                forall|p: int|
                    0 <= p < i ==> (#[trigger] self.areas@[p]).start + self.areas@[p].size
                        <= start || start + size <= self.areas@[p].start,
            decreases self.areas@.len() - i,
        {
            let a_start = self.areas[i].start;
            let a_size = self.areas[i].size;
            let fits = a_start <= usize::MAX - a_size;
            if !((fits && a_start + a_size <= start) || start + size <= a_start) {
                return Err(LinuxError::EEXIST);
            }
            i = i + 1;
        }
        let data = zeroed(size);
        self.areas.push(MemArea { start, size, flags, data });
        proof {
            assert(self.areas@.subrange(0, old(self).areas@.len() as int) =~= old(
                self,
            ).areas@);
        }
        Ok(())
    }

    /// Maps a fresh region with the given contents, as loading an image
    /// segment does.  The same range rules as [`AddressSpace::map_alloc`]
    /// apply.
    pub fn map_region(&mut self, start: usize, size: usize, flags: MapFlags, data: Vec<u8>) -> (r:
        Result<(), LinuxError>)
        requires
            old(self).wf(),
            data@.len() == size,
        ensures
            final(self).wf(),
            final(self).base == old(self).base,
            final(self).size == old(self).size,
            final(self).pt_root == old(self).pt_root,
            final(self).kernel_mapped == old(self).kernel_mapped,
            !(size > 0 && old(self).base <= start && start + size <= old(self).base + old(
                self,
            ).size && start + size <= usize::MAX) ==> r == Err::<(), LinuxError>(
                LinuxError::EINVAL,
            ) && final(self).areas@ == old(self).areas@,
            (size > 0 && old(self).base <= start && start + size <= old(self).base + old(
                self,
            ).size && start + size <= usize::MAX && !old(self).range_free(
                start as int,
                size as int,
            )) ==> r == Err::<(), LinuxError>(LinuxError::EEXIST) && final(self).areas@ == old(
                self,
            ).areas@,
            (size > 0 && old(self).base <= start && start + size <= old(self).base + old(
                self,
            ).size && start + size <= usize::MAX && old(self).range_free(
                start as int,
                size as int,
            )) ==> r == Ok::<(), LinuxError>(()) && final(self).areas@.len() == old(
                self,
            ).areas@.len() + 1 && final(self).areas@.subrange(0, old(self).areas@.len() as int)
                == old(self).areas@ && ({
                let a = final(self).areas@.last();
                a.start == start && a.size == size && a.flags == flags && a.data@ == data@
            }),
    {
        if !(size > 0 && self.base <= start && size <= usize::MAX - start && start + size
            <= self.base + self.size) {
            return Err(LinuxError::EINVAL);
        }
        let mut i: usize = 0;
        while i < self.areas.len()
            invariant
                self.wf(),
                self.areas@ == old(self).areas@,
                self.base == old(self).base,
                self.size == old(self).size,
                self.pt_root == old(self).pt_root,
                self.kernel_mapped == old(self).kernel_mapped,
                size > 0,
                self.base <= start,
                size <= usize::MAX - start,
                start + size <= self.base + self.size,
                i <= self.areas@.len(),
                forall|p: int|
                    0 <= p < i ==> (#[trigger] self.areas@[p]).start + self.areas@[p].size
                        <= start || start + size <= self.areas@[p].start,
            decreases self.areas@.len() - i,
        {
            let a_start = self.areas[i].start;
            let a_size = self.areas[i].size;
            let fits = a_start <= usize::MAX - a_size;
            if !((fits && a_start + a_size <= start) || start + size <= a_start) {
                return Err(LinuxError::EEXIST);
            }
            i = i + 1;
        }
        self.areas.push(MemArea { start, size, flags, data });
        proof {
            assert(self.areas@.subrange(0, old(self).areas@.len() as int) =~= old(
                self,
            ).areas@);
        }
        Ok(())
    }

    /// Reads the byte mapped at `addr`, or `None` if it is unmapped.
    pub fn read_byte(&self, addr: usize) -> (r: Option<u8>)
        requires
            self.wf(),
        ensures
            r == self.byte_at(addr as int),
    {
        let mut i: usize = 0;
        while i < self.areas.len()
            invariant
                self.wf(),
                i <= self.areas@.len(),
                self.byte_at(addr as int) == byte_lookup(self.areas@, addr as int, i as int),
            decreases self.areas@.len() - i,
        {
            let a_start = self.areas[i].start;
            let a_size = self.areas[i].size;
            if a_start <= addr && addr - a_start < a_size {
                return Some(self.areas[i].data[addr - a_start]);
            }
            i = i + 1;
        }
        None
    }

    /// Writes one byte through a validated user address; an unmapped
    /// address faults with `EFAULT` and changes nothing.
    pub fn write_byte(&mut self, addr: usize, b: u8) -> (r: Result<(), LinuxError>)
        requires
            old(self).wf(),
        ensures
            final(self).wf(),
            final(self).base == old(self).base,
            final(self).size == old(self).size,
            final(self).pt_root == old(self).pt_root,
            final(self).kernel_mapped == old(self).kernel_mapped,
            old(self).byte_at(addr as int) is None ==> r == Err::<(), LinuxError>(
                LinuxError::EFAULT,
            ) && final(self).areas@ == old(self).areas@,
            old(self).byte_at(addr as int) is Some ==> r == Ok::<(), LinuxError>(())
                && final(self).byte_at(addr as int) == Some(b) && (forall|a: int|
                a != addr ==> #[trigger] final(self).byte_at(a) == old(self).byte_at(a)),
    {
        let ghost s = self.areas@;
        let mut i: usize = 0;
        while i < self.areas.len()
            invariant
                self.wf(),
                self.areas@ == s,
                self.base == old(self).base,
                self.size == old(self).size,
                self.pt_root == old(self).pt_root,
                self.kernel_mapped == old(self).kernel_mapped,
                s == old(self).areas@,
                i <= self.areas@.len(),
                byte_lookup(s, addr as int, 0) == byte_lookup(s, addr as int, i as int),
                forall|p: int|
                    0 <= p < i ==> !((#[trigger] s[p]).start <= addr < s[p].start + s[p].size),
            decreases self.areas@.len() - i,
        {
            let a_start = self.areas[i].start;
            let a_size = self.areas[i].size;
            if a_start <= addr && addr - a_start < a_size {
                let mut d = copy_bytes(&self.areas[i].data);
                let slot = &mut d[addr - a_start];
                *slot = b;
                proof {
                    lemma_byte_lookup_update_other(s, i as int, d, addr as int, 0);
                    lemma_byte_lookup_update_at(s, i as int, d, addr as int, 0);
                }
                let flags = self.areas[i].flags;
                let (st, sz) = (a_start, a_size);
                let _replaced = self.areas.remove(i);
                self.areas.insert(i, MemArea { start: st, size: sz, flags, data: d });
                proof {
                    assert(self.areas@ =~= s.update(
                        i as int,
                        (MemArea {
                            start: s[i as int].start,
                            size: s[i as int].size,
                            flags: s[i as int].flags,
                            data: d,
                        }),
                    ));
                }
                return Ok(());
            }
            i = i + 1;
        }
        Err(LinuxError::EFAULT)
    }

    /// A deep copy of this space for a forked process, over the fresh
    /// page-table root the paging collaborator allocated.  The copy has
    /// the same layout and contents but its own identity: later writes to
    /// either space are invisible in the other.
    pub fn clone_for_fork(&self, pt_root: u64) -> (c: AddressSpace)
        requires
            self.wf(),
        ensures
            c.wf(),
            c.base == self.base,
            c.size == self.size,
            c.pt_root == pt_root,
            c.kernel_mapped == self.kernel_mapped,
            areas_like(c.areas@, self.areas@),
            forall|a: int| #[trigger] c.byte_at(a) == self.byte_at(a),
    {
        let mut areas: Vec<MemArea> = Vec::new();
        let mut i: usize = 0;
        while i < self.areas.len()
            invariant
                self.wf(),
                i <= self.areas@.len(),
                areas@.len() == i,
                forall|p: int|
                    0 <= p < i ==> (#[trigger] areas@[p]).start == self.areas@[p].start
                        && areas@[p].size == self.areas@[p].size && areas@[p].flags
                        == self.areas@[p].flags && areas@[p].data@ == self.areas@[p].data@,
            decreases self.areas@.len() - i,
        {
            let d = copy_bytes(&self.areas[i].data);
            let st = self.areas[i].start;
            let sz = self.areas[i].size;
            let fl = self.areas[i].flags;
            areas.push(MemArea { start: st, size: sz, flags: fl, data: d });
            i = i + 1;
        }
        let c = AddressSpace {
            base: self.base,
            size: self.size,
            pt_root,
            kernel_mapped: self.kernel_mapped,
            areas,
        };
        proof {
            assert forall|a: int| #[trigger] c.byte_at(a) == self.byte_at(a) by {
                lemma_byte_lookup_congruence(c.areas@, self.areas@, a, 0);
            }
        }
        c
    }
}

/// Maps the signal trampoline: one fixed read+execute user page at the
/// fixed trampoline address, backed by the kernel's single physical
/// trampoline page, so signal delivery can return from user mode.
pub fn map_trampoline(aspace: &mut AddressSpace) -> (r: Result<(), LinuxError>)
    requires
        old(aspace).wf(),
        old(aspace).base == USER_SPACE_BASE,
        old(aspace).size == USER_SPACE_SIZE,
    ensures
        final(aspace).wf(),
        old(aspace).range_free(SIGNAL_TRAMPOLINE as int, PAGE_SIZE_4K as int) ==> r == Ok::<
            (),
            LinuxError,
        >(()) && final(aspace).areas@.len() == old(aspace).areas@.len() + 1
            && final(aspace).areas@.subrange(0, old(aspace).areas@.len() as int) == old(
            aspace,
        ).areas@ && ({
            let a = final(aspace).areas@.last();
            a.start == SIGNAL_TRAMPOLINE && a.size == PAGE_SIZE_4K && a.flags == (MapFlags {
                read: true,
                write: false,
                execute: true,
                user: true,
            })
        }),
        !old(aspace).range_free(SIGNAL_TRAMPOLINE as int, PAGE_SIZE_4K as int) ==> r == Err::<
            (),
            LinuxError,
        >(LinuxError::EEXIST) && final(aspace).areas@ == old(aspace).areas@,
{
    aspace.map_alloc(
        SIGNAL_TRAMPOLINE,
        PAGE_SIZE_4K,
        MapFlags { read: true, write: false, execute: true, user: true },
    )
}

/// The per-processor marker that a thread is deliberately touching user
/// memory, so a page fault inside the kernel is recognized as legal.
/// Modeled as explicit state scoped by [`access_user_memory`].
pub struct UserAccessState {
    /// Whether the current thread is inside a user-memory access window.
    pub accessing: bool,
}

impl UserAccessState {
    /// The initial state: not accessing user memory.
    pub fn new() -> (s: UserAccessState)
        ensures
            !s.accessing,
    {
        UserAccessState { accessing: false }
    }
}

/// Enables scoped access into user memory around `f`, allowing page
/// faults to occur inside the kernel, and restores the marker on exit.
pub fn access_user_memory<R, F: FnOnce() -> R>(state: &mut UserAccessState, f: F) -> (r: R)
    requires
        f.requires(()),
    ensures
        f.ensures((), r),
        !final(state).accessing,
{
    state.accessing = true;
    let r = f();
    state.accessing = false;
    r
}

/// Whether the current thread is inside a user-memory access window.
pub fn is_accessing_user_memory(state: &UserAccessState) -> (b: bool)
    ensures
        b == state.accessing,
{
    state.accessing
}

} // verus!
