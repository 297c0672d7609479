//! Word-level model of the user memory a futex operation reads and writes.
//!
//! A [`UserMem`] stands for the 32-bit words of one address space that this
//! core touches through validated user pointers.  An address that is absent
//! was never mapped: an access through it faults, and the caller turns that
//! into `EFAULT`.

use vstd::prelude::*;

use crate::errno::LinuxError;

verus! {

/// The value at `addr`, taking the most recently recorded cell for it.
pub open spec fn lookup_word(s: Seq<(u64, u32)>, addr: u64) -> Option<u32>
    decreases s.len(),
{
    if s.len() == 0 {
        None
    } else if s.last().0 == addr {
        Some(s.last().1)
    } else {
        lookup_word(s.drop_last(), addr)
    }
}

/// The 32-bit user-memory words visible to one address space.
pub struct UserMem {
    /// Recorded cells; a later record for the same address shadows an
    /// earlier one.
    pub cells: Vec<(u64, u32)>,
}

impl UserMem {
    /// The word mapped at `addr`, or `None` if the address is unmapped.
    pub open spec fn word(self, addr: u64) -> Option<u32> {
        lookup_word(self.cells@, addr)
    }

    /// An empty memory: every access faults.
    pub fn new() -> (m: UserMem)
        ensures
            forall|a: u64| m.word(a) is None,
    {
        UserMem { cells: Vec::new() }
    }

    /// Maps (or overwrites) the word at `addr`, as the address-space builder
    /// does when it populates a region.
    pub fn set_word(&mut self, addr: u64, v: u32)
        ensures
            final(self).word(addr) == Some(v),
            forall|a: u64| a != addr ==> final(self).word(a) == old(self).word(a),
    {
        self.cells.push((addr, v));
        proof {
            assert(self.cells@.drop_last() =~= old(self).cells@);
        }
    }

    /// Reads the word at `addr` through a validated user pointer.
    pub fn read_word(&self, addr: u64) -> (r: Option<u32>)
        ensures
            r == self.word(addr),
    {
        let mut i: usize = self.cells.len();
        proof {
            assert(self.cells@.take(i as int) =~= self.cells@);
        }
        while i > 0
            invariant
                i <= self.cells.len(),
                self.word(addr) == lookup_word(self.cells@.take(i as int), addr),
            decreases i,
        {
            let (a, v) = self.cells[i - 1];
            proof {
                assert(self.cells@.take(i as int).last() == self.cells@[i - 1]);
                assert(self.cells@.take(i as int).drop_last() =~= self.cells@.take(
                    i as int - 1,
                ));
            }
            if a == addr {
                return Some(v);
            }
            i = i - 1;
        }
        None
    }

    /// Writes the word at `addr`; an unmapped address faults with `EFAULT`
    /// and leaves the memory unchanged.
    pub fn write_word(&mut self, addr: u64, v: u32) -> (r: Result<(), LinuxError>)
        ensures
            old(self).word(addr) is Some ==> r == Ok::<(), LinuxError>(())
                && final(self).word(addr) == Some(v)
                && forall|a: u64| a != addr ==> final(self).word(a) == old(self).word(a),
            old(self).word(addr) is None ==> r == Err::<(), LinuxError>(LinuxError::EFAULT)
                && *final(self) == *old(self),
    {
        if self.read_word(addr).is_some() {
            self.set_word(addr, v);
            Ok(())
        } else {
            Err(LinuxError::EFAULT)
        }
    }
}

} // verus!
