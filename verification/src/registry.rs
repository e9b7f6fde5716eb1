//! The register file: a fixed number of machine words addressed by a byte.

use vstd::prelude::*;

verus! {

/// The number of registers.
pub const REGISTER_COUNT: usize = 8;

/// The register file.
#[derive(Debug, Clone, Copy)]
pub struct Registry(pub [usize; 8]);

impl View for Registry {
    type V = Seq<usize>;

    open spec fn view(&self) -> Seq<usize> {
        self.0@
    }
}

/// What a read of register `r` gives: its value, or 0 where there is no such register.
pub open spec fn read(registers: Seq<usize>, r: u8) -> usize {
    if r < registers.len() {
        registers[r as int]
    } else {
        0
    }
}

/// The registers after a write of `v` to register `r`: nothing changes
/// where there is no such register.
pub open spec fn written(registers: Seq<usize>, r: u8, v: usize) -> Seq<usize> {
    if r < registers.len() {
        registers.update(r as int, v)
    } else {
        registers
    }
}

impl Registry {
    /// A register file with every register at zero.
    pub fn new() -> (res: Registry)
        ensures
            res@ == Seq::new(REGISTER_COUNT as nat, |i: int| 0usize),
    {
        let res = Registry([0, 0, 0, 0, 0, 0, 0, 0]);
        assert(res@ =~= Seq::new(REGISTER_COUNT as nat, |i: int| 0usize));
        res
    }

    /// Reads a register; an index past the last register reads as 0.
    pub fn get(&self, r: u8) -> (v: usize)
        ensures
            v == read(self@, r),
            r >= REGISTER_COUNT ==> v == 0,
    {
        if (r as usize) < REGISTER_COUNT {
            self.0[r as usize]
        } else {
            0
        }
    }

    /// Writes a register; an index past the last register changes nothing.
    pub fn set(&mut self, r: u8, v: usize)
        ensures
            final(self)@ == written(old(self)@, r, v),
            r >= REGISTER_COUNT ==> final(self)@ == old(self)@,
    {
        if (r as usize) < REGISTER_COUNT {
            self.0[r as usize] = v;
        }
    }
}

} // verus!
