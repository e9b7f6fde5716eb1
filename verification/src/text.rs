//! The legacy dialect of the assembler, in which the registers are named
//! `rx`, `ry`, `rz`, `ra`.

use vstd::prelude::*;
use crate::assembler::{
    assemble, chars_of, number, number_at, program_of, register_at, register_index,
};
use crate::instruction::{ops, Instruction};

verus! {

/// The register index that a token stands for: `rx`, `ry`, `rz`, `ra` are
/// 0 to 3 without regard to case, and any other token is 0.
pub fn reg(r: &str) -> (res: u8)
    ensures
        res == register_index(r@, true),
{
    let v = chars_of(r);
    assert(v@.subrange(0, v@.len() as int) =~= v@);
    register_at(&v, 0, v.len(), true)
}

/// The number that a token denotes, or `None` where it is malformed.
pub fn parse_num(r: &str) -> (res: Option<usize>)
    ensures
        res == number(r@),
{
    let v = chars_of(r);
    assert(v@.subrange(0, v@.len() as int) =~= v@);
    number_at(&v, 0, v.len())
}

/// The number that a well-formed token denotes.
pub fn num(r: &str) -> (res: usize)
    requires
        number(r@) is Some,
    ensures
        Some(res) == number(r@),
{
    match parse_num(r) {
        Some(value) => value,
        None => 0,
    }
}

/// Assembles a source text that holds no invalid line.
pub fn from_text(s: &str) -> (out: Vec<Instruction>)
    requires
        program_of(s@, true) is Some,
    ensures
        Some(ops(out@)) == program_of(s@, true),
{
    match assemble(s, true) {
        Some(program) => program,
        None => Vec::new(),
    }
}

/// Assembles a source text, or gives `None` where it holds an invalid line.
pub fn try_from_text(s: &str) -> (res: Option<Vec<Instruction>>)
    ensures
        match res {
            Some(program) => program_of(s@, true) == Some(ops(program@)),
            None => program_of(s@, true) is None,
        },
{
    assemble(s, true)
}

} // verus!
