//! The instruction set and the wire format of a single instruction.

use vstd::prelude::*;
use vstd::bytes::*;
use vstd::slice::*;
use vstd::string::*;
use vstd::utf8::*;

verus! {

/// One instruction of the machine.
#[derive(Debug, PartialEq, Eq)]
pub enum Instruction {
    /// Stops execution.
    Hlt,
    /// Stores an immediate value in a register.
    Reg(u8, usize),
    /// Adds two registers into a third.
    Add(u8, u8, u8),
    /// Subtracts the second register from the first into a third.
    Sub(u8, u8, u8),
    /// Multiplies two registers into a third.
    Mul(u8, u8, u8),
    /// Divides the first register by the second into a third.
    Div(u8, u8, u8),
    /// A named position in the program.
    Label(String),
    /// A reference to a label by name.
    Jmp(String),
}

/// The mathematical value of an [`Instruction`]: names are sequences of characters.
pub enum Op {
    Hlt,
    Reg(u8, usize),
    Add(u8, u8, u8),
    Sub(u8, u8, u8),
    Mul(u8, u8, u8),
    Div(u8, u8, u8),
    Label(Seq<char>),
    Jmp(Seq<char>),
}

impl View for Instruction {
    type V = Op;

    open spec fn view(&self) -> Op {
        match *self {
            Instruction::Hlt => Op::Hlt,
            Instruction::Reg(r, v) => Op::Reg(r, v),
            Instruction::Add(a, b, c) => Op::Add(a, b, c),
            Instruction::Sub(a, b, c) => Op::Sub(a, b, c),
            Instruction::Mul(a, b, c) => Op::Mul(a, b, c),
            Instruction::Div(a, b, c) => Op::Div(a, b, c),
            Instruction::Label(name) => Op::Label(name@),
            Instruction::Jmp(name) => Op::Jmp(name@),
        }
    }
}

/// The views of a sequence of instructions.
pub open spec fn ops(instructions: Seq<Instruction>) -> Seq<Op> {
    instructions.map_values(|inst: Instruction| inst@)
}

impl Clone for Instruction {
    fn clone(&self) -> (res: Self)
        ensures
            res@ == self@,
    {
        match self {
            Instruction::Hlt => Instruction::Hlt,
            Instruction::Reg(r, v) => Instruction::Reg(*r, *v),
            Instruction::Add(a, b, c) => Instruction::Add(*a, *b, *c),
            Instruction::Sub(a, b, c) => Instruction::Sub(*a, *b, *c),
            Instruction::Mul(a, b, c) => Instruction::Mul(*a, *b, *c),
            Instruction::Div(a, b, c) => Instruction::Div(*a, *b, *c),
            Instruction::Label(name) => Instruction::Label(name.clone()),
            Instruction::Jmp(name) => Instruction::Jmp(name.clone()),
        }
    }
}

/// Opcode bytes of the wire format.
pub const OP_HLT: u8 = 0x01;
pub const OP_REG: u8 = 0x02;
pub const OP_ADD: u8 = 0x03;
pub const OP_SUB: u8 = 0x04;
pub const OP_MUL: u8 = 0x05;
pub const OP_DIV: u8 = 0x06;
pub const OP_LABEL: u8 = 0x07;
pub const OP_JMP: u8 = 0x08;

/// The two length bytes of a text of `n` bytes: `n` modulo 2^16, low byte first.
pub open spec fn length_bytes(n: nat) -> Seq<u8> {
    seq![(n % 256) as u8, ((n / 256) % 256) as u8]
}

/// The length that two length bytes declare, low byte first.
pub open spec fn declared_length(low: u8, high: u8) -> nat {
    (low + 256 * high) as nat
}

/// Wire form of a name: the opcode, the two length bytes of its UTF-8
/// text, then all of that text.
pub open spec fn name_bytes(opcode: u8, name: Seq<char>) -> Seq<u8> {
    let text = encode_utf8(name);
    seq![opcode] + length_bytes(text.len()) + text
}

/// Wire form of an instruction: the opcode byte, then the payload.
pub open spec fn wire(op: Op) -> Seq<u8> {
    match op {
        Op::Hlt => seq![OP_HLT],
        Op::Reg(r, v) => seq![OP_REG, r] + spec_u64_to_le_bytes(v as u64),
        Op::Add(a, b, c) => seq![OP_ADD, a, b, c],
        Op::Sub(a, b, c) => seq![OP_SUB, a, b, c],
        Op::Mul(a, b, c) => seq![OP_MUL, a, b, c],
        Op::Div(a, b, c) => seq![OP_DIV, a, b, c],
        Op::Label(name) => name_bytes(OP_LABEL, name),
        Op::Jmp(name) => name_bytes(OP_JMP, name),
    }
}

/// The name that a label or jump payload declares, if the payload is whole
/// and its text is valid UTF-8. Bytes after the declared length are ignored.
pub open spec fn parsed_name(bytes: Seq<u8>) -> Option<Seq<char>> {
    if bytes.len() < 3 {
        None
    } else {
        let len = declared_length(bytes[1], bytes[2]) as int;
        if bytes.len() < 3 + len {
            None
        } else if !valid_utf8(bytes.subrange(3, 3 + len)) {
            None
        } else {
            Some(decode_utf8(bytes.subrange(3, 3 + len)))
        }
    }
}

/// What a chunk of bytes decodes to: the instruction that its opcode and
/// payload describe, or nothing where the opcode is unknown or the payload
/// is cut short. Bytes after the payload are ignored.
pub open spec fn parsed(bytes: Seq<u8>) -> Option<Op> {
    if bytes.len() == 0 {
        None
    } else if bytes[0] == OP_HLT {
        Some(Op::Hlt)
    } else if bytes[0] == OP_REG {
        if bytes.len() < 10 {
            None
        } else {
            Some(Op::Reg(bytes[1], spec_u64_from_le_bytes(bytes.subrange(2, 10)) as usize))
        }
    } else if OP_ADD <= bytes[0] <= OP_DIV {
        if bytes.len() < 4 {
            None
        } else if bytes[0] == OP_ADD {
            Some(Op::Add(bytes[1], bytes[2], bytes[3]))
        } else if bytes[0] == OP_SUB {
            Some(Op::Sub(bytes[1], bytes[2], bytes[3]))
        } else if bytes[0] == OP_MUL {
            Some(Op::Mul(bytes[1], bytes[2], bytes[3]))
        } else {
            Some(Op::Div(bytes[1], bytes[2], bytes[3]))
        }
    } else if bytes[0] == OP_LABEL {
        match parsed_name(bytes) {
            Some(name) => Some(Op::Label(name)),
            None => None,
        }
    } else if bytes[0] == OP_JMP {
        match parsed_name(bytes) {
            Some(name) => Some(Op::Jmp(name)),
            None => None,
        }
    } else {
        None
    }
}

/// Whether the wire form of `op` states the true length of its name: a name
/// of more than 65535 UTF-8 bytes does not fit the two length bytes.
pub open spec fn fits_wire(op: Op) -> bool {
    match op {
        Op::Label(name) => encode_utf8(name).len() <= 0xffff,
        Op::Jmp(name) => encode_utf8(name).len() <= 0xffff,
        _ => true,
    }
}

/// `String::from_utf8`: the vector is accepted exactly when it is valid
/// UTF-8, and the string then holds the characters that the bytes encode.
#[verifier::external_body]
fn string_from_utf8(bytes: Vec<u8>) -> (res: Option<String>)
    ensures
        res is Some <==> valid_utf8(bytes@),
        res is Some ==> res->0@ == decode_utf8(bytes@),
{
    String::from_utf8(bytes).ok()
}

fn encode_name(opcode: u8, name: &String) -> (out: Vec<u8>)
    ensures
        out@ == name_bytes(opcode, name@),
{
    let text = name.as_str().as_bytes();
    let n = text.len();
    let low: u8 = (n % 256) as u8;
    let high: u8 = ((n / 256) % 256) as u8;
    let mut out: Vec<u8> = vec![opcode, low, high];
    out.extend_from_slice(text);
    assert(out@ =~= name_bytes(opcode, name@));
    out
}

fn decode_name(bytes: &[u8]) -> (res: Option<String>)
    ensures
        match res {
            Some(name) => parsed_name(bytes@) == Some(name@),
            None => parsed_name(bytes@) is None,
        },
{
    if bytes.len() < 3 {
        return None;
    }
    let len: usize = bytes[1] as usize + 256 * (bytes[2] as usize);
    if bytes.len() - 3 < len {
        return None;
    }
    let text = slice_to_vec(slice_subrange(bytes, 3, 3 + len));
    string_from_utf8(text)
}

impl Instruction {
    /// Encodes the instruction in its wire form.
    pub fn encode(&self) -> (out: Vec<u8>)
        ensures
            out@ == wire(self@),
    {
        match self {
            Instruction::Hlt => vec![OP_HLT],
            Instruction::Reg(r, v) => {
                let mut out: Vec<u8> = vec![OP_REG, *r];
                let value = u64_to_le_bytes(*v as u64);
                out.extend_from_slice(value.as_slice());
                assert(out@ =~= wire(self@));
                out
            },
            Instruction::Add(a, b, c) => vec![OP_ADD, *a, *b, *c],
            Instruction::Sub(a, b, c) => vec![OP_SUB, *a, *b, *c],
            Instruction::Mul(a, b, c) => vec![OP_MUL, *a, *b, *c],
            Instruction::Div(a, b, c) => vec![OP_DIV, *a, *b, *c],
            Instruction::Label(name) => encode_name(OP_LABEL, name),
            Instruction::Jmp(name) => encode_name(OP_JMP, name),
        }
    }

    /// Decodes one instruction from a chunk of bytes. An empty chunk, an
    /// unknown opcode, a payload cut short or a name that is not UTF-8 gives
    /// `None`.
    pub fn decode(bytes: &[u8]) -> (res: Option<Instruction>)
        ensures
            match res {
                Some(inst) => parsed(bytes@) == Some(inst@),
                None => parsed(bytes@) is None,
            },
    {
        if bytes.len() == 0 {
            return None;
        }
        let opcode = bytes[0];
        if opcode == OP_HLT {
            Some(Instruction::Hlt)
        } else if opcode == OP_REG {
            if bytes.len() < 10 {
                return None;
            }
            let value = u64_from_le_bytes(slice_subrange(bytes, 2, 10));
            Some(Instruction::Reg(bytes[1], #[verifier::truncate] (value as usize)))
        } else if OP_ADD <= opcode && opcode <= OP_DIV {
            if bytes.len() < 4 {
                return None;
            }
            if opcode == OP_ADD {
                Some(Instruction::Add(bytes[1], bytes[2], bytes[3]))
            } else if opcode == OP_SUB {
                Some(Instruction::Sub(bytes[1], bytes[2], bytes[3]))
            } else if opcode == OP_MUL {
                Some(Instruction::Mul(bytes[1], bytes[2], bytes[3]))
            } else {
                Some(Instruction::Div(bytes[1], bytes[2], bytes[3]))
            }
        } else if opcode == OP_LABEL {
            match decode_name(bytes) {
                Some(name) => Some(Instruction::Label(name)),
                None => None,
            }
        } else if opcode == OP_JMP {
            match decode_name(bytes) {
                Some(name) => Some(Instruction::Jmp(name)),
                None => None,
            }
        } else {
            None
        }
    }
}

/// Decoding the wire form of an instruction gives that instruction back,
/// provided that a name's UTF-8 length fits the two length bytes.
pub proof fn lemma_decode_encode(op: Op)
    requires
        fits_wire(op),
    ensures
        parsed(wire(op)) == Some(op),
{
    lemma_auto_spec_u64_to_from_le_bytes();
    match op {
        Op::Reg(r, v) => {
            let bytes = wire(op);
            assert(bytes.subrange(2, 10) =~= spec_u64_to_le_bytes(v as u64));
        },
        Op::Label(name) => {
            lemma_name_round_trip(OP_LABEL, name);
        },
        Op::Jmp(name) => {
            lemma_name_round_trip(OP_JMP, name);
        },
        _ => {},
    }
}

proof fn lemma_name_round_trip(opcode: u8, name: Seq<char>)
    requires
        encode_utf8(name).len() <= 0xffff,
    ensures
        parsed_name(name_bytes(opcode, name)) == Some(name),
        name_bytes(opcode, name)[0] == opcode,
{
    let text = encode_utf8(name);
    let bytes = name_bytes(opcode, name);
    assert(declared_length(bytes[1], bytes[2]) == text.len());
    assert(bytes.subrange(3, 3 + text.len() as int) =~= text);
    encode_utf8_valid_utf8(name);
    encode_utf8_decode_utf8(name);
}

} // verus!
