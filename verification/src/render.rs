//! The canonical text of an instruction.

use vstd::prelude::*;
use vstd::string::*;
use crate::instruction::{Instruction, Op};
use crate::registry::{read, Registry};

verus! {

/// The character of a decimal digit.
pub open spec fn digit_char(d: nat) -> char {
    if d == 0 {
        '0'
    } else if d == 1 {
        '1'
    } else if d == 2 {
        '2'
    } else if d == 3 {
        '3'
    } else if d == 4 {
        '4'
    } else if d == 5 {
        '5'
    } else if d == 6 {
        '6'
    } else if d == 7 {
        '7'
    } else if d == 8 {
        '8'
    } else {
        '9'
    }
}

/// A number in decimal, without leading zeros.
pub open spec fn decimal(n: nat) -> Seq<char>
    decreases n,
{
    if n < 10 {
        seq![digit_char(n)]
    } else {
        decimal(n / 10).push(digit_char(n % 10))
    }
}

/// A mnemonic followed by three register indices.
pub open spec fn rendered_arithmetic(mnemonic: Seq<char>, x: u8, y: u8, d: u8) -> Seq<char> {
    mnemonic + decimal(x as nat) + ", "@ + decimal(y as nat) + ", "@ + decimal(d as nat)
}

/// The canonical text of an instruction: the mnemonic in capitals, then the
/// operands, registers and values in decimal, separated by a comma and a space.
pub open spec fn rendered(op: Op) -> Seq<char> {
    match op {
        Op::Hlt => "HLT"@,
        Op::Reg(r, v) => "REG "@ + decimal(r as nat) + ", "@ + decimal(v as nat),
        Op::Add(x, y, d) => rendered_arithmetic("ADD "@, x, y, d),
        Op::Sub(x, y, d) => rendered_arithmetic("SUB "@, x, y, d),
        Op::Mul(x, y, d) => rendered_arithmetic("MUL "@, x, y, d),
        Op::Div(x, y, d) => rendered_arithmetic("DIV "@, x, y, d),
        Op::Label(name) => "LABEL "@ + name,
        Op::Jmp(name) => "JMP "@ + name,
    }
}

fn digit_str(d: usize) -> (res: &'static str)
    requires
        d < 10,
    ensures
        res@ == seq![digit_char(d as nat)],
{
    proof {
        reveal_strlit("0");
        reveal_strlit("1");
        reveal_strlit("2");
        reveal_strlit("3");
        reveal_strlit("4");
        reveal_strlit("5");
        reveal_strlit("6");
        reveal_strlit("7");
        reveal_strlit("8");
        reveal_strlit("9");
    }
    let res = if d == 0 {
        "0"
    } else if d == 1 {
        "1"
    } else if d == 2 {
        "2"
    } else if d == 3 {
        "3"
    } else if d == 4 {
        "4"
    } else if d == 5 {
        "5"
    } else if d == 6 {
        "6"
    } else if d == 7 {
        "7"
    } else if d == 8 {
        "8"
    } else {
        "9"
    };
    assert(res@ =~= seq![digit_char(d as nat)]);
    res
}

/// Writes a number in decimal.
pub fn decimal_string(n: usize) -> (res: String)
    ensures
        res@ == decimal(n as nat),
    decreases n,
{
    if n < 10 {
        String::from_str(digit_str(n))
    } else {
        let mut res = decimal_string(n / 10);
        let ghost front = res@;
        res.append(digit_str(n % 10));
        assert(res@ =~= front.push(digit_char((n % 10) as nat)));
        res
    }
}

fn arithmetic_string(mnemonic: &str, x: u8, y: u8, d: u8) -> (res: String)
    ensures
        res@ == rendered_arithmetic(mnemonic@, x, y, d),
{
    let mut res = String::from_str(mnemonic);
    res.append(decimal_string(x as usize).as_str());
    res.append(", ");
    res.append(decimal_string(y as usize).as_str());
    res.append(", ");
    res.append(decimal_string(d as usize).as_str());
    res
}

fn named_string(mnemonic: &str, name: &String) -> (res: String)
    ensures
        res@ == mnemonic@ + name@,
{
    let mut res = String::from_str(mnemonic);
    res.append(name.as_str());
    res
}

impl Instruction {
    /// The canonical text of the instruction.
    pub fn to_text(&self) -> (res: String)
        ensures
            res@ == rendered(self@),
    {
        match self {
            Instruction::Hlt => String::from_str("HLT"),
            Instruction::Reg(r, v) => {
                let mut res = String::from_str("REG ");
                res.append(decimal_string(*r as usize).as_str());
                res.append(", ");
                res.append(decimal_string(*v).as_str());
                res
            },
            Instruction::Add(x, y, d) => arithmetic_string("ADD ", *x, *y, *d),
            Instruction::Sub(x, y, d) => arithmetic_string("SUB ", *x, *y, *d),
            Instruction::Mul(x, y, d) => arithmetic_string("MUL ", *x, *y, *d),
            Instruction::Div(x, y, d) => arithmetic_string("DIV ", *x, *y, *d),
            Instruction::Label(name) => named_string("LABEL ", name),
            Instruction::Jmp(name) => named_string("JMP ", name),
        }
    }
}

/// The text of the first four registers, two to a line.
pub open spec fn rendered_registers(registers: Seq<usize>) -> Seq<char> {
    "rx: "@ + decimal(read(registers, 0) as nat) + ", ry: "@ + decimal(read(registers, 1) as nat)
        + "\nrz: "@ + decimal(read(registers, 2) as nat) + ", ra: "@ + decimal(
        read(registers, 3) as nat,
    )
}

impl Registry {
    /// The text of the first four registers, two to a line.
    pub fn to_text(&self) -> (res: String)
        ensures
            res@ == rendered_registers(self@),
    {
        let mut res = String::from_str("rx: ");
        res.append(decimal_string(self.get(0)).as_str());
        res.append(", ry: ");
        res.append(decimal_string(self.get(1)).as_str());
        res.append("\nrz: ");
        res.append(decimal_string(self.get(2)).as_str());
        res.append(", ra: ");
        res.append(decimal_string(self.get(3)).as_str());
        res
    }
}

} // verus!
