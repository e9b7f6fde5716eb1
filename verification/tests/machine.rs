use forge_vm::emulator::{Emulator, Fault, Outcome};
use forge_vm::instruction::Instruction;
use forge_vm::registry::Registry;

#[test]
fn registers_start_at_zero() {
    let registers = Registry::new();
    for r in 0..=255u8 {
        assert_eq!(registers.get(r), 0);
    }
}

#[test]
fn register_bounds() {
    let mut registers = Registry::new();
    for r in 0..8u8 {
        registers.set(r, 10 + r as usize);
    }
    for r in 8..=255u8 {
        assert_eq!(registers.get(r), 0);
        registers.set(r, 99);
        assert_eq!(registers.get(r), 0);
    }
    for r in 0..8u8 {
        assert_eq!(registers.get(r), 10 + r as usize);
    }
    registers.set(7, 1);
    assert_eq!(registers.0, [10, 11, 12, 13, 14, 15, 16, 1]);
}

#[test]
fn addition_then_halt() {
    let program = Instruction::from_text("reg ra, 5\nreg rb, 3\nadd ra, rb, rc\nhlt");
    assert_eq!(
        program,
        vec![
            Instruction::Reg(0, 5),
            Instruction::Reg(1, 3),
            Instruction::Add(0, 1, 2)
        ]
    );
    let mut machine = Emulator::new(program);
    assert_eq!(machine.run(), Outcome::Halted);
    assert_eq!(machine.registers.get(2), 8);
    assert_eq!(machine.registers.get(0), 5);
    assert_eq!(machine.registers.get(1), 3);
    assert_eq!(machine.pc, 3);
    assert_eq!(machine.inst, Instruction::Add(0, 1, 2));
}

#[test]
fn addition_then_explicit_halt() {
    let program = Instruction::from_text("reg ra, 5\nreg rb, 3\nadd ra, rb, rc\nhlt \nreg ra, 9");
    assert_eq!(program.len(), 5);
    let mut machine = Emulator::new(program);
    assert_eq!(machine.run(), Outcome::Halted);
    assert_eq!(machine.registers.0, [5, 3, 8, 0, 0, 0, 0, 0]);
    assert_eq!(machine.pc, 3);
    assert_eq!(machine.inst, Instruction::Hlt);
    assert_eq!(machine.step(), Outcome::Halted);
    assert_eq!(machine.pc, 3);
}

#[test]
fn division_by_zero_faults_before_halt() {
    let program = Instruction::from_text("reg ra, 4\nreg rb, 0\ndiv ra, rb, rc\nhlt ");
    let mut machine = Emulator::new(program);
    assert_eq!(machine.step(), Outcome::Running);
    assert_eq!(machine.step(), Outcome::Running);
    assert_eq!(machine.step(), Outcome::Faulted(Fault::DivisionByZero));
    assert_eq!(machine.pc, 2);
    assert_eq!(machine.inst, Instruction::Div(0, 1, 2));
    assert_eq!(machine.registers.0, [4, 0, 0, 0, 0, 0, 0, 0]);

    let program = Instruction::from_text("reg ra, 4\nreg rb, 0\ndiv ra, rb, rc\nhlt ");
    let mut machine = Emulator::new(program);
    assert_eq!(machine.run(), Outcome::Faulted(Fault::DivisionByZero));
    assert_eq!(machine.pc, 2);
}

#[test]
fn arithmetic_results() {
    let program = vec![
        Instruction::Reg(0, 17),
        Instruction::Reg(1, 5),
        Instruction::Add(0, 1, 2),
        Instruction::Sub(0, 1, 3),
        Instruction::Mul(0, 1, 4),
        Instruction::Div(0, 1, 5),
        Instruction::Div(1, 0, 6),
        Instruction::Add(0, 0, 0),
    ];
    let mut machine = Emulator::new(program);
    assert_eq!(machine.run(), Outcome::Halted);
    assert_eq!(machine.registers.0, [34, 5, 22, 12, 85, 3, 0, 0]);
    assert_eq!(machine.pc, 8);
}

#[test]
fn subtraction_below_zero_faults() {
    let mut machine = Emulator::new(vec![
        Instruction::Reg(0, 1),
        Instruction::Reg(1, 2),
        Instruction::Sub(0, 1, 2),
        Instruction::Reg(3, 9),
    ]);
    assert_eq!(machine.run(), Outcome::Faulted(Fault::Overflow));
    assert_eq!(machine.pc, 2);
    assert_eq!(machine.registers.0, [1, 2, 0, 0, 0, 0, 0, 0]);
}

#[test]
fn sum_and_product_past_the_word_fault() {
    let mut machine = Emulator::new(vec![
        Instruction::Reg(0, usize::MAX),
        Instruction::Reg(1, 1),
        Instruction::Add(0, 1, 2),
    ]);
    assert_eq!(machine.run(), Outcome::Faulted(Fault::Overflow));
    let mut machine = Emulator::new(vec![
        Instruction::Reg(0, usize::MAX),
        Instruction::Reg(1, 2),
        Instruction::Mul(0, 1, 2),
    ]);
    assert_eq!(machine.run(), Outcome::Faulted(Fault::Overflow));
    let mut machine = Emulator::new(vec![
        Instruction::Reg(0, usize::MAX),
        Instruction::Reg(1, 1),
        Instruction::Mul(0, 1, 2),
    ]);
    assert_eq!(machine.run(), Outcome::Halted);
    assert_eq!(machine.registers.get(2), usize::MAX);
}

#[test]
fn registers_out_of_range_read_zero_and_ignore_writes() {
    let mut machine = Emulator::new(vec![
        Instruction::Reg(9, 5),
        Instruction::Reg(0, 4),
        Instruction::Add(0, 200, 1),
        Instruction::Add(0, 0, 8),
        Instruction::Div(0, 9, 2),
    ]);
    assert_eq!(machine.run(), Outcome::Faulted(Fault::DivisionByZero));
    assert_eq!(machine.pc, 4);
    assert_eq!(machine.registers.0, [4, 4, 0, 0, 0, 0, 0, 0]);
}

#[test]
fn labels_and_jumps_are_inert() {
    let mut machine = Emulator::new(vec![
        Instruction::Label(String::from("top")),
        Instruction::Reg(0, 1),
        Instruction::Jmp(String::from("top")),
        Instruction::Reg(1, 2),
    ]);
    assert_eq!(machine.step(), Outcome::Running);
    assert_eq!(machine.inst, Instruction::Label(String::from("top")));
    assert_eq!(machine.pc, 1);
    assert_eq!(machine.run(), Outcome::Halted);
    assert_eq!(machine.pc, 4);
    assert_eq!(machine.registers.0, [1, 2, 0, 0, 0, 0, 0, 0]);
}

#[test]
fn empty_program_halts_at_once() {
    let mut machine = Emulator::new(Vec::new());
    assert_eq!(machine.step(), Outcome::Halted);
    assert_eq!(machine.run(), Outcome::Halted);
    assert_eq!(machine.pc, 0);
    assert_eq!(machine.inst, Instruction::Hlt);
}

#[test]
fn two_runs_of_one_program_agree() {
    let source = "reg ra, 6\nreg rb, 7\nmul ra, rb, rc\nsub rc, ra, rd\ndiv rd, rb, ra\nhlt \n";
    let mut first = Emulator::new(Instruction::from_text(source));
    let mut second = Emulator::new(Instruction::from_text(source));
    assert_eq!(first.run(), second.run());
    assert_eq!(first.pc, second.pc);
    assert_eq!(first.registers.0, second.registers.0);
    assert_eq!(first.inst, second.inst);
    assert_eq!(first.registers.0, [5, 7, 42, 36, 0, 0, 0, 0]);
    assert_eq!(first.pc, 5);
}

#[test]
fn the_program_is_never_changed() {
    let program = vec![Instruction::Reg(0, 1), Instruction::Hlt, Instruction::Reg(0, 2)];
    let mut machine = Emulator::new(program.clone());
    machine.run();
    assert_eq!(machine.instructions, program);
}

#[test]
fn register_text() {
    let mut registers = Registry::new();
    assert_eq!(registers.to_text(), "rx: 0, ry: 0\nrz: 0, ra: 0");
    registers.set(0, 12);
    registers.set(1, 3);
    registers.set(2, 400);
    registers.set(3, 5);
    registers.set(4, 77);
    assert_eq!(registers.to_text(), "rx: 12, ry: 3\nrz: 400, ra: 5");
}
