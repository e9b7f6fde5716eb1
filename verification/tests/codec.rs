use forge_vm::instruction::Instruction;
use forge_vm::stream::{decode_program, encode_program};

fn samples() -> Vec<Instruction> {
    vec![
        Instruction::Hlt,
        Instruction::Reg(2, 300),
        Instruction::Reg(255, usize::MAX),
        Instruction::Add(0, 1, 2),
        Instruction::Sub(3, 2, 1),
        Instruction::Mul(7, 7, 7),
        Instruction::Div(200, 100, 0),
        Instruction::Label(String::from("loop")),
        Instruction::Label(String::new()),
        Instruction::Jmp(String::from("d\u{e9}but \u{1F600}")),
    ]
}

#[test]
fn decode_inverts_encode_for_each_variant() {
    for inst in samples() {
        assert_eq!(Instruction::decode(&inst.encode()), Some(inst));
    }
}

#[test]
fn set_register_wire_form() {
    let bytes = Instruction::Reg(2, 300).encode();
    assert_eq!(bytes, vec![0x02, 0x02, 0x2C, 0x01, 0, 0, 0, 0, 0, 0]);
    assert_eq!(Instruction::decode(&bytes), Some(Instruction::Reg(2, 300)));
}

#[test]
fn fixed_width_wire_forms() {
    assert_eq!(Instruction::Hlt.encode(), vec![0x01]);
    assert_eq!(Instruction::Add(1, 2, 3).encode(), vec![0x03, 1, 2, 3]);
    assert_eq!(Instruction::Sub(1, 2, 3).encode(), vec![0x04, 1, 2, 3]);
    assert_eq!(Instruction::Mul(1, 2, 3).encode(), vec![0x05, 1, 2, 3]);
    assert_eq!(Instruction::Div(1, 2, 3).encode(), vec![0x06, 1, 2, 3]);
}

#[test]
fn name_wire_forms() {
    assert_eq!(
        Instruction::Label(String::from("ab")).encode(),
        vec![0x07, 2, 0, b'a', b'b']
    );
    assert_eq!(
        Instruction::Jmp(String::from("\u{e9}")).encode(),
        vec![0x08, 2, 0, 0xC3, 0xA9]
    );
    let long = "x".repeat(300);
    let bytes = Instruction::Label(long.clone()).encode();
    assert_eq!(bytes.len(), 303);
    assert_eq!(&bytes[..3], &[0x07, 0x2C, 0x01]);
    assert_eq!(Instruction::decode(&bytes), Some(Instruction::Label(long)));
}

#[test]
fn decoded_name_is_the_text_of_the_payload() {
    let bytes = vec![0x07, 3, 0, b'e', b'n', b'd'];
    assert_eq!(
        Instruction::decode(&bytes),
        Some(Instruction::Label(String::from("end")))
    );
    let bytes = vec![0x08, 2, 0, 0xC3, 0xA9, b'!'];
    assert_eq!(
        Instruction::decode(&bytes),
        Some(Instruction::Jmp(String::from("\u{e9}")))
    );
}

#[test]
fn soft_failures_decode_to_nothing() {
    assert_eq!(Instruction::decode(&[]), None);
    assert_eq!(Instruction::decode(&[0x00]), None);
    assert_eq!(Instruction::decode(&[0x09]), None);
    assert_eq!(Instruction::decode(&[0xFF, 1, 2, 3]), None);
    assert_eq!(Instruction::decode(&[0x02]), None);
    assert_eq!(Instruction::decode(&[0x02, 1, 0, 0, 0, 0, 0, 0, 0]), None);
    assert_eq!(Instruction::decode(&[0x03, 1, 2]), None);
    assert_eq!(Instruction::decode(&[0x06]), None);
    assert_eq!(Instruction::decode(&[0x07, 1]), None);
    assert_eq!(Instruction::decode(&[0x07, 4, 0, b'a', b'b']), None);
    assert_eq!(Instruction::decode(&[0x08, 1, 0, 0xFF]), None);
}

#[test]
fn bytes_after_the_payload_are_ignored() {
    assert_eq!(Instruction::decode(&[0x01, 9, 9]), Some(Instruction::Hlt));
    assert_eq!(
        Instruction::decode(&[0x05, 1, 2, 3, 4]),
        Some(Instruction::Mul(1, 2, 3))
    );
}

#[test]
fn name_longer_than_the_length_bytes_hold_does_not_round_trip() {
    let long = "y".repeat(65536 + 2);
    let bytes = Instruction::Label(long).encode();
    assert_eq!(&bytes[..3], &[0x07, 2, 0]);
    assert_eq!(bytes.len(), 3 + 65538);
    assert_eq!(
        Instruction::decode(&bytes),
        Some(Instruction::Label(String::from("yy")))
    );
}

#[test]
fn stream_round_trip() {
    let program = vec![
        Instruction::Reg(0, 5),
        Instruction::Label(String::from("start")),
        Instruction::Add(0, 1, 2),
        Instruction::Jmp(String::from("start")),
        Instruction::Hlt,
    ];
    let bytes = encode_program(&program);
    assert_eq!(bytes.iter().filter(|b| **b == 0x0D).count(), 4);
    assert_eq!(decode_program(&bytes), program);
}

#[test]
fn stream_layout() {
    let program = vec![Instruction::Hlt, Instruction::Add(1, 2, 3), Instruction::Hlt];
    assert_eq!(
        encode_program(&program),
        vec![0x01, 0x0D, 0x03, 1, 2, 3, 0x0D, 0x01]
    );
    assert_eq!(encode_program(&Vec::new()), Vec::<u8>::new());
    assert_eq!(decode_program(&[]), Vec::<Instruction>::new());
    assert_eq!(encode_program(&vec![Instruction::Hlt]), vec![0x01]);
}

#[test]
fn truncated_final_chunk_is_passed_over() {
    let mut bytes = encode_program(&vec![Instruction::Reg(1, 7), Instruction::Hlt]);
    bytes.push(0x0D);
    bytes.extend_from_slice(&[0x07, 5, 0, b'a', b'b']);
    assert_eq!(
        decode_program(&bytes),
        vec![Instruction::Reg(1, 7), Instruction::Hlt]
    );
}

#[test]
fn bad_chunks_in_the_middle_are_passed_over() {
    let bytes = vec![0x01, 0x0D, 0x0D, 0xEE, 0x0D, 0x03, 1, 2, 3, 0x0D];
    assert_eq!(
        decode_program(&bytes),
        vec![Instruction::Hlt, Instruction::Add(1, 2, 3)]
    );
}

#[test]
fn delimiter_inside_an_instruction_breaks_the_stream() {
    let program = vec![Instruction::Reg(13, 0)];
    let bytes = encode_program(&program);
    assert_eq!(decode_program(&bytes), Vec::<Instruction>::new());
    let program = vec![Instruction::Label(String::from("a\rb")), Instruction::Hlt];
    let bytes = encode_program(&program);
    assert_eq!(decode_program(&bytes), vec![Instruction::Hlt]);
}

#[test]
fn length_bytes_are_low_byte_first() {
    let bytes = Instruction::Jmp("z".repeat(0x1234)).encode();
    assert_eq!(&bytes[..3], &[0x08, 0x34, 0x12]);
    let mut chunk = vec![0x07, 0x00, 0x01];
    chunk.extend_from_slice(&[b'q'; 255]);
    assert_eq!(Instruction::decode(&chunk), None);
    chunk.push(b'q');
    assert_eq!(Instruction::decode(&chunk), Some(Instruction::Label("q".repeat(256))));
}
