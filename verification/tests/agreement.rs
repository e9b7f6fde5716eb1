use forge_vm::assembler::{chars_of, trim_range};
use forge_vm::instruction::Instruction;
use forge_vm::text;

fn register_by_std(token: &str) -> u8 {
    match token.to_lowercase().as_str() {
        "ra" => 0,
        "rb" => 1,
        "rc" => 2,
        "rd" => 3,
        _ => 0,
    }
}

fn assemble_by_std(source: &str) -> Option<Vec<Instruction>> {
    let mut out = Vec::new();
    for line in source.lines() {
        let Some((name, args)) = line.split_once(' ') else {
            continue;
        };
        let args: Vec<&str> = args.split(',').map(str::trim).collect();
        let r = |k: usize| args.get(k).map(|token| register_by_std(token));
        match name.to_lowercase().as_str() {
            "hlt" => out.push(Instruction::Hlt),
            "reg" => out.push(Instruction::Reg(r(0)?, args.get(1)?.parse().ok()?)),
            "add" | "sub" | "mul" | "div" => {
                let (Some(x), Some(y), Some(d)) = (r(0), r(1), r(2)) else {
                    continue;
                };
                out.push(match name.to_lowercase().as_str() {
                    "add" => Instruction::Add(x, y, d),
                    "sub" => Instruction::Sub(x, y, d),
                    "mul" => Instruction::Mul(x, y, d),
                    _ => Instruction::Div(x, y, d),
                });
            }
            "label" => out.push(Instruction::Label(args[0].to_string())),
            "jmp" => out.push(Instruction::Jmp(args[0].to_string())),
            _ => {}
        }
    }
    Some(out)
}

#[test]
fn white_space_is_what_std_trims() {
    for c in '\0'..=char::MAX {
        let v = vec![c];
        let expected = if c.is_whitespace() { (1, 1) } else { (0, 1) };
        assert_eq!(trim_range(&v, 0, 1), expected, "{:?}", c);
    }
    for s in ["", " ", "  a b  ", "\r\n\tx\u{2003}", "\u{feff}x ", "a", " \u{200b} "] {
        let v = chars_of(s);
        let (lo, hi) = trim_range(&v, 0, v.len());
        let got: String = v[lo..hi].iter().collect();
        assert_eq!(got, s.trim());
    }
}

#[test]
fn case_folding_agrees_with_std_for_every_character() {
    for c in '\0'..=char::MAX {
        let token = format!("r{}", c);
        let legacy = match token.to_lowercase().as_str() {
            "rx" => 0,
            "ry" => 1,
            "rz" => 2,
            "ra" => 3,
            _ => 0,
        };
        assert_eq!(text::reg(&token), legacy, "{:?}", c);
        let token = format!("{}a", c);
        let legacy = match token.to_lowercase().as_str() {
            "ra" => 3,
            _ => 0,
        };
        assert_eq!(text::reg(&token), legacy, "{:?}", c);
    }
}

#[test]
fn mnemonics_agree_with_std_for_every_character() {
    let words = ["hlt", "reg", "add", "sub", "mul", "div", "label", "jmp"];
    for c in '\0'..=char::MAX {
        if c == '\n' || c == '\r' || c == ' ' || !c.to_lowercase().any(|l| l.is_ascii()) {
            continue;
        }
        for word in words {
            for at in 0..word.len() {
                if c.is_ascii() && !word[at..].starts_with(c.to_ascii_lowercase()) {
                    continue;
                }
                let mut name = String::from(&word[..at]);
                name.push(c);
                name.push_str(&word[at + 1..]);
                let line = format!("{} ra, 1, rc", name);
                assert_eq!(
                    Instruction::try_from_text(&line),
                    assemble_by_std(&line),
                    "{:?}",
                    line
                );
            }
        }
    }
}

#[test]
fn assembling_agrees_with_std_line_by_line() {
    let sources = [
        "",
        "\n",
        "hlt",
        "hlt ",
        "hlt \r",
        "hlt \r\n",
        "reg ra, 5\r\nreg rb, 3\r\nadd ra, rb, rc\r\nhlt \r\n",
        "add ra, rb\rreg, rc",
        "label a\rb\njmp \r\n",
        "label \u{2028}x\u{2028}\nreg rd ,  +9  \n",
        "REG\tra, 1\nreg ra,\u{a0}1\u{a0}",
        " reg ra, 1\nreg  rb,1\n\nadd rd,rc,rb,ra\n jmp x\nJMP , y",
        "mul RA , rB,rC \nsub rz, rd, rq\ndiv ra,, \nlabel , \nlabel",
        "reg rb, 18446744073709551615\nreg rc, 000\n",
        "reg ra, 5\rreg rb, 3",
        "hlt \nreg ra\nhlt ",
        "reg ra, 18446744073709551616",
        "mul ra, rb\n",
        "reg\u{a0}ra, 1\nreg\rra, 1\nreg ra, 1\r\r\n",
    ];
    for source in sources {
        assert_eq!(
            Instruction::try_from_text(source),
            assemble_by_std(source),
            "{:?}",
            source
        );
    }
}

#[test]
fn assembling_agrees_with_std_on_generated_sources() {
    let pieces = [
        "reg", "REG", "reg ", "\nreg ra", "\nReg rb,", "add", "Sub", "mul", "div", "hlt", "label",
        "jmp", "nop", " ", " ", " ",
        ",", ",", ",", "\n", "\n", "\r\n", "\r", "\t", "\u{a0}", "\u{3000}", "ra", "rb", "RC",
        "rd", "rx", "r", "0", "1", "+2", "007", "65536", "99999999999999999999", "-", "+", "x",
        "\u{212a}", "\u{e9}",
    ];
    let mut state: u64 = 0x2545F4914F6CDD1D;
    let mut some = 0;
    let mut none = 0;
    for _ in 0..20000 {
        let mut source = String::new();
        state = state.wrapping_mul(6364136223846793005).wrapping_add(1442695040888963407);
        let count = 1 + (state >> 33) % 14;
        for _ in 0..count {
            state = state.wrapping_mul(6364136223846793005).wrapping_add(1442695040888963407);
            source.push_str(pieces[((state >> 33) % pieces.len() as u64) as usize]);
        }
        let expected = assemble_by_std(&source);
        if expected.is_some() {
            some += 1;
        } else {
            none += 1;
        }
        assert_eq!(Instruction::try_from_text(&source), expected, "{:?}", source);
    }
    assert!(some > 1000);
    assert!(none > 100);
}
