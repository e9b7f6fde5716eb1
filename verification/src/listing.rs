//! Listings: a program written out as source text, one instruction a line,
//! and what the assembler makes of such a text.

use vstd::prelude::*;
use vstd::string::*;
use crate::assembler::{
    arithmetic, assembled, decimal_value, digit_value, is_digit, is_space, is_word, lower_code,
    mnemonic, number, parse_line, program_of, register_index, trim_end, trim_start, trimmed,
    unsigned_part, Line, Mnemonic,
};
use crate::instruction::{ops, Instruction, Op};
use crate::render::{decimal, digit_char, rendered, rendered_arithmetic};
use crate::stream::{
    joined, lemma_split_append, lemma_split_first, lemma_split_first_bound, lemma_split_joined,
    lemma_split_pieces_exclude, lemma_split_whole, split_on,
};

verus! {

/// The canonical texts of the instructions, with a line feed between each two.
pub open spec fn listing(program: Seq<Op>) -> Seq<char> {
    joined(program.map_values(|op: Op| rendered(op)), '\n')
}

/// Writes a program out as source text.
pub fn render_program(program: &Vec<Instruction>) -> (out: String)
    ensures
        out@ == listing(ops(program@)),
{
    let mut out = String::new();
    let mut i: usize = 0;
    let ghost lines = ops(program@).map_values(|op: Op| rendered(op));
    assert(lines.take(0) =~= Seq::<Seq<char>>::empty());
    while i < program.len()
        invariant
            i <= program.len(),
            lines == ops(program@).map_values(|op: Op| rendered(op)),
            out@ == joined(lines.take(i as int), '\n'),
        decreases program.len() - i,
    {
        let ghost before = out@;
        if i > 0 {
            proof {
                reveal_strlit("\n");
            }
            out.append("\n");
            assert(out@ =~= before + seq!['\n']);
        }
        let line = program[i].to_text();
        out.append(line.as_str());
        proof {
            let next = lines.take(i + 1);
            assert(next.drop_last() =~= lines.take(i as int));
            assert(next.last() == rendered(program@[i as int]@));
            assert(out@ =~= joined(next, '\n'));
        }
        i += 1;
    }
    assert(lines.take(i as int) =~= lines);
    out
}

/// A name without comma or line feed, and without white space at either end.
pub open spec fn plain_name(name: Seq<char>) -> bool {
    !name.contains(',') && !name.contains('\n') && trimmed(name) == name
}

/// Whether the name of `op`, if it has one, is plain.
pub open spec fn name_is_plain(op: Op) -> bool {
    match op {
        Op::Label(name) => plain_name(name),
        Op::Jmp(name) => plain_name(name),
        _ => true,
    }
}

/// Whether the canonical text of `op` keeps what `op` holds besides a
/// name: it does not for a halt, nor for a register other than 0.
pub open spec fn keeps_operands(op: Op) -> bool {
    match op {
        Op::Hlt => false,
        Op::Reg(r, v) => r == 0,
        Op::Add(x, y, d) => x == 0 && y == 0 && d == 0,
        Op::Sub(x, y, d) => x == 0 && y == 0 && d == 0,
        Op::Mul(x, y, d) => x == 0 && y == 0 && d == 0,
        Op::Div(x, y, d) => x == 0 && y == 0 && d == 0,
        _ => true,
    }
}

/// Whether the assembler reads the canonical text of `op` as `op` again:
/// the text keeps its operands, and its name, if it has one, is plain.
pub open spec fn reads_back(op: Op) -> bool {
    keeps_operands(op) && name_is_plain(op)
}

/// Whether every character of `s` is a digit.
pub open spec fn all_digits(s: Seq<char>) -> bool {
    forall|i: int| 0 <= i < s.len() ==> is_digit(#[trigger] s[i])
}

/// A number written in decimal is read as that number.
pub proof fn lemma_decimal_read(n: nat)
    ensures
        decimal(n).len() > 0,
        all_digits(decimal(n)),
        decimal_value(decimal(n)) == n,
    decreases n,
{
    if n < 10 {
        assert(decimal(n).drop_last() =~= Seq::<char>::empty());
        assert(decimal_value(decimal(n).drop_last()) == 0);
        assert(digit_value(digit_char(n)) == n);
    } else {
        lemma_decimal_read(n / 10);
        let front = decimal(n / 10);
        assert(decimal(n).drop_last() =~= front);
        assert(digit_value(digit_char(n % 10)) == n % 10);
    }
}

proof fn lemma_digits_exclude(s: Seq<char>, c: char)
    requires
        all_digits(s),
        !is_digit(c),
    ensures
        !s.contains(c),
{
    if s.contains(c) {
        let k = choose|k: int| 0 <= k < s.len() && s[k] == c;
        assert(is_digit(s[k]));
    }
}

/// Digits, with or without one space before them, trim to the digits.
proof fn lemma_trim_digits(s: Seq<char>)
    requires
        s.len() > 0,
        all_digits(s),
    ensures
        trimmed(s) == s,
        trimmed(seq![' '] + s) == s,
{
    assert(is_digit(s[0]));
    assert(is_digit(s[s.len() - 1]));
    assert(!is_space(s[0]));
    assert(!is_space(s.last()));
    let spaced = seq![' '] + s;
    assert(is_space(spaced[0]));
    assert(spaced.drop_first() =~= s);
    assert(trim_start(s) == s);
    assert(trim_start(spaced) == trim_start(spaced.drop_first()));
}

/// A number written in decimal is a well-formed token for itself.
proof fn lemma_number_read(v: usize)
    ensures
        number(decimal(v as nat)) == Some(v),
{
    lemma_decimal_read(v as nat);
    let s = decimal(v as nat);
    assert(is_digit(s[0]));
    assert(unsigned_part(s) == s);
}

proof fn lemma_zero_register()
    ensures
        register_index(seq!['0'], false) == 0,
{
    reveal_strlit("rb");
    reveal_strlit("rc");
    reveal_strlit("rd");
}

/// The arguments `0, 0, 0` are three registers 0.
proof fn lemma_three_zeros(m: Seq<char>, line: Seq<char>)
    requires
        line == rendered_arithmetic(m + seq![' '], 0, 0, 0),
        !m.contains(' '),
    ensures
        split_on(line, ' ').len() >= 2,
        split_on(line, ' ')[0] == m,
        split_on(line.skip(m.len() as int + 1), ',') == seq![
            seq!['0'],
            seq![' ', '0'],
            seq![' ', '0'],
        ],
        trimmed(seq!['0']) == seq!['0'],
        trimmed(seq![' ', '0']) == seq!['0'],
        !m.contains('\n') ==> !line.contains('\n'),
{
    reveal_strlit(", ");
    let zero = seq!['0'];
    assert(decimal(0) =~= zero);
    let tail = zero + ", "@ + zero + ", "@ + zero;
    assert(line =~= m + seq![' '] + tail);
    lemma_split_first(m, tail, ' ');
    assert(line.skip(m.len() as int + 1) =~= tail);
    let spaced = seq![' ', '0'];
    assert(tail =~= zero + seq![','] + spaced + seq![','] + spaced);
    assert(!zero.contains(',')) by {
        if zero.contains(',') {
            let k = choose|k: int| 0 <= k < zero.len() && zero[k] == ',';
        }
    }
    assert(!spaced.contains(',')) by {
        if spaced.contains(',') {
            let k = choose|k: int| 0 <= k < spaced.len() && spaced[k] == ',';
        }
    }
    lemma_split_whole(zero, ',');
    lemma_split_append(zero, spaced, ',');
    lemma_split_append(zero + seq![','] + spaced, spaced, ',');
    assert(split_on(tail, ',') =~= seq![zero, spaced, spaced]);
    assert(all_digits(zero));
    lemma_trim_digits(zero);
    assert(spaced =~= seq![' '] + zero);
    if !m.contains('\n') {
        if line.contains('\n') {
            let k = choose|k: int| 0 <= k < line.len() && line[k] == '\n';
            if k < m.len() {
                assert(m[k] == '\n');
            }
        }
    }
}

proof fn lemma_concat_excludes(a: Seq<char>, b: Seq<char>, c: char)
    requires
        !a.contains(c),
        !b.contains(c),
    ensures
        !(a + b).contains(c),
{
    let whole = a + b;
    if whole.contains(c) {
        let k = choose|k: int| 0 <= k < whole.len() && whole[k] == c;
        if k < a.len() {
            assert(a[k] == c);
        } else {
            assert(b[k - a.len()] == c);
        }
    }
}

/// A word that begins with another letter than `word`, case aside, is not `word`.
proof fn lemma_first_letter_differs(s: Seq<char>, word: Seq<char>)
    requires
        s.len() > 0,
        word.len() > 0,
        lower_code(s[0]) != word[0] as u32,
    ensures
        !is_word(s, word),
{
}

/// A word is none of the mnemonics whose first letter it does not begin with.
proof fn lemma_other_mnemonics(s: Seq<char>)
    requires
        s.len() > 0,
    ensures
        lower_code(s[0]) != 'h' as u32 ==> !is_word(s, "hlt"@),
        lower_code(s[0]) != 'r' as u32 ==> !is_word(s, "reg"@),
        lower_code(s[0]) != 'a' as u32 ==> !is_word(s, "add"@),
        lower_code(s[0]) != 's' as u32 ==> !is_word(s, "sub"@),
        lower_code(s[0]) != 'm' as u32 ==> !is_word(s, "mul"@),
        lower_code(s[0]) != 'd' as u32 ==> !is_word(s, "div"@),
        lower_code(s[0]) != 'l' as u32 ==> !is_word(s, "label"@),
        lower_code(s[0]) != 'j' as u32 ==> !is_word(s, "jmp"@),
{
    reveal_strlit("hlt");
    reveal_strlit("reg");
    reveal_strlit("add");
    reveal_strlit("sub");
    reveal_strlit("mul");
    reveal_strlit("div");
    reveal_strlit("label");
    reveal_strlit("jmp");
    if lower_code(s[0]) != 'h' as u32 {
        lemma_first_letter_differs(s, "hlt"@);
    }
    if lower_code(s[0]) != 'r' as u32 {
        lemma_first_letter_differs(s, "reg"@);
    }
    if lower_code(s[0]) != 'a' as u32 {
        lemma_first_letter_differs(s, "add"@);
    }
    if lower_code(s[0]) != 's' as u32 {
        lemma_first_letter_differs(s, "sub"@);
    }
    if lower_code(s[0]) != 'm' as u32 {
        lemma_first_letter_differs(s, "mul"@);
    }
    if lower_code(s[0]) != 'd' as u32 {
        lemma_first_letter_differs(s, "div"@);
    }
    if lower_code(s[0]) != 'l' as u32 {
        lemma_first_letter_differs(s, "label"@);
    }
    if lower_code(s[0]) != 'j' as u32 {
        lemma_first_letter_differs(s, "jmp"@);
    }
}

/// The capital mnemonics are read as their operations, and hold neither
/// space nor line feed.
proof fn lemma_capital_mnemonics()
    ensures
        mnemonic(seq!['R', 'E', 'G']) == Some(Mnemonic::Reg),
        mnemonic(seq!['A', 'D', 'D']) == Some(Mnemonic::Add),
        mnemonic(seq!['S', 'U', 'B']) == Some(Mnemonic::Sub),
        mnemonic(seq!['M', 'U', 'L']) == Some(Mnemonic::Mul),
        mnemonic(seq!['D', 'I', 'V']) == Some(Mnemonic::Div),
        mnemonic(seq!['L', 'A', 'B', 'E', 'L']) == Some(Mnemonic::Label),
        mnemonic(seq!['J', 'M', 'P']) == Some(Mnemonic::Jmp),
        "REG "@ == seq!['R', 'E', 'G'] + seq![' '],
        "ADD "@ == seq!['A', 'D', 'D'] + seq![' '],
        "SUB "@ == seq!['S', 'U', 'B'] + seq![' '],
        "MUL "@ == seq!['M', 'U', 'L'] + seq![' '],
        "DIV "@ == seq!['D', 'I', 'V'] + seq![' '],
        "LABEL "@ == seq!['L', 'A', 'B', 'E', 'L'] + seq![' '],
        "JMP "@ == seq!['J', 'M', 'P'] + seq![' '],
{
    reveal_strlit("hlt");
    reveal_strlit("reg");
    reveal_strlit("add");
    reveal_strlit("sub");
    reveal_strlit("mul");
    reveal_strlit("div");
    reveal_strlit("label");
    reveal_strlit("jmp");
    reveal_strlit("REG ");
    reveal_strlit("ADD ");
    reveal_strlit("SUB ");
    reveal_strlit("MUL ");
    reveal_strlit("DIV ");
    reveal_strlit("LABEL ");
    reveal_strlit("JMP ");
    assert("REG "@ =~= seq!['R', 'E', 'G'] + seq![' ']);
    assert("ADD "@ =~= seq!['A', 'D', 'D'] + seq![' ']);
    assert("SUB "@ =~= seq!['S', 'U', 'B'] + seq![' ']);
    assert("MUL "@ =~= seq!['M', 'U', 'L'] + seq![' ']);
    assert("DIV "@ =~= seq!['D', 'I', 'V'] + seq![' ']);
    assert("LABEL "@ =~= seq!['L', 'A', 'B', 'E', 'L'] + seq![' ']);
    assert("JMP "@ =~= seq!['J', 'M', 'P'] + seq![' ']);
    lemma_other_mnemonics(seq!['R', 'E', 'G']);
    lemma_other_mnemonics(seq!['A', 'D', 'D']);
    lemma_other_mnemonics(seq!['S', 'U', 'B']);
    lemma_other_mnemonics(seq!['M', 'U', 'L']);
    lemma_other_mnemonics(seq!['D', 'I', 'V']);
    lemma_other_mnemonics(seq!['L', 'A', 'B', 'E', 'L']);
    lemma_other_mnemonics(seq!['J', 'M', 'P']);
}

proof fn lemma_short_excludes(m: Seq<char>, c: char)
    requires
        forall|i: int| 0 <= i < m.len() ==> 0x41 <= (#[trigger] m[i]) as u32 <= 0x5A,
        c == ' ' || c == '\n',
    ensures
        !m.contains(c),
{
    if m.contains(c) {
        let k = choose|k: int| 0 <= k < m.len() && m[k] == c;
        assert(0x41 <= m[k] as u32);
    }
}

/// The canonical text of an arithmetic instruction on register 0 is read
/// as that instruction.
proof fn lemma_arithmetic_read(m: Seq<char>, kind: Mnemonic)
    requires
        forall|i: int| 0 <= i < m.len() ==> 0x41 <= (#[trigger] m[i]) as u32 <= 0x5A,
        mnemonic(m) == Some(kind),
        kind == Mnemonic::Add || kind == Mnemonic::Sub || kind == Mnemonic::Mul || kind
            == Mnemonic::Div,
    ensures
        parse_line(rendered_arithmetic(m + seq![' '], 0, 0, 0), false) == Line::Emit(
            arithmetic(kind, 0, 0, 0),
        ),
        !rendered_arithmetic(m + seq![' '], 0, 0, 0).contains('\n'),
{
    lemma_short_excludes(m, ' ');
    lemma_short_excludes(m, '\n');
    lemma_three_zeros(m, rendered_arithmetic(m + seq![' '], 0, 0, 0));
    lemma_zero_register();
}

/// The canonical text of an instruction that reads back is a line without
/// line feed that the assembler reads as that instruction.
pub proof fn lemma_line_read_back(op: Op)
    requires
        reads_back(op),
    ensures
        parse_line(rendered(op), false) == Line::Emit(op),
        !rendered(op).contains('\n'),
{
    lemma_capital_mnemonics();
    match op {
        Op::Hlt => {},
        Op::Reg(r, v) => {
            reveal_strlit(", ");
            let m = seq!['R', 'E', 'G'];
            let zero = seq!['0'];
            let digits = decimal(v as nat);
            let spaced = seq![' '] + digits;
            let tail = zero + ", "@ + digits;
            let line = rendered(op);
            lemma_decimal_read(v as nat);
            lemma_number_read(v);
            lemma_zero_register();
            assert(decimal(0) =~= zero);
            assert(line =~= m + seq![' '] + tail);
            lemma_short_excludes(m, ' ');
            lemma_short_excludes(m, '\n');
            lemma_split_first(m, tail, ' ');
            assert(line.skip(m.len() as int + 1) =~= tail);
            assert(tail =~= zero + seq![','] + spaced);
            assert(all_digits(zero));
            lemma_digits_exclude(zero, ',');
            lemma_digits_exclude(digits, ',');
            lemma_digits_exclude(zero, '\n');
            lemma_digits_exclude(digits, '\n');
            assert(!seq![' '].contains(',')) by {
                if seq![' '].contains(',') {
                    let k = choose|k: int| 0 <= k < seq![' '].len() && seq![' '][k] == ',';
                }
            }
            assert(!seq![' '].contains('\n')) by {
                if seq![' '].contains('\n') {
                    let k = choose|k: int| 0 <= k < seq![' '].len() && seq![' '][k] == '\n';
                }
            }
            assert(!seq![','].contains('\n')) by {
                if seq![','].contains('\n') {
                    let k = choose|k: int| 0 <= k < seq![','].len() && seq![','][k] == '\n';
                }
            }
            lemma_concat_excludes(seq![' '], digits, ',');
            lemma_split_whole(zero, ',');
            lemma_split_append(zero, spaced, ',');
            assert(split_on(tail, ',') =~= seq![zero, spaced]);
            lemma_trim_digits(zero);
            lemma_trim_digits(digits);
            lemma_concat_excludes(m, seq![' '], '\n');
            lemma_concat_excludes(zero, seq![','], '\n');
            lemma_concat_excludes(seq![' '], digits, '\n');
            lemma_concat_excludes(zero + seq![','], spaced, '\n');
            lemma_concat_excludes(m + seq![' '], tail, '\n');
        },
        Op::Add(x, y, d) => {
            lemma_arithmetic_read(seq!['A', 'D', 'D'], Mnemonic::Add);
        },
        Op::Sub(x, y, d) => {
            lemma_arithmetic_read(seq!['S', 'U', 'B'], Mnemonic::Sub);
        },
        Op::Mul(x, y, d) => {
            lemma_arithmetic_read(seq!['M', 'U', 'L'], Mnemonic::Mul);
        },
        Op::Div(x, y, d) => {
            lemma_arithmetic_read(seq!['D', 'I', 'V'], Mnemonic::Div);
        },
        Op::Label(name) => {
            lemma_name_read(seq!['L', 'A', 'B', 'E', 'L'], name);
        },
        Op::Jmp(name) => {
            lemma_name_read(seq!['J', 'M', 'P'], name);
        },
    }
}

proof fn lemma_name_read(m: Seq<char>, name: Seq<char>)
    requires
        forall|i: int| 0 <= i < m.len() ==> 0x41 <= (#[trigger] m[i]) as u32 <= 0x5A,
        plain_name(name),
    ensures
        split_on(m + seq![' '] + name, ' ').len() >= 2,
        split_on(m + seq![' '] + name, ' ')[0] == m,
        split_on((m + seq![' '] + name).skip(m.len() as int + 1), ',') == seq![name],
        !(m + seq![' '] + name).contains('\n'),
{
    let line = m + seq![' '] + name;
    lemma_short_excludes(m, ' ');
    lemma_short_excludes(m, '\n');
    lemma_split_first(m, name, ' ');
    assert(line.skip(m.len() as int + 1) =~= name);
    lemma_split_whole(name, ',');
    assert(!seq![' '].contains('\n')) by {
        if seq![' '].contains('\n') {
            let k = choose|k: int| 0 <= k < seq![' '].len() && seq![' '][k] == '\n';
        }
    }
    lemma_concat_excludes(m, seq![' '], '\n');
    lemma_concat_excludes(m + seq![' '], name, '\n');
}

/// Lines that are the canonical texts of instructions that read back
/// assemble to those instructions.
pub proof fn lemma_lines_read_back(program: Seq<Op>)
    requires
        forall|i: int| 0 <= i < program.len() ==> reads_back(#[trigger] program[i]),
    ensures
        assembled(program.map_values(|op: Op| rendered(op)), false) == Some(program),
    decreases program.len(),
{
    let lines = program.map_values(|op: Op| rendered(op));
    if program.len() > 0 {
        lemma_lines_read_back(program.drop_last());
        assert(lines.drop_last() =~= program.drop_last().map_values(|op: Op| rendered(op)));
        lemma_line_read_back(program.last());
        assert(program.drop_last().push(program.last()) =~= program);
    } else {
        assert(program =~= Seq::<Op>::empty());
    }
}

/// Assembling the listing of a program gives the program back, provided
/// that each of its instructions reads back.
pub proof fn lemma_listing_read_back(program: Seq<Op>)
    requires
        forall|i: int| 0 <= i < program.len() ==> reads_back(#[trigger] program[i]),
    ensures
        program_of(listing(program), false) == Some(program),
{
    let lines = program.map_values(|op: Op| rendered(op));
    if program.len() == 0 {
        let split = split_on(listing(program), '\n');
        assert(split =~= seq![Seq::<char>::empty()]);
        assert(split.drop_last() =~= Seq::<Seq<char>>::empty());
        assert(split_on(Seq::<char>::empty(), ' ').len() == 1);
        assert(parse_line(split.last(), false) == Line::Skip);
        assert(assembled(split.drop_last(), false) == Some(Seq::<Op>::empty()));
        assert(program =~= Seq::<Op>::empty());
    } else {
        assert forall|i: int| 0 <= i < lines.len() implies !(#[trigger] lines[i]).contains(
            '\n',
        ) by {
            lemma_line_read_back(program[i]);
        }
        lemma_split_joined(lines, '\n');
        lemma_lines_read_back(program);
    }
}

/// Trimming the front leaves nothing, or something that begins with no
/// white space; it brings in no character.
proof fn lemma_trim_start(s: Seq<char>, c: char)
    ensures
        trim_start(s).len() == 0 || !is_space(trim_start(s)[0]),
        !s.contains(c) ==> !trim_start(s).contains(c),
    decreases s.len(),
{
    if s.len() > 0 && is_space(s[0]) {
        lemma_trim_start(s.drop_first(), c);
        if s.drop_first().contains(c) {
            let k = choose|k: int| 0 <= k < s.drop_first().len() && s.drop_first()[k] == c;
            assert(s[k + 1] == c);
        }
    }
}

/// Trimming the end leaves nothing, or something that begins as before
/// and ends with no white space; it brings in no character.
proof fn lemma_trim_end(s: Seq<char>, c: char)
    ensures
        trim_end(s).len() == 0 || (!is_space(trim_end(s).last()) && trim_end(s)[0] == s[0]),
        !s.contains(c) ==> !trim_end(s).contains(c),
    decreases s.len(),
{
    if s.len() > 0 && is_space(s.last()) {
        lemma_trim_end(s.drop_last(), c);
        if s.drop_last().contains(c) {
            let k = choose|k: int| 0 <= k < s.drop_last().len() && s.drop_last()[k] == c;
            assert(s[k] == c);
        }
    }
}

/// A trimmed argument that held neither comma nor line feed is a plain name.
proof fn lemma_trimmed_plain(s: Seq<char>)
    requires
        !s.contains(','),
        !s.contains('\n'),
    ensures
        plain_name(trimmed(s)),
{
    let front = trim_start(s);
    let t = trimmed(s);
    lemma_trim_start(s, ',');
    lemma_trim_start(s, '\n');
    lemma_trim_end(front, ',');
    lemma_trim_end(front, '\n');
    if t.len() > 0 {
        assert(trim_start(t) == t);
        assert(trim_end(t) == t);
    } else {
        assert(trim_start(t) == t);
    }
}

/// A name that the assembler takes from a line is plain.
proof fn lemma_line_name_plain(line: Seq<char>, op: Op)
    requires
        !line.contains('\n'),
        parse_line(line, false) == Line::Emit(op),
    ensures
        name_is_plain(op),
{
    let parts = split_on(line, ' ');
    lemma_split_first_bound(line, ' ');
    let rest = line.skip(parts[0].len() as int + 1);
    if rest.contains('\n') {
        let k = choose|k: int| 0 <= k < rest.len() && rest[k] == '\n';
        assert(line[k + parts[0].len() + 1] == '\n');
    }
    lemma_split_pieces_exclude(rest, ',', ',');
    lemma_split_pieces_exclude(rest, ',', '\n');
    let args = split_on(rest, ',');
    lemma_trimmed_plain(args[0]);
}

/// The names in what lines assemble to are plain.
proof fn lemma_assembled_names_plain(lines: Seq<Seq<char>>, program: Seq<Op>)
    requires
        assembled(lines, false) == Some(program),
        forall|j: int| 0 <= j < lines.len() ==> !(#[trigger] lines[j]).contains('\n'),
    ensures
        forall|i: int| 0 <= i < program.len() ==> name_is_plain(#[trigger] program[i]),
    decreases lines.len(),
{
    if lines.len() > 0 {
        let before = assembled(lines.drop_last(), false)->0;
        assert forall|j: int| 0 <= j < lines.drop_last().len() implies !(
        #[trigger] lines.drop_last()[j]).contains('\n') by {
            assert(lines.drop_last()[j] == lines[j]);
        }
        lemma_assembled_names_plain(lines.drop_last(), before);
        match parse_line(lines.last(), false) {
            Line::Emit(op) => {
                assert(lines.last() == lines[lines.len() - 1]);
                lemma_line_name_plain(lines.last(), op);
            },
            _ => {},
        }
    }
}

/// Assembling is idempotent through the listing: where a source assembles
/// to a program whose canonical text keeps its operands, the listing of
/// that program assembles to the same program.
pub proof fn lemma_assembly_idempotent(source: Seq<char>, program: Seq<Op>)
    requires
        program_of(source, false) == Some(program),
        forall|i: int| 0 <= i < program.len() ==> keeps_operands(#[trigger] program[i]),
    ensures
        program_of(listing(program), false) == Some(program),
{
    lemma_split_pieces_exclude(source, '\n', '\n');
    lemma_assembled_names_plain(split_on(source, '\n'), program);
    assert forall|i: int| 0 <= i < program.len() implies reads_back(#[trigger] program[i]) by {
        assert(keeps_operands(program[i]));
        assert(name_is_plain(program[i]));
    }
    lemma_listing_read_back(program);
}

} // verus!
