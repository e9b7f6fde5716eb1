//! The assembler: from lines of mnemonic source to instructions.
//!
//! A line is a mnemonic, one space, and arguments separated by commas.
//! Mnemonics and register names are matched without regard to case. A line
//! without a space, with an unknown mnemonic, or with fewer register
//! arguments than its arithmetic mnemonic takes, contributes nothing. Only
//! a `reg` line whose number is missing or malformed makes the whole source
//! invalid. The two dialects differ in the names of the registers alone.

use vstd::prelude::*;
use vstd::std_specs::iter::IteratorSpec;
use vstd::string::*;
use crate::instruction::{ops, Instruction, Op};
use crate::stream::split_on;

verus! {

/// Whether `c` is white space: the characters that trimming removes.
pub open spec fn is_space(c: char) -> bool {
    let u = c as u32;
    ||| 0x09 <= u <= 0x0D
    ||| u == 0x20
    ||| u == 0x85
    ||| u == 0xA0
    ||| u == 0x1680
    ||| 0x2000 <= u <= 0x200A
    ||| u == 0x2028
    ||| u == 0x2029
    ||| u == 0x202F
    ||| u == 0x205F
    ||| u == 0x3000
}

/// `s` without its leading white space.
pub open spec fn trim_start(s: Seq<char>) -> Seq<char>
    decreases s.len(),
{
    if s.len() > 0 && is_space(s[0]) {
        trim_start(s.drop_first())
    } else {
        s
    }
}

/// `s` without its trailing white space.
pub open spec fn trim_end(s: Seq<char>) -> Seq<char>
    decreases s.len(),
{
    if s.len() > 0 && is_space(s.last()) {
        trim_end(s.drop_last())
    } else {
        s
    }
}

/// `s` without leading and trailing white space.
pub open spec fn trimmed(s: Seq<char>) -> Seq<char> {
    trim_end(trim_start(s))
}

/// The code of `c`, with the letters `A` to `Z` taken to `a` to `z`.
pub open spec fn lower_code(c: char) -> u32 {
    let u = c as u32;
    if 0x41 <= u <= 0x5A {
        (u + 0x20) as u32
    } else {
        u
    }
}

/// Whether `s` is `word` without regard to case; `word` is in lower case.
pub open spec fn is_word(s: Seq<char>, word: Seq<char>) -> bool {
    s.len() == word.len() && forall|i: int|
        0 <= i < s.len() ==> lower_code(#[trigger] s[i]) == word[i] as u32
}

/// The operations that a mnemonic can name.
#[derive(Debug, Clone, Copy, PartialEq, Eq)]
pub enum Mnemonic {
    Hlt,
    Reg,
    Add,
    Sub,
    Mul,
    Div,
    Label,
    Jmp,
}

/// The operation that `name` stands for, the same in both dialects.
pub open spec fn mnemonic(name: Seq<char>) -> Option<Mnemonic> {
    if is_word(name, "hlt"@) {
        Some(Mnemonic::Hlt)
    } else if is_word(name, "reg"@) {
        Some(Mnemonic::Reg)
    } else if is_word(name, "add"@) {
        Some(Mnemonic::Add)
    } else if is_word(name, "sub"@) {
        Some(Mnemonic::Sub)
    } else if is_word(name, "mul"@) {
        Some(Mnemonic::Mul)
    } else if is_word(name, "div"@) {
        Some(Mnemonic::Div)
    } else if is_word(name, "label"@) {
        Some(Mnemonic::Label)
    } else if is_word(name, "jmp"@) {
        Some(Mnemonic::Jmp)
    } else {
        None
    }
}

/// The index that a register token stands for: `ra`, `rb`, `rc`, `rd` are
/// 0 to 3 (in the legacy dialect `rx`, `ry`, `rz`, `ra`); any other token is 0.
pub open spec fn register_index(token: Seq<char>, legacy: bool) -> u8 {
    if legacy {
        if is_word(token, "ry"@) {
            1
        } else if is_word(token, "rz"@) {
            2
        } else if is_word(token, "ra"@) {
            3
        } else {
            0
        }
    } else {
        if is_word(token, "rb"@) {
            1
        } else if is_word(token, "rc"@) {
            2
        } else if is_word(token, "rd"@) {
            3
        } else {
            0
        }
    }
}

/// Whether `c` is one of `0` to `9`.
pub open spec fn is_digit(c: char) -> bool {
    0x30 <= c as u32 <= 0x39
}

/// The value of a digit, 0 for any other character.
pub open spec fn digit_value(c: char) -> nat {
    if is_digit(c) {
        (c as u32 - 0x30) as nat
    } else {
        0
    }
}

/// The value of a sequence of digits read as a decimal number.
pub open spec fn decimal_value(s: Seq<char>) -> nat
    decreases s.len(),
{
    if s.len() == 0 {
        0
    } else {
        10 * decimal_value(s.drop_last()) + digit_value(s.last())
    }
}

/// The digits of a numeric token: the token without one leading `+`.
pub open spec fn unsigned_part(token: Seq<char>) -> Seq<char> {
    if token.len() > 0 && token[0] == '+' {
        token.skip(1)
    } else {
        token
    }
}

/// The number that a token denotes: one or more decimal digits after an
/// optional `+`, with a value that fits a machine word. Anything else is
/// malformed.
pub open spec fn number(token: Seq<char>) -> Option<usize> {
    let digits = unsigned_part(token);
    if digits.len() > 0 && (forall|i: int| 0 <= i < digits.len() ==> is_digit(#[trigger] digits[i]))
        && decimal_value(digits) <= usize::MAX {
        Some(decimal_value(digits) as usize)
    } else {
        None
    }
}

/// What one line of source comes to.
pub enum Line {
    /// The line contributes nothing.
    Skip,
    /// The line is this instruction.
    Emit(Op),
    /// The line sets a register but its number is missing or malformed.
    Invalid,
}

/// The instruction with three register arguments that `m` names.
pub open spec fn arithmetic(m: Mnemonic, x: u8, y: u8, d: u8) -> Op {
    match m {
        Mnemonic::Add => Op::Add(x, y, d),
        Mnemonic::Sub => Op::Sub(x, y, d),
        Mnemonic::Mul => Op::Mul(x, y, d),
        _ => Op::Div(x, y, d),
    }
}

/// What `line` comes to. The mnemonic is what stands before the first
/// space; the arguments are what stands behind it, split at commas and
/// trimmed.
pub open spec fn parse_line(line: Seq<char>, legacy: bool) -> Line {
    let parts = split_on(line, ' ');
    if parts.len() < 2 {
        Line::Skip
    } else {
        let args = split_on(line.skip(parts[0].len() as int + 1), ',');
        match mnemonic(parts[0]) {
            None => Line::Skip,
            Some(Mnemonic::Hlt) => Line::Emit(Op::Hlt),
            Some(Mnemonic::Label) => Line::Emit(Op::Label(trimmed(args[0]))),
            Some(Mnemonic::Jmp) => Line::Emit(Op::Jmp(trimmed(args[0]))),
            Some(Mnemonic::Reg) => {
                if args.len() < 2 {
                    Line::Invalid
                } else {
                    match number(trimmed(args[1])) {
                        None => Line::Invalid,
                        Some(v) => Line::Emit(
                            Op::Reg(register_index(trimmed(args[0]), legacy), v),
                        ),
                    }
                }
            },
            Some(m) => {
                if args.len() < 3 {
                    Line::Skip
                } else {
                    Line::Emit(
                        arithmetic(
                            m,
                            register_index(trimmed(args[0]), legacy),
                            register_index(trimmed(args[1]), legacy),
                            register_index(trimmed(args[2]), legacy),
                        ),
                    )
                }
            },
        }
    }
}

/// The instructions of the lines, in the order of the lines, or `None`
/// where a line is invalid.
pub open spec fn assembled(lines: Seq<Seq<char>>, legacy: bool) -> Option<Seq<Op>>
    decreases lines.len(),
{
    if lines.len() == 0 {
        Some(Seq::<Op>::empty())
    } else {
        match assembled(lines.drop_last(), legacy) {
            None => None,
            Some(before) => match parse_line(lines.last(), legacy) {
                Line::Skip => Some(before),
                Line::Emit(op) => Some(before.push(op)),
                Line::Invalid => None,
            },
        }
    }
}

/// The program that a source text denotes: its lines, split at line feeds,
/// assembled in order.
pub open spec fn program_of(source: Seq<char>, legacy: bool) -> Option<Seq<Op>> {
    assembled(split_on(source, '\n'), legacy)
}

/// The pieces of `v` that the index ranges mark.
pub open spec fn pieces(v: Seq<char>, ranges: Seq<(usize, usize)>) -> Seq<Seq<char>> {
    Seq::new(ranges.len(), |k: int| v.subrange(ranges[k].0 as int, ranges[k].1 as int))
}

/// The characters of a string.
pub fn chars_of(s: &str) -> (v: Vec<char>)
    ensures
        v@ == s@,
{
    broadcast use vstd::string::group_string_axioms;

    let mut v: Vec<char> = Vec::new();
    let mut it = s.chars();
    loop
        invariant
            it.obeys_prophetic_iter_laws(),
            it.decrease() is Some,
            v@ + it.remaining() == s@,
        decreases it.decrease()->0,
    {
        match it.next() {
            Some(c) => {
                v.push(c);
                assert(v@ + it.remaining() =~= s@);
            },
            None => {
                assert(v@ =~= s@);
                return v;
            },
        }
    }
}

/// Marks the pieces of `v[lo..hi]` between occurrences of `d`: each range
/// begins where the one before it ended, one delimiter further.
pub fn split_chars(v: &Vec<char>, lo: usize, hi: usize, d: char) -> (out: Vec<(usize, usize)>)
    requires
        lo <= hi <= v@.len(),
    ensures
        pieces(v@, out@) == split_on(v@.subrange(lo as int, hi as int), d),
        out@.len() > 0,
        out@[0].0 == lo,
        forall|k: int| 0 <= k < out@.len() ==> lo <= (#[trigger] out@[k]).0 <= out@[k].1 <= hi,
        forall|k: int| 0 < k < out@.len() ==> (#[trigger] out@[k]).0 == out@[k - 1].1 + 1,
{
    let mut out: Vec<(usize, usize)> = Vec::new();
    let mut start: usize = lo;
    let mut i: usize = lo;
    assert(v@.subrange(lo as int, lo as int) =~= Seq::<char>::empty());
    assert(split_on(v@.subrange(lo as int, lo as int), d) =~= pieces(v@, out@).push(
        v@.subrange(lo as int, lo as int),
    ));
    while i < hi
        invariant
            lo <= start <= i <= hi <= v@.len(),
            split_on(v@.subrange(lo as int, i as int), d) == pieces(v@, out@).push(
                v@.subrange(start as int, i as int),
            ),
            out@.len() == 0 ==> start == lo,
            out@.len() > 0 ==> out@[0].0 == lo && start == out@[out@.len() - 1].1 + 1,
            forall|k: int| 0 <= k < out@.len() ==> lo <= (#[trigger] out@[k]).0 <= out@[k].1 < i,
            forall|k: int| 0 < k < out@.len() ==> (#[trigger] out@[k]).0 == out@[k - 1].1 + 1,
        decreases hi - i,
    {
        let ghost piece = v@.subrange(start as int, i as int);
        let ghost done = pieces(v@, out@);
        proof {
            let next = v@.subrange(lo as int, i + 1);
            assert(next.drop_last() =~= v@.subrange(lo as int, i as int));
            assert(next.last() == v@[i as int]);
            assert(done.push(piece).drop_last() =~= done);
            assert(done.push(piece).last() == piece);
        }
        if v[i] == d {
            out.push((start, i));
            start = i + 1;
            proof {
                assert(pieces(v@, out@) =~= done.push(piece));
                assert(v@.subrange(i + 1, i + 1) =~= Seq::<char>::empty());
            }
        } else {
            assert(v@.subrange(start as int, i + 1) =~= piece.push(v@[i as int]));
        }
        i += 1;
    }
    let ghost done = pieces(v@, out@);
    out.push((start, hi));
    assert(pieces(v@, out@) =~= done.push(v@.subrange(start as int, hi as int)));
    out
}

fn space(c: char) -> (res: bool)
    ensures
        res == is_space(c),
{
    let u: u32 = c as u32;
    (0x09 <= u && u <= 0x0D) || u == 0x20 || u == 0x85 || u == 0xA0 || u == 0x1680 || (0x2000 <= u
        && u <= 0x200A) || u == 0x2028 || u == 0x2029 || u == 0x202F || u == 0x205F || u == 0x3000
}

/// Narrows the range `lo..hi` of `v` to what is left when white space is
/// trimmed from both ends.
pub fn trim_range(v: &Vec<char>, lo: usize, hi: usize) -> (out: (usize, usize))
    requires
        lo <= hi <= v@.len(),
    ensures
        lo <= out.0 <= out.1 <= hi,
        v@.subrange(out.0 as int, out.1 as int) == trimmed(v@.subrange(lo as int, hi as int)),
{
    let mut a: usize = lo;
    while a < hi && space(v[a])
        invariant
            lo <= a <= hi <= v@.len(),
            trim_start(v@.subrange(a as int, hi as int)) == trim_start(
                v@.subrange(lo as int, hi as int),
            ),
        decreases hi - a,
    {
        assert(v@.subrange(a as int, hi as int).drop_first() =~= v@.subrange(a + 1, hi as int));
        a += 1;
    }
    let mut b: usize = hi;
    while a < b && space(v[b - 1])
        invariant
            a <= b <= hi <= v@.len(),
            trim_end(v@.subrange(a as int, b as int)) == trim_end(
                v@.subrange(a as int, hi as int),
            ),
        decreases b - a,
    {
        assert(v@.subrange(a as int, b as int).drop_last() =~= v@.subrange(a as int, b - 1));
        b -= 1;
    }
    (a, b)
}

/// Whether `v[lo..hi]` is `word` without regard to case.
pub fn word_at(v: &Vec<char>, lo: usize, hi: usize, word: &str) -> (res: bool)
    requires
        lo <= hi <= v@.len(),
    ensures
        res == is_word(v@.subrange(lo as int, hi as int), word@),
{
    let n = word.unicode_len();
    if hi - lo != n {
        return false;
    }
    let mut i: usize = 0;
    while i < n
        invariant
            i <= n,
            n == word@.len(),
            hi - lo == n,
            lo <= hi <= v@.len(),
            forall|j: int|
                0 <= j < i ==> lower_code(#[trigger] v@.subrange(lo as int, hi as int)[j])
                    == word@[j] as u32,
        decreases n - i,
    {
        let u: u32 = v[lo + i] as u32;
        let folded: u32 = if 0x41 <= u && u <= 0x5A {
            u + 0x20
        } else {
            u
        };
        if folded != word.get_char(i) as u32 {
            assert(v@.subrange(lo as int, hi as int)[i as int] == v@[lo + i]);
            return false;
        }
        assert(v@.subrange(lo as int, hi as int)[i as int] == v@[lo + i]);
        i += 1;
    }
    true
}

/// The operation that the mnemonic `v[lo..hi]` names.
pub fn mnemonic_at(v: &Vec<char>, lo: usize, hi: usize) -> (res: Option<Mnemonic>)
    requires
        lo <= hi <= v@.len(),
    ensures
        res == mnemonic(v@.subrange(lo as int, hi as int)),
{
    if word_at(v, lo, hi, "hlt") {
        Some(Mnemonic::Hlt)
    } else if word_at(v, lo, hi, "reg") {
        Some(Mnemonic::Reg)
    } else if word_at(v, lo, hi, "add") {
        Some(Mnemonic::Add)
    } else if word_at(v, lo, hi, "sub") {
        Some(Mnemonic::Sub)
    } else if word_at(v, lo, hi, "mul") {
        Some(Mnemonic::Mul)
    } else if word_at(v, lo, hi, "div") {
        Some(Mnemonic::Div)
    } else if word_at(v, lo, hi, "label") {
        Some(Mnemonic::Label)
    } else if word_at(v, lo, hi, "jmp") {
        Some(Mnemonic::Jmp)
    } else {
        None
    }
}

/// The register index that the token `v[lo..hi]` stands for.
pub fn register_at(v: &Vec<char>, lo: usize, hi: usize, legacy: bool) -> (res: u8)
    requires
        lo <= hi <= v@.len(),
    ensures
        res == register_index(v@.subrange(lo as int, hi as int), legacy),
{
    if legacy {
        if word_at(v, lo, hi, "ry") {
            1
        } else if word_at(v, lo, hi, "rz") {
            2
        } else if word_at(v, lo, hi, "ra") {
            3
        } else {
            0
        }
    } else {
        if word_at(v, lo, hi, "rb") {
            1
        } else if word_at(v, lo, hi, "rc") {
            2
        } else if word_at(v, lo, hi, "rd") {
            3
        } else {
            0
        }
    }
}

/// A longer sequence of digits has no smaller value than its beginning.
pub proof fn lemma_decimal_value_grows(s: Seq<char>, n: int)
    requires
        0 <= n <= s.len(),
    ensures
        decimal_value(s.take(n)) <= decimal_value(s),
    decreases s.len(),
{
    if n == s.len() {
        assert(s.take(n) =~= s);
    } else {
        assert(s.drop_last().take(n) =~= s.take(n));
        lemma_decimal_value_grows(s.drop_last(), n);
    }
}

/// The number that the token `v[lo..hi]` denotes, or `None` where it is malformed.
pub fn number_at(v: &Vec<char>, lo: usize, hi: usize) -> (res: Option<usize>)
    requires
        lo <= hi <= v@.len(),
    ensures
        res == number(v@.subrange(lo as int, hi as int)),
{
    let ghost token = v@.subrange(lo as int, hi as int);
    let mut start: usize = lo;
    if lo < hi && v[lo] == '+' {
        start = lo + 1;
    }
    let ghost digits = v@.subrange(start as int, hi as int);
    assert(digits =~= unsigned_part(token));
    if start == hi {
        return None;
    }
    let mut i: usize = start;
    let mut value: usize = 0;
    assert(v@.subrange(start as int, start as int) =~= Seq::<char>::empty());
    while i < hi
        invariant
            start <= i <= hi <= v@.len(),
            lo <= hi,
            digits == v@.subrange(start as int, hi as int),
            digits == unsigned_part(v@.subrange(lo as int, hi as int)),
            value == decimal_value(v@.subrange(start as int, i as int)),
            forall|j: int| 0 <= j < i - start ==> is_digit(#[trigger] digits[j]),
        decreases hi - i,
    {
        let u: u32 = v[i] as u32;
        if u < 0x30 || u > 0x39 {
            assert(!is_digit(digits[i - start]));
            return None;
        }
        let d: usize = (u - 0x30) as usize;
        proof {
            let next = v@.subrange(start as int, i + 1);
            assert(next.drop_last() =~= v@.subrange(start as int, i as int));
            assert(next.last() == v@[i as int]);
            assert(decimal_value(next) == 10 * value + d);
            assert(digits.take(i + 1 - start) =~= next);
            lemma_decimal_value_grows(digits, i + 1 - start);
        }
        if value > (usize::MAX - d) / 10 {
            return None;
        }
        value = value * 10 + d;
        i += 1;
    }
    assert(v@.subrange(start as int, i as int) =~= digits);
    Some(value)
}

/// What one line of source comes to, with the instruction built.
#[derive(Debug, PartialEq, Eq)]
pub enum ParsedLine {
    /// The line contributes nothing.
    Skip,
    /// The line is this instruction.
    Emit(Instruction),
    /// The line sets a register but its number is missing or malformed.
    Invalid,
}

impl View for ParsedLine {
    type V = Line;

    open spec fn view(&self) -> Line {
        match *self {
            ParsedLine::Skip => Line::Skip,
            ParsedLine::Emit(inst) => Line::Emit(inst@),
            ParsedLine::Invalid => Line::Invalid,
        }
    }
}

/// Whether each range lies in `v`, first index before last.
pub open spec fn ranges_within(v: Seq<char>, ranges: Seq<(usize, usize)>) -> bool {
    forall|k: int| 0 <= k < ranges.len() ==> (#[trigger] ranges[k]).0 <= ranges[k].1 <= v.len()
}

fn trimmed_arg(v: &Vec<char>, args: &Vec<(usize, usize)>, k: usize) -> (out: (usize, usize))
    requires
        k < args@.len(),
        ranges_within(v@, args@),
    ensures
        out.0 <= out.1 <= v@.len(),
        v@.subrange(out.0 as int, out.1 as int) == trimmed(pieces(v@, args@)[k as int]),
{
    let range = args[k];
    trim_range(v, range.0, range.1)
}

fn register_arg(v: &Vec<char>, args: &Vec<(usize, usize)>, k: usize, legacy: bool) -> (res: u8)
    requires
        k < args@.len(),
        ranges_within(v@, args@),
    ensures
        res == register_index(trimmed(pieces(v@, args@)[k as int]), legacy),
{
    let token = trimmed_arg(v, args, k);
    register_at(v, token.0, token.1, legacy)
}

fn name_arg(s: &str, v: &Vec<char>, args: &Vec<(usize, usize)>) -> (res: String)
    requires
        v@ == s@,
        0 < args@.len(),
        ranges_within(v@, args@),
    ensures
        res@ == trimmed(pieces(v@, args@)[0]),
{
    let token = trimmed_arg(v, args, 0);
    s.substring_char(token.0, token.1).to_owned()
}

/// Parses the line `v[lo..hi]` of the source `s`, whose characters are `v`.
pub fn parse_line_at(s: &str, v: &Vec<char>, lo: usize, hi: usize, legacy: bool) -> (res:
    ParsedLine)
    requires
        v@ == s@,
        lo <= hi <= v@.len(),
    ensures
        res@ == parse_line(v@.subrange(lo as int, hi as int), legacy),
{
    let ghost line = v@.subrange(lo as int, hi as int);
    let parts = split_chars(v, lo, hi, ' ');
    if parts.len() < 2 {
        return ParsedLine::Skip;
    }
    let name_end = parts[0].1;
    assert(parts@[1].0 == parts@[0].1 + 1);
    let args = split_chars(v, name_end + 1, hi, ',');
    proof {
        assert(pieces(v@, parts@)[0] == v@.subrange(lo as int, name_end as int));
        assert(line.skip(name_end - lo + 1) =~= v@.subrange(name_end + 1, hi as int));
        assert(ranges_within(v@, args@));
    }
    match mnemonic_at(v, lo, name_end) {
        None => ParsedLine::Skip,
        Some(Mnemonic::Hlt) => ParsedLine::Emit(Instruction::Hlt),
        Some(Mnemonic::Label) => ParsedLine::Emit(Instruction::Label(name_arg(s, v, &args))),
        Some(Mnemonic::Jmp) => ParsedLine::Emit(Instruction::Jmp(name_arg(s, v, &args))),
        Some(Mnemonic::Reg) => {
            if args.len() < 2 {
                return ParsedLine::Invalid;
            }
            let r = register_arg(v, &args, 0, legacy);
            let token = trimmed_arg(v, &args, 1);
            match number_at(v, token.0, token.1) {
                None => ParsedLine::Invalid,
                Some(value) => ParsedLine::Emit(Instruction::Reg(r, value)),
            }
        },
        Some(m) => {
            if args.len() < 3 {
                return ParsedLine::Skip;
            }
            let x = register_arg(v, &args, 0, legacy);
            let y = register_arg(v, &args, 1, legacy);
            let d = register_arg(v, &args, 2, legacy);
            ParsedLine::Emit(
                match m {
                    Mnemonic::Add => Instruction::Add(x, y, d),
                    Mnemonic::Sub => Instruction::Sub(x, y, d),
                    Mnemonic::Mul => Instruction::Mul(x, y, d),
                    _ => Instruction::Div(x, y, d),
                },
            )
        },
    }
}

/// Lines with an invalid line among the first `n` are invalid as a whole.
pub proof fn lemma_assembled_prefix(lines: Seq<Seq<char>>, n: int, legacy: bool)
    requires
        0 <= n <= lines.len(),
        assembled(lines.take(n), legacy) is None,
    ensures
        assembled(lines, legacy) is None,
    decreases lines.len(),
{
    if n == lines.len() {
        assert(lines.take(n) =~= lines);
    } else {
        assert(lines.drop_last().take(n) =~= lines.take(n));
        lemma_assembled_prefix(lines.drop_last(), n, legacy);
    }
}

/// Assembles a source text: the instructions of its lines in order, or
/// `None` where a `reg` line has a missing or malformed number.
pub fn assemble(s: &str, legacy: bool) -> (res: Option<Vec<Instruction>>)
    ensures
        match res {
            Some(program) => program_of(s@, legacy) == Some(ops(program@)),
            None => program_of(s@, legacy) is None,
        },
{
    let v = chars_of(s);
    let lines = split_chars(&v, 0, v.len(), '\n');
    assert(v@.subrange(0, v@.len() as int) =~= v@);
    let ghost all = pieces(v@, lines@);
    let mut out: Vec<Instruction> = Vec::new();
    let mut k: usize = 0;
    assert(all.take(0) =~= Seq::<Seq<char>>::empty());
    assert(ops(out@) =~= Seq::<Op>::empty());
    while k < lines.len()
        invariant
            v@ == s@,
            k <= lines@.len(),
            all == pieces(v@, lines@),
            all == split_on(s@, '\n'),
            forall|j: int|
                0 <= j < lines@.len() ==> (#[trigger] lines@[j]).0 <= lines@[j].1 <= v@.len(),
            assembled(all.take(k as int), legacy) == Some(ops(out@)),
        decreases lines@.len() - k,
    {
        let range = lines[k];
        let ghost before = out@;
        let parsed = parse_line_at(s, &v, range.0, range.1, legacy);
        proof {
            let next = all.take(k + 1);
            assert(next.drop_last() =~= all.take(k as int));
            assert(next.last() == v@.subrange(range.0 as int, range.1 as int));
        }
        match parsed {
            ParsedLine::Skip => {},
            ParsedLine::Emit(inst) => {
                out.push(inst);
                assert(ops(out@) =~= ops(before).push(inst@));
            },
            ParsedLine::Invalid => {
                proof {
                    lemma_assembled_prefix(all, k + 1, legacy);
                }
                return None;
            },
        }
        k += 1;
    }
    assert(all.take(k as int) =~= all);
    Some(out)
}

impl Instruction {
    /// Assembles a source text that holds no invalid line.
    pub fn from_text(s: &str) -> (out: Vec<Instruction>)
        requires
            program_of(s@, false) is Some,
        ensures
            Some(ops(out@)) == program_of(s@, false),
    {
        match assemble(s, false) {
            Some(program) => program,
            None => Vec::new(),
        }
    }

    /// Assembles a source text, or gives `None` where it holds an invalid line.
    pub fn try_from_text(s: &str) -> (res: Option<Vec<Instruction>>)
        ensures
            match res {
                Some(program) => program_of(s@, false) == Some(ops(program@)),
                None => program_of(s@, false) is None,
            },
    {
        assemble(s, false)
    }
}

} // verus!
