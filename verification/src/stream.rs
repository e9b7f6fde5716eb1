//! Streams of instructions: encoded instructions joined by a delimiter byte.

use vstd::prelude::*;
use vstd::slice::*;
use crate::instruction::{
    fits_wire, lemma_decode_encode, ops, parsed, wire, Instruction, Op,
};

verus! {

/// The byte that stands between two encoded instructions of a stream.
pub const DELIMITER: u8 = 0x0D;

/// The pieces of `s` between occurrences of `d`. There is always at least
/// one piece: a sequence without `d` is its own single piece.
pub open spec fn split_on<T>(s: Seq<T>, d: T) -> Seq<Seq<T>>
    decreases s.len(),
{
    if s.len() == 0 {
        seq![Seq::<T>::empty()]
    } else {
        let before = split_on(s.drop_last(), d);
        if s.last() == d {
            before.push(Seq::<T>::empty())
        } else {
            before.drop_last().push(before.last().push(s.last()))
        }
    }
}

/// The pieces with one `d` between each two.
pub open spec fn joined<T>(parts: Seq<Seq<T>>, d: T) -> Seq<T>
    decreases parts.len(),
{
    if parts.len() == 0 {
        Seq::<T>::empty()
    } else if parts.len() == 1 {
        parts[0]
    } else {
        joined(parts.drop_last(), d) + seq![d] + parts.last()
    }
}

/// The wire forms of the instructions.
pub open spec fn wires(program: Seq<Op>) -> Seq<Seq<u8>> {
    program.map_values(|op: Op| wire(op))
}

/// The wire forms of the instructions, with one delimiter between each two.
pub open spec fn framed(program: Seq<Op>) -> Seq<u8> {
    joined(wires(program), DELIMITER)
}

/// The instructions that the chunks decode to, in order; a chunk that
/// decodes to nothing is passed over.
pub open spec fn decoded(chunks: Seq<Seq<u8>>) -> Seq<Op>
    decreases chunks.len(),
{
    if chunks.len() == 0 {
        Seq::<Op>::empty()
    } else {
        let before = decoded(chunks.drop_last());
        match parsed(chunks.last()) {
            Some(op) => before.push(op),
            None => before,
        }
    }
}

/// Encodes a program as one stream of bytes.
pub fn encode_program(program: &Vec<Instruction>) -> (out: Vec<u8>)
    ensures
        out@ == framed(ops(program@)),
{
    let mut out: Vec<u8> = Vec::new();
    let mut i: usize = 0;
    while i < program.len()
        invariant
            i <= program.len(),
            out@ == framed(ops(program@).take(i as int)),
        decreases program.len() - i,
    {
        if i > 0 {
            out.push(DELIMITER);
        }
        let chunk = program[i].encode();
        out.extend_from_slice(chunk.as_slice());
        proof {
            let next = wires(ops(program@).take(i + 1));
            assert(next.drop_last() =~= wires(ops(program@).take(i as int)));
            assert(next.last() == wire(program@[i as int]@));
            assert(out@ =~= joined(next, DELIMITER));
        }
        i += 1;
    }
    assert(ops(program@).take(i as int) =~= ops(program@));
    out
}

/// Decodes a stream of bytes: splits it at each delimiter and decodes each
/// chunk by itself, passing over the chunks that decode to nothing.
pub fn decode_program(bytes: &[u8]) -> (out: Vec<Instruction>)
    ensures
        ops(out@) == decoded(split_on(bytes@, DELIMITER)),
{
    let mut out: Vec<Instruction> = Vec::new();
    let mut start: usize = 0;
    let mut i: usize = 0;
    let ghost mut done: Seq<Seq<u8>> = Seq::empty();
    assert(bytes@.take(0) =~= Seq::<u8>::empty());
    assert(bytes@.subrange(0, 0) =~= Seq::<u8>::empty());
    assert(split_on(bytes@.take(0), DELIMITER) =~= done.push(bytes@.subrange(0, 0)));
    assert(ops(out@) =~= decoded(done));
    while i < bytes.len()
        invariant
            start <= i <= bytes.len(),
            split_on(bytes@.take(i as int), DELIMITER) == done.push(
                bytes@.subrange(start as int, i as int),
            ),
            ops(out@) == decoded(done),
        decreases bytes.len() - i,
    {
        let ghost piece = bytes@.subrange(start as int, i as int);
        proof {
            let next = bytes@.take(i + 1);
            assert(next.drop_last() =~= bytes@.take(i as int));
            assert(next.last() == bytes@[i as int]);
            assert(done.push(piece).drop_last() =~= done);
            assert(done.push(piece).last() == piece);
        }
        if bytes[i] == DELIMITER {
            let ghost before = out@;
            match Instruction::decode(slice_subrange(bytes, start, i)) {
                Some(inst) => {
                    out.push(inst);
                    assert(ops(out@) =~= ops(before).push(inst@));
                },
                None => {},
            }
            proof {
                done = done.push(piece);
                assert(bytes@.subrange(i + 1, i + 1) =~= Seq::<u8>::empty());
            }
            start = i + 1;
        } else {
            assert(bytes@.subrange(start as int, i + 1) =~= piece.push(bytes@[i as int]));
        }
        i += 1;
    }
    assert(bytes@.take(i as int) =~= bytes@);
    let ghost piece = bytes@.subrange(start as int, i as int);
    let ghost before = out@;
    assert(done.push(piece).drop_last() =~= done);
    match Instruction::decode(slice_subrange(bytes, start, i)) {
        Some(inst) => {
            out.push(inst);
            assert(ops(out@) =~= ops(before).push(inst@));
        },
        None => {},
    }
    out
}

/// A sequence in which the delimiter does not occur is a single piece.
pub proof fn lemma_split_whole<T>(s: Seq<T>, d: T)
    requires
        !s.contains(d),
    ensures
        split_on(s, d) == seq![s],
    decreases s.len(),
{
    if s.len() > 0 {
        assert(s.last() == s[s.len() - 1]);
        assert forall|x: T| s.drop_last().contains(x) implies s.contains(x) by {
            let k = choose|k: int| 0 <= k < s.drop_last().len() && s.drop_last()[k] == x;
            assert(s[k] == x);
        }
        lemma_split_whole(s.drop_last(), d);
        let before = seq![s.drop_last()];
        assert(before.last() == s.drop_last());
        assert(s.drop_last().push(s.last()) =~= s);
        assert(before.drop_last().push(s) =~= seq![s]);
    } else {
        assert(s =~= Seq::<T>::empty());
    }
}

/// A piece without the delimiter, appended behind a delimiter, is the last
/// piece of the whole.
pub proof fn lemma_split_append<T>(a: Seq<T>, b: Seq<T>, d: T)
    requires
        !b.contains(d),
    ensures
        split_on(a + seq![d] + b, d) == split_on(a, d).push(b),
    decreases b.len(),
{
    let whole = a + seq![d] + b;
    if b.len() == 0 {
        assert(whole.drop_last() =~= a);
        assert(whole.last() == d);
        assert(b =~= Seq::<T>::empty());
    } else {
        assert(b.last() == b[b.len() - 1]);
        assert forall|x: T| b.drop_last().contains(x) implies b.contains(x) by {
            let k = choose|k: int| 0 <= k < b.drop_last().len() && b.drop_last()[k] == x;
            assert(b[k] == x);
        }
        lemma_split_append(a, b.drop_last(), d);
        assert(whole.drop_last() =~= a + seq![d] + b.drop_last());
        assert(whole.last() == b.last());
        let before = split_on(a, d).push(b.drop_last());
        assert(before.drop_last() =~= split_on(a, d));
        assert(before.last().push(b.last()) =~= b);
    }
}

/// Whether a stream of the program can be taken apart again: no encoded
/// instruction holds the delimiter byte, and each name fits its length bytes.
pub open spec fn frames_cleanly(program: Seq<Op>) -> bool {
    forall|i: int|
        0 <= i < program.len() ==> fits_wire(#[trigger] program[i]) && !wire(program[i]).contains(
            DELIMITER,
        )
}

/// Chunks that are the wire forms of instructions decode to those instructions.
pub proof fn lemma_decoded_wires(program: Seq<Op>)
    requires
        forall|i: int| 0 <= i < program.len() ==> fits_wire(#[trigger] program[i]),
    ensures
        decoded(wires(program)) == program,
    decreases program.len(),
{
    if program.len() > 0 {
        lemma_decoded_wires(program.drop_last());
        assert(wires(program).drop_last() =~= wires(program.drop_last()));
        lemma_decode_encode(program.last());
        assert(program.drop_last().push(program.last()) =~= program);
    } else {
        assert(decoded(wires(program)) =~= program);
    }
}

/// Framing round trip: splitting a framed program at the delimiter and
/// decoding each piece gives the program back, provided that no encoded
/// instruction holds the delimiter byte and each name fits its length bytes.
pub proof fn lemma_stream_round_trip(program: Seq<Op>)
    requires
        frames_cleanly(program),
    ensures
        decoded(split_on(framed(program), DELIMITER)) == program,
{
    if program.len() == 0 {
        let chunks = split_on(framed(program), DELIMITER);
        assert(chunks =~= seq![Seq::<u8>::empty()]);
        assert(chunks.drop_last() =~= Seq::<Seq<u8>>::empty());
        assert(decoded(chunks.drop_last()) =~= Seq::<Op>::empty());
        assert(decoded(chunks) =~= program);
    } else {
        lemma_split_joined(wires(program), DELIMITER);
        lemma_decoded_wires(program);
    }
}

/// Splitting undoes joining, where there is a piece and no piece holds the delimiter.
pub proof fn lemma_split_joined<T>(parts: Seq<Seq<T>>, d: T)
    requires
        parts.len() > 0,
        forall|i: int| 0 <= i < parts.len() ==> !(#[trigger] parts[i]).contains(d),
    ensures
        split_on(joined(parts, d), d) == parts,
    decreases parts.len(),
{
    if parts.len() == 1 {
        lemma_split_whole(parts[0], d);
        assert(parts =~= seq![parts[0]]);
    } else {
        let front = parts.drop_last();
        lemma_split_joined(front, d);
        lemma_split_append(joined(front, d), parts.last(), d);
        assert(front.push(parts.last()) =~= parts);
    }
}

/// What stands before the first delimiter is the first of at least two pieces.
pub proof fn lemma_split_first<T>(a: Seq<T>, rest: Seq<T>, d: T)
    requires
        !a.contains(d),
    ensures
        split_on(a + seq![d] + rest, d).len() >= 2,
        split_on(a + seq![d] + rest, d)[0] == a,
    decreases rest.len(),
{
    let whole = a + seq![d] + rest;
    if rest.len() == 0 {
        lemma_split_whole(a, d);
        assert(whole.drop_last() =~= a);
        assert(whole.last() == d);
    } else {
        lemma_split_first(a, rest.drop_last(), d);
        assert(whole.drop_last() =~= a + seq![d] + rest.drop_last());
    }
}

/// No piece holds the delimiter, nor anything else that the whole does not hold.
pub proof fn lemma_split_pieces_exclude<T>(s: Seq<T>, d: T, c: T)
    requires
        c == d || !s.contains(c),
    ensures
        split_on(s, d).len() >= 1,
        forall|j: int| 0 <= j < split_on(s, d).len() ==> !(#[trigger] split_on(s, d)[j]).contains(c),
    decreases s.len(),
{
    let parts = split_on(s, d);
    if s.len() == 0 {
        assert forall|j: int| 0 <= j < parts.len() implies !(#[trigger] parts[j]).contains(c) by {
            assert(parts[j] =~= Seq::<T>::empty());
        }
    } else {
        assert(s.last() == s[s.len() - 1]);
        assert forall|x: T| s.drop_last().contains(x) implies s.contains(x) by {
            let k = choose|k: int| 0 <= k < s.drop_last().len() && s.drop_last()[k] == x;
            assert(s[k] == x);
        }
        lemma_split_pieces_exclude(s.drop_last(), d, c);
        let before = split_on(s.drop_last(), d);
        assert forall|j: int| 0 <= j < parts.len() implies !(#[trigger] parts[j]).contains(c) by {
            if j < parts.len() - 1 {
                assert(parts[j] == before[j]);
            } else if s.last() == d {
                assert(parts[j] =~= Seq::<T>::empty());
            } else {
                let grown = before.last().push(s.last());
                assert(parts[j] == grown);
                if grown.contains(c) {
                    let k = choose|k: int| 0 <= k < grown.len() && grown[k] == c;
                    if k < before.last().len() {
                        assert(before.last()[k] == c);
                    }
                }
            }
        }
    }
}

/// The first piece, and the delimiter behind it where there is a second
/// piece, lie within the whole.
pub proof fn lemma_split_first_bound<T>(s: Seq<T>, d: T)
    ensures
        split_on(s, d).len() >= 1,
        split_on(s, d).len() >= 2 ==> split_on(s, d)[0].len() + 1 <= s.len(),
        split_on(s, d)[0].len() <= s.len(),
    decreases s.len(),
{
    if s.len() > 0 {
        lemma_split_first_bound(s.drop_last(), d);
    }
}

} // verus!
