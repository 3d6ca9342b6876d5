//! The transport function: the one-byte header that splits an application
//! fragment across frames.

use vstd::prelude::*;

use crate::link::MAX_SEGMENT;

verus! {

/// One transport segment's header: FIN, FIR and a sequence number.
#[derive(Clone, Copy, Debug, PartialEq, Eq, Structural)]
pub struct Segment {
    pub first: bool,
    pub last: bool,
    pub sequence: u8,
}

/// The header byte: FIN, FIR, and the low six bits of the sequence number.
pub open spec fn header_of(segment: Segment) -> u8 {
    ((if segment.last { 128int } else { 0 }) + (if segment.first { 64int } else { 0 })
        + segment.sequence % 64) as u8
}

/// What the header byte `header` says.
pub open spec fn segment_of(header: u8) -> Segment {
    Segment { first: header / 64 % 2 == 1, last: header / 128 == 1, sequence: header % 64 }
}

impl Segment {
    /// The header byte.
    #[must_use]
    pub fn header(self) -> (r: u8)
        ensures
            r == header_of(self),
            (r & 0x80 != 0) == self.last,
            (r & 0x40 != 0) == self.first,
            r & 0x3f == self.sequence & 0x3f,
    {
        proof {
            law_header_bits(self);
        }
        let last: u8 = if self.last { 0x80 } else { 0 };
        let first: u8 = if self.first { 0x40 } else { 0 };
        let s: u8 = self.sequence;
        assert((last | first | (s & 0x3f)) == last + first + s % 64) by (bit_vector)
            requires
                last == 0 || last == 0x80,
                first == 0 || first == 0x40,
        ;
        last | first | (s & 0x3f)
    }

    /// What a header byte says.
    #[must_use]
    pub fn from_header(header: u8) -> (r: Segment)
        ensures
            r == segment_of(header),
            r.last == (header & 0x80 != 0),
            r.first == (header & 0x40 != 0),
            r.sequence == header & 0x3f,
    {
        assert((header & 0x40 != 0) == (header / 64 % 2 == 1)) by (bit_vector);
        assert((header & 0x80 != 0) == (header / 128 == 1)) by (bit_vector);
        assert(header & 0x3f == header % 64) by (bit_vector);
        Segment { first: header & 0x40 != 0, last: header & 0x80 != 0, sequence: header & 0x3f }
    }
}

/// A header byte has its top bit set for the last segment, the bit below it
/// for the first, and the low six bits of the sequence number below that.
pub proof fn law_header_bits(segment: Segment)
    ensures
        header_of(segment) & 0x80 != 0 <==> segment.last,
        header_of(segment) & 0x40 != 0 <==> segment.first,
        header_of(segment) & 0x3f == segment.sequence & 0x3f,
        header_of(segment) & 0x3f == segment.sequence % 64,
{
    let h = header_of(segment);
    let s = segment.sequence;
    let last: u8 = if segment.last { 128 } else { 0 };
    let first: u8 = if segment.first { 64 } else { 0 };
    assert((h & 0x80 != 0) == (last == 128) && (h & 0x40 != 0) == (first == 64) && h & 0x3f == s
        & 0x3f && h & 0x3f == s % 64) by (bit_vector)
        requires
            h == last + first + s % 64,
            last == 0 || last == 128,
            first == 0 || first == 64,
    ;
}

/// What a header byte says is what its bits say.
pub proof fn law_segment_bits(header: u8)
    ensures
        segment_of(header).last <==> header & 0x80 != 0,
        segment_of(header).first <==> header & 0x40 != 0,
        segment_of(header).sequence == header & 0x3f,
{
    assert((header & 0x40 != 0) == (header / 64 % 2 == 1)) by (bit_vector);
    assert((header & 0x80 != 0) == (header / 128 == 1)) by (bit_vector);
    assert(header & 0x3f == header % 64) by (bit_vector);
}

/// A segment goes through its header byte unchanged where its sequence number
/// is one of six bits, and every byte through what it says.
pub proof fn law_header_round_trip(segment: Segment, header: u8)
    ensures
        segment.sequence < 64 ==> segment_of(header_of(segment)) == segment,
        header_of(segment_of(header)) == header,
        segment_of(header).sequence < 64,
{
}

/// The sequence number `steps` segments after `sequence`: six bits, wrapping.
pub open spec fn sequence_after(sequence: u8, steps: nat) -> u8 {
    ((sequence + steps) % 64) as u8
}

/// The sequence `steps` segments after `sequence`: six bits, wrapping, however
/// many steps there are.
#[must_use]
pub fn next_sequence(sequence: u8, steps: usize) -> (r: u8)
    requires
        sequence + steps <= usize::MAX,
    ensures
        r == sequence_after(sequence, steps as nat),
        r == (sequence + steps) % 64,
{
    ((sequence as usize + steps) % 64) as u8
}

/// Counting goes up by one with each step, from 63 back to 0, and begins at
/// the low six bits of where it is counted from.
pub proof fn law_sequence_counts_by_one(sequence: u8, steps: nat)
    ensures
        sequence_after(sequence, 0) == sequence & 0x3f,
        sequence_after(sequence, steps) < 63 ==> sequence_after(sequence, steps + 1)
            == sequence_after(sequence, steps) + 1,
        sequence_after(sequence, steps) >= 63 ==> {
            &&& sequence_after(sequence, steps) == 63
            &&& sequence_after(sequence, steps + 1) == 0
        },
{
    assert(sequence & 0x3f == sequence % 64) by (bit_vector);
}

/// Counting on by `a` and then by `b` is counting on by both.
pub proof fn law_sequence_counts_on(sequence: u8, a: nat, b: nat)
    ensures
        sequence_after(sequence_after(sequence, a), b) == sequence_after(sequence, a + b),
        sequence_after(sequence, a) < 64,
        sequence < 64 ==> sequence_after(sequence, 0) == sequence,
        sequence < 64 && a % 64 == 0 ==> sequence_after(sequence, a) == sequence,
{
}

/// How many segments a fragment of `len` bytes takes: one for an empty one.
pub open spec fn segment_count(len: nat) -> nat {
    if len == 0 {
        1
    } else {
        (len + MAX_SEGMENT - 1) as nat / MAX_SEGMENT as nat
    }
}

/// Where the `i`th piece of a fragment of `len` bytes begins.
pub open spec fn piece_start(len: nat, i: int) -> int {
    if i * MAX_SEGMENT < len {
        i * MAX_SEGMENT
    } else {
        len as int
    }
}

/// The part of `fragment` that its `i`th segment carries.
pub open spec fn piece(fragment: Seq<u8>, i: int) -> Seq<u8> {
    fragment.subrange(piece_start(fragment.len(), i), piece_start(fragment.len(), i + 1))
}

/// The header of the `i`th segment of a fragment of `len` bytes.
pub open spec fn segment_at(len: nat, sequence: u8, i: int) -> Segment {
    Segment {
        first: i == 0,
        last: i + 1 == segment_count(len),
        sequence: sequence_after(sequence, i as nat),
    }
}

/// The `i`th segment of `fragment`: its header, then its part of the fragment.
pub open spec fn segment_bytes(fragment: Seq<u8>, sequence: u8, i: int) -> Seq<u8> {
    seq![header_of(segment_at(fragment.len(), sequence, i))] + piece(fragment, i)
}

/// Every fragment takes a segment, an empty one too.
pub proof fn law_count_is_positive(len: nat)
    ensures
        segment_count(len) >= 1,
        len <= MAX_SEGMENT ==> segment_count(len) == 1,
{
    assert(MAX_SEGMENT == 249);
}

/// The pieces lie end to end, each but the last as long as a segment carries,
/// and the last ends where the fragment does.
pub proof fn law_pieces_lie_end_to_end(len: nat, i: int)
    requires
        0 <= i < segment_count(len),
    ensures
        piece_start(len, 0) == 0,
        piece_start(len, i) == i * MAX_SEGMENT,
        i + 1 < segment_count(len) ==> piece_start(len, i + 1) == piece_start(len, i) + MAX_SEGMENT,
        piece_start(len, i) <= piece_start(len, i + 1) <= piece_start(len, i) + MAX_SEGMENT,
        piece_start(len, segment_count(len) as int) == len,
        i + 1 == segment_count(len) <==> piece_start(len, i) + MAX_SEGMENT >= len,
{
    let count = segment_count(len) as int;
    assert((i + 1) * MAX_SEGMENT == i * MAX_SEGMENT + MAX_SEGMENT) by (nonlinear_arith);
    assert(MAX_SEGMENT == 249);
    assert(count * MAX_SEGMENT == 249 * count);
    assert(i * MAX_SEGMENT == 249 * i);
}

proof fn lemma_pieces_join(fragment: Seq<u8>, k: nat)
    requires
        k <= segment_count(fragment.len()),
    ensures
        Seq::new(k, |i: int| piece(fragment, i)).flatten() == fragment.take(
            piece_start(fragment.len(), k as int),
        ),
    decreases k,
{
    let pieces = Seq::new(k, |i: int| piece(fragment, i));
    if k == 0 {
        assert(pieces.flatten() =~= fragment.take(piece_start(fragment.len(), 0)));
    } else {
        let before = Seq::new((k - 1) as nat, |i: int| piece(fragment, i));
        let last = piece(fragment, k - 1);
        assert(pieces =~= before.push(last));
        before.lemma_flatten_push(last);
        lemma_pieces_join(fragment, (k - 1) as nat);
        law_pieces_lie_end_to_end(fragment.len(), k - 1);
        assert(pieces.flatten() =~= fragment.take(piece_start(fragment.len(), k as int)));
    }
}

/// The segments of a fragment, their headers taken off, are the fragment
/// again. The first of them is marked first, the last is marked last, no other
/// is marked so, and each is numbered one on from the one before it.
pub proof fn law_segments_carry_the_fragment(fragment: Seq<u8>, sequence: u8)
    ensures
        Seq::new(
            segment_count(fragment.len()),
            |i: int| segment_bytes(fragment, sequence, i).skip(1),
        ).flatten() == fragment,
        forall|i: int|
            0 <= i < segment_count(fragment.len()) ==> {
                let header = segment_of((#[trigger] segment_bytes(fragment, sequence, i))[0]);
                &&& header.first == (i == 0)
                &&& header.last == (i + 1 == segment_count(fragment.len()))
                &&& header.sequence == sequence_after(sequence, i as nat)
            },
        forall|i: int|
            0 < i ==> #[trigger] sequence_after(sequence, i as nat) == (sequence_after(
                sequence,
                (i - 1) as nat,
            ) + 1) % 64,
{
    let count = segment_count(fragment.len());
    let pieces = Seq::new(count, |i: int| piece(fragment, i));
    let stripped = Seq::new(count, |i: int| segment_bytes(fragment, sequence, i).skip(1));
    assert forall|i: int| 0 <= i < count implies stripped[i] == pieces[i] by {
        assert(segment_bytes(fragment, sequence, i).skip(1) =~= piece(fragment, i));
    }
    assert(stripped =~= pieces);
    lemma_pieces_join(fragment, count);
    law_count_is_positive(fragment.len());
    law_pieces_lie_end_to_end(fragment.len(), count - 1);
    assert(fragment.take(fragment.len() as int) =~= fragment);
    assert forall|i: int| 0 <= i < count implies segment_of(
        (#[trigger] segment_bytes(fragment, sequence, i))[0],
    ) == segment_at(fragment.len(), sequence, i) by {
        law_header_round_trip(segment_at(fragment.len(), sequence, i), 0);
    }
}

/// The segments of a fragment, byte by byte. There are as few as carry it at
/// 249 bytes each, and one for an empty one. Of each, the first byte has bit
/// 0x40 set for the first of them alone, bit 0x80 for the last alone, and below
/// those the number that `sequence` has come to; the bytes behind it are the
/// fragment's, each segment full but the last.
pub proof fn law_segments_byte_by_byte(fragment: Seq<u8>, sequence: u8)
    ensures
        fragment.len() == 0 ==> segment_count(fragment.len()) == 1,
        fragment.len() > 0 ==> 249 * (segment_count(fragment.len()) - 1) < fragment.len() <= 249
            * segment_count(fragment.len()),
        forall|i: int|
            0 <= i < segment_count(fragment.len()) ==> {
                let bytes = #[trigger] segment_bytes(fragment, sequence, i);
                &&& bytes.len() == 1 + if fragment.len() - 249 * i < 249 {
                    fragment.len() - 249 * i
                } else {
                    249
                }
                &&& bytes[0] & 0x40 != 0 <==> i == 0
                &&& bytes[0] & 0x80 != 0 <==> 249 * (i + 1) >= fragment.len()
                &&& bytes[0] & 0x3f == (sequence + i) % 64
                &&& forall|k: int|
                    0 <= k < bytes.len() - 1 ==> #[trigger] bytes[k + 1] == fragment[249 * i + k]
            },
{
    let len = fragment.len();
    let count = segment_count(len);
    law_count_is_positive(len);
    assert(MAX_SEGMENT == 249);
    assert forall|i: int| 0 <= i < count implies {
        let bytes = #[trigger] segment_bytes(fragment, sequence, i);
        &&& bytes.len() == 1 + if fragment.len() - 249 * i < 249 {
            fragment.len() - 249 * i
        } else {
            249
        }
        &&& bytes[0] & 0x40 != 0 <==> i == 0
        &&& bytes[0] & 0x80 != 0 <==> 249 * (i + 1) >= fragment.len()
        &&& bytes[0] & 0x3f == (sequence + i) % 64
        &&& forall|k: int|
            0 <= k < bytes.len() - 1 ==> #[trigger] bytes[k + 1] == fragment[249 * i + k]
    } by {
        law_pieces_lie_end_to_end(len, i);
        law_header_bits(segment_at(len, sequence, i));
        let bytes = segment_bytes(fragment, sequence, i);
        assert(bytes[0] == header_of(segment_at(len, sequence, i)));
    }
}

/// `fragment` split into transport segments, each with its header, the
/// sequence starting at `sequence` and wrapping at sixty-four however many
/// segments there are. An empty fragment is one empty segment.
#[must_use]
pub fn segments(fragment: &[u8], sequence: u8) -> (r: Vec<Vec<u8>>)
    ensures
        r@.len() == segment_count(fragment@.len()),
        forall|i: int|
            0 <= i < r@.len() ==> (#[trigger] r@[i])@ == segment_bytes(fragment@, sequence, i),
{
    let n: usize = fragment.len();
    let mut out: Vec<Vec<u8>> = Vec::new();
    let mut at: usize = 0;
    let mut i: usize = 0;
    loop
        invariant_except_break
            n == fragment@.len(),
            at == piece_start(n as nat, i as int),
            at == i * MAX_SEGMENT,
            i < segment_count(n as nat),
            out@.len() == i,
            forall|j: int|
                0 <= j < i ==> (#[trigger] out@[j])@ == segment_bytes(fragment@, sequence, j),
        ensures
            out@.len() == segment_count(n as nat),
            forall|j: int|
                0 <= j < out@.len() ==> (#[trigger] out@[j])@ == segment_bytes(
                    fragment@,
                    sequence,
                    j,
                ),
        decreases n - at,
    {
        proof {
            law_pieces_lie_end_to_end(n as nat, i as int);
        }
        let take: usize = if n - at < MAX_SEGMENT { n - at } else { MAX_SEGMENT };
        let last: bool = at + take == n;
        let header = Segment { first: i == 0, last, sequence: next_sequence(sequence, i) };
        let mut segment: Vec<u8> = Vec::new();
        segment.push(header.header());
        let part: &[u8] = &fragment[at..at + take];
        segment.extend_from_slice(part);
        assert(part@ =~= piece(fragment@, i as int));
        assert(segment@ =~= segment_bytes(fragment@, sequence, i as int));
        out.push(segment);
        if last {
            break;
        }
        at += take;
        i += 1;
    }
    out
}

} // verus!
