//! What holds of every frame that is encoded, sent and read.

use vstd::prelude::*;

use crate::crc;
use crate::error::{Error, Part};
use crate::link;
use crate::link::{
    Fed, Frame, FrameView, Progress, Reading, Step, BLOCK, CONTROL_MASTER_DATA,
    CONTROL_OUTSTATION_DATA, HEADER, MAX_SEGMENT, MAX_USER_DATA, START,
};

verus! {

proof fn lemma_with_check(data: Seq<u8>)
    ensures
        crc::checks(link::with_check(data)),
        link::with_check(data).len() == data.len() + 2,
        link::with_check(data).take(data.len() as int) == data,
{
    let word = link::with_check(data);
    crc::law_le_round_trip(crc::checksum_of(data), 0, 0);
    assert(word.take(data.len() as int) =~= data);
}

proof fn lemma_checks_is_with_check(word: Seq<u8>)
    requires
        crc::checks(word),
    ensures
        word == link::with_check(word.take(word.len() - 2)),
{
    let n = word.len() - 2;
    crc::law_le_round_trip(0, word[n], word[n + 1]);
    assert(word =~= link::with_check(word.take(n)));
}

proof fn lemma_block_bytes_len(data: Seq<u8>)
    ensures
        link::block_bytes(data).len() == data.len() + 2 * ((data.len() + 15) / 16),
    decreases data.len(),
{
    if data.len() > 0 {
        let n = link::block_len(data.len()) as int;
        lemma_with_check(data.take(n));
        lemma_block_bytes_len(data.skip(n));
    }
}

/// An encoded frame is ten bytes of header, the user data, and two bytes of
/// check for each block of sixteen begun.
pub proof fn law_frame_length(frame: FrameView)
    ensures
        link::frame_bytes(frame).len() == HEADER + frame.user_data.len() + 2 * ((
        frame.user_data.len() + 15) / 16),
{
    lemma_with_check(link::header_bytes(frame));
    lemma_block_bytes_len(frame.user_data);
}

/// What reading makes of the header of an encoded frame.
proof fn lemma_header(frame: FrameView)
    requires
        frame.user_data.len() <= MAX_USER_DATA,
    ensures
        link::with_check(link::header_bytes(frame)).len() == HEADER,
        link::header_fault(link::with_check(link::header_bytes(frame))) is None,
        link::with_check(link::header_bytes(frame))[2] == 5 + frame.user_data.len(),
        link::announced(link::with_check(link::header_bytes(frame))) == (FrameView {
            user_data: Seq::empty(),
            ..frame
        }),
{
    lemma_with_check(link::header_bytes(frame));
    crc::law_le_round_trip(frame.destination, 0, 0);
    crc::law_le_round_trip(frame.source, 0, 0);
}

proof fn lemma_blocks_read_back(begun: FrameView, data: Seq<u8>, rest: Seq<u8>)
    ensures
        link::read_blocks(begun, data.len(), link::block_bytes(data) + rest) == (Reading::Framed {
            frame: link::extended(begun, data),
            rest,
        }),
    decreases data.len(),
{
    let stream = link::block_bytes(data) + rest;
    if data.len() == 0 {
        assert(stream =~= rest);
        assert(link::extended(begun, data) =~= begun);
    } else {
        let n = link::block_len(data.len()) as int;
        let block = link::with_check(data.take(n));
        lemma_with_check(data.take(n));
        assert(stream.take(n + 2) =~= block);
        assert(stream.skip(n + 2) =~= link::block_bytes(data.skip(n)) + rest);
        let next = link::extended(begun, data.take(n));
        lemma_blocks_read_back(next, data.skip(n), rest);
        assert(data.take(n) + data.skip(n) =~= data);
        assert(link::extended(next, data.skip(n)) =~= link::extended(begun, data));
    }
}

/// A frame that is encoded and read comes back as it was, and what follows it
/// is left to be read.
pub proof fn law_encoded_frame_reads_back(frame: FrameView, rest: Seq<u8>)
    requires
        frame.user_data.len() <= MAX_USER_DATA,
    ensures
        link::read_from(link::frame_bytes(frame) + rest) == (Reading::Framed { frame, rest }),
{
    let header = link::with_check(link::header_bytes(frame));
    let stream = link::frame_bytes(frame) + rest;
    lemma_header(frame);
    assert(stream.take(HEADER as int) =~= header);
    assert(stream.skip(HEADER as int) =~= link::block_bytes(frame.user_data) + rest);
    let begun = link::announced(header);
    lemma_blocks_read_back(begun, frame.user_data, rest);
    assert(link::extended(begun, frame.user_data) =~= frame);
}

proof fn lemma_blocks_canonical(begun: FrameView, remaining: nat, stream: Seq<u8>) -> (data: Seq<
    u8,
>)
    requires
        link::read_blocks(begun, remaining, stream) is Framed,
    ensures
        data.len() == remaining,
        link::read_blocks(begun, remaining, stream)->frame == link::extended(begun, data),
        stream == link::block_bytes(data) + link::read_blocks(
            begun,
            remaining,
            stream,
        )->Framed_rest,
    decreases remaining,
{
    if remaining == 0 {
        let data = Seq::<u8>::empty();
        assert(link::extended(begun, data) =~= begun);
        assert(link::block_bytes(data) + stream =~= stream);
        data
    } else {
        let n = link::block_len(remaining) as int;
        let block = stream.take(n + 2);
        let head = block.take(n);
        let next = link::extended(begun, head);
        let left = stream.skip(n + 2);
        lemma_checks_is_with_check(block);
        let tail = lemma_blocks_canonical(next, (remaining - n) as nat, left);
        let data = head + tail;
        let rest = link::read_blocks(begun, remaining, stream)->Framed_rest;
        assert(data.take(n) =~= head);
        assert(data.skip(n) =~= tail);
        assert(link::extended(next, tail) =~= link::extended(begun, data));
        assert(stream =~= block + left);
        assert(stream =~= link::block_bytes(data) + rest);
        data
    }
}

/// A frame is read only where the bytes are that frame, encoded: no other
/// bytes are taken for it.
pub proof fn law_only_an_encoded_frame_is_read(stream: Seq<u8>)
    requires
        link::read_from(stream) is Framed,
    ensures
        link::read_from(stream)->frame.user_data.len() <= MAX_USER_DATA,
        stream == link::frame_bytes(link::read_from(stream)->frame) + link::read_from(
            stream,
        )->Framed_rest,
{
    let header = stream.take(HEADER as int);
    let left = stream.skip(HEADER as int);
    let begun = link::announced(header);
    let data = lemma_blocks_canonical(begun, (header[2] - 5) as nat, left);
    let frame = link::read_from(stream)->frame;
    let rest = link::read_from(stream)->Framed_rest;
    assert(frame.user_data =~= data);
    lemma_checks_is_with_check(header);
    crc::law_le_round_trip(0, header[4], header[5]);
    crc::law_le_round_trip(0, header[6], header[7]);
    assert(header.take(8) =~= link::header_bytes(frame));
    assert(stream =~= header + left);
    assert(stream =~= link::frame_bytes(frame) + rest);
}

/// A frame that is read takes its length off the stream, and no less than a
/// header.
pub proof fn law_reading_advances(stream: Seq<u8>)
    ensures
        link::read_from(stream) matches Reading::Framed { frame, rest } ==> {
            &&& stream.len() == link::frame_bytes(frame).len() + rest.len()
            &&& link::frame_bytes(frame).len() >= HEADER
        },
{
    if let Reading::Framed { frame, .. } = link::read_from(stream) {
        law_only_an_encoded_frame_is_read(stream);
        law_frame_length(frame);
    }
}

/// Two frames with the same bytes are the same frame.
pub proof fn law_encoding_is_injective(a: FrameView, b: FrameView)
    requires
        a.user_data.len() <= MAX_USER_DATA,
        b.user_data.len() <= MAX_USER_DATA,
        link::frame_bytes(a) == link::frame_bytes(b),
    ensures
        a == b,
{
    law_encoded_frame_reads_back(a, Seq::empty());
    law_encoded_frame_reads_back(b, Seq::empty());
}

proof fn lemma_blocks_cut_off(begun: FrameView, data: Seq<u8>, n: int)
    requires
        0 <= n < link::block_bytes(data).len(),
    ensures
        link::read_blocks(begun, data.len(), link::block_bytes(data).take(n)) == (
        Reading::Refused { error: Error::CutOff(Part::Block), rest: Seq::empty() }),
    decreases data.len(),
{
    let m = link::block_len(data.len()) as int;
    let stream = link::block_bytes(data).take(n);
    lemma_with_check(data.take(m));
    if n >= m + 2 {
        assert(stream.take(m + 2) =~= link::with_check(data.take(m)));
        assert(stream.skip(m + 2) =~= link::block_bytes(data.skip(m)).take(n - m - 2));
        lemma_blocks_cut_off(link::extended(begun, data.take(m)), data.skip(m), n - m - 2);
    }
}

/// A frame of which only the first `n` bytes come before the peer closes is
/// refused, however many they are: as cut off in the header, or in a block.
pub proof fn law_cut_off_frame_is_refused(frame: FrameView, n: int)
    requires
        frame.user_data.len() <= MAX_USER_DATA,
        0 < n < link::frame_bytes(frame).len(),
    ensures
        link::read_from(link::frame_bytes(frame).take(n)) == (Reading::Refused {
            error: Error::CutOff(
                if n < HEADER {
                    Part::Header
                } else {
                    Part::Block
                },
            ),
            rest: Seq::empty(),
        }),
{
    let header = link::with_check(link::header_bytes(frame));
    let stream = link::frame_bytes(frame).take(n);
    lemma_header(frame);
    if n >= HEADER {
        assert(stream.take(HEADER as int) =~= header);
        assert(stream.skip(HEADER as int) =~= link::block_bytes(frame.user_data).take(n - HEADER));
        lemma_blocks_cut_off(link::announced(header), frame.user_data, n - HEADER);
    }
}

/// The two byte strings are the same but at `at` and the byte after it.
#[verifier::opaque]
pub open spec fn same_but_near(a: Seq<u8>, b: Seq<u8>, at: int) -> bool {
    forall|i: int| 0 <= i < a.len() && i != at && i != at + 1 ==> a[i] == b[i]
}

/// The two byte strings differ, and nowhere but at `at` and the byte after it.
pub open spec fn differ_near(a: Seq<u8>, b: Seq<u8>, at: int) -> bool {
    &&& a.len() == b.len()
    &&& a != b
    &&& 0 <= at < a.len()
    &&& same_but_near(a, b, at)
}

/// Where `n` bytes are split off, the damage is in those, or else in the rest.
pub proof fn law_damage_splits(a: Seq<u8>, b: Seq<u8>, at: int, n: int)
    requires
        differ_near(a, b, at),
        0 <= n <= a.len(),
    ensures
        a.take(n) != b.take(n) ==> differ_near(a.take(n), b.take(n), at),
        a.take(n) == b.take(n) ==> differ_near(
            a.skip(n),
            b.skip(n),
            if at < n {
                0
            } else {
                at - n
            },
        ),
{
    reveal(same_but_near);
    if a.take(n) != b.take(n) {
        if at >= n {
            assert(a.take(n) =~= b.take(n));
        }
    } else {
        let inner = if at < n { 0 } else { at - n };
        assert(a =~= a.take(n) + a.skip(n));
        assert(b =~= b.take(n) + b.skip(n));
        if a.len() == n {
            assert(a.skip(n) =~= b.skip(n));
        }
        assert forall|i: int|
            0 <= i < a.skip(n).len() && i != inner && i != inner + 1 implies a.skip(n)[i] == b.skip(
            n,
        )[i] by {
            if at < n {
                assert(a.take(n)[at] == b.take(n)[at]);
            }
            assert(a[i + n] == b[i + n]);
        }
    }
}

proof fn lemma_damaged_blocks(
    begun: FrameView,
    data: Seq<u8>,
    damaged: Seq<u8>,
    at: int,
    rest: Seq<u8>,
)
    requires
        differ_near(link::block_bytes(data), damaged, at),
    ensures
        link::read_blocks(begun, data.len(), damaged + rest) matches Reading::Refused { error, .. }
            && error == Error::BlockCrc,
    decreases data.len(),
{
    let sound = link::block_bytes(data);
    let stream = damaged + rest;
    let n = link::block_len(data.len()) as int;
    let block = link::with_check(data.take(n));
    lemma_with_check(data.take(n));
    law_damage_splits(sound, damaged, at, n + 2);
    assert(sound.take(n + 2) =~= block);
    assert(sound.skip(n + 2) =~= link::block_bytes(data.skip(n)));
    assert(stream.take(n + 2) =~= damaged.take(n + 2));
    assert(stream.skip(n + 2) =~= damaged.skip(n + 2) + rest);
    if damaged.take(n + 2) != block {
        reveal(same_but_near);
        crc::law_neighbouring_damage_shows(block, damaged.take(n + 2), at);
    } else {
        lemma_damaged_blocks(
            link::extended(begun, data.take(n)),
            data.skip(n),
            damaged.skip(n + 2),
            if at < n + 2 {
                0
            } else {
                at - n - 2
            },
            rest,
        );
    }
}

/// A frame with damage that stays within two neighbouring bytes, wherever in
/// it they stand, is refused.
pub proof fn law_damaged_frame_is_refused(
    frame: FrameView,
    damaged: Seq<u8>,
    at: int,
    rest: Seq<u8>,
)
    requires
        frame.user_data.len() <= MAX_USER_DATA,
        differ_near(link::frame_bytes(frame), damaged, at),
    ensures
        link::read_from(damaged + rest) is Refused,
{
    let sound = link::frame_bytes(frame);
    let header = link::with_check(link::header_bytes(frame));
    let stream = damaged + rest;
    let n = HEADER as int;
    lemma_header(frame);
    lemma_with_check(link::header_bytes(frame));
    law_damage_splits(sound, damaged, at, n);
    assert(sound.take(n) =~= header);
    assert(sound.skip(n) =~= link::block_bytes(frame.user_data));
    assert(stream.take(n) =~= damaged.take(n));
    assert(stream.skip(n) =~= damaged.skip(n) + rest);
    if damaged.take(n) != header {
        reveal(same_but_near);
        crc::law_neighbouring_damage_shows(header, damaged.take(n), at);
    } else {
        lemma_damaged_blocks(
            link::announced(header),
            frame.user_data,
            damaged.skip(n),
            if at < n {
                0
            } else {
                at - n
            },
            rest,
        );
    }
}

/// How many bytes of user data block `j` holds, of `n` in all.
pub open spec fn held_by_block(n: int, j: int) -> int {
    if n - 16 * j < 16 {
        n - 16 * j
    } else {
        16
    }
}

/// Block `j` of `n` bytes of user data, where the blocks begin at `from`, has
/// come, and the two bytes behind it are the check of it, low byte first.
pub open spec fn block_is_sound(stream: Seq<u8>, from: int, n: int, j: int) -> bool {
    let at = from + 18 * j;
    let end = at + held_by_block(n, j);
    &&& end + 2 <= stream.len()
    &&& stream[end] + 256 * stream[end + 1] == crc::checksum_of(stream.subrange(at, end))
}

/// What stands behind the first block of `data`, and the block ahead of it.
proof fn lemma_blocks_split(data: Seq<u8>) -> (m: int)
    requires
        data.len() > 0,
    ensures
        m == held_by_block(data.len() as int, 0),
        0 < m <= data.len(),
        link::block_bytes(data) == link::with_check(data.take(m)) + link::block_bytes(data.skip(m)),
        link::with_check(data.take(m)).len() == m + 2,
{
    let m = link::block_len(data.len()) as int;
    lemma_with_check(data.take(m));
    m
}

proof fn lemma_data_byte(data: Seq<u8>, k: int)
    requires
        0 <= k < data.len(),
    ensures
        link::block_bytes(data)[k + 2 * (k / 16)] == data[k],
        k + 2 * (k / 16) < link::block_bytes(data).len(),
    decreases data.len(),
{
    let m = lemma_blocks_split(data);
    let head = link::with_check(data.take(m));
    lemma_with_check(data.take(m));
    if k < m {
        assert(head[k] == head.take(m)[k]);
    } else {
        lemma_data_byte(data.skip(m), k - m);
        assert(k + 2 * (k / 16) == m + 2 + (k - m + 2 * ((k - m) / 16)));
    }
}

proof fn lemma_block_is_sound(data: Seq<u8>, j: int)
    requires
        0 <= j,
        16 * j < data.len(),
    ensures
        block_is_sound(link::block_bytes(data), 0, data.len() as int, j),
    decreases data.len(),
{
    let n = data.len() as int;
    let m = lemma_blocks_split(data);
    let head = data.take(m);
    let left = link::block_bytes(data.skip(m));
    let bytes = link::block_bytes(data);
    if j == 0 {
        let check = crc::checksum_of(head);
        crc::law_low_byte_comes_first(check, 0, 0);
        assert(bytes.subrange(0, m) =~= head);
        assert(bytes[m] == crc::le_bytes(check)[0]);
        assert(bytes[m + 1] == crc::le_bytes(check)[1]);
    } else {
        lemma_block_is_sound(data.skip(m), j - 1);
        assert(bytes.skip(18) =~= left);
        lemma_block_moves_up(bytes, 0, n, j);
    }
}

/// An encoded frame, byte by byte: the start bytes, five and the length of the
/// user data, the control byte, the destination and the source low byte first,
/// and the check of those eight; then every byte of user data in the clear and
/// in its order, with the check of every sixteen, or of the fewer that are
/// left, behind them.
pub proof fn law_frame_byte_by_byte(frame: FrameView)
    requires
        frame.user_data.len() <= 250,
    ensures
        ({
            let n = frame.user_data.len();
            let bytes = link::frame_bytes(frame);
            &&& bytes.len() == 10 + n + 2 * ((n + 15) / 16)
            &&& bytes[0] == 0x05
            &&& bytes[1] == 0x64
            &&& bytes[2] == 5 + n
            &&& bytes[3] == frame.control
            &&& bytes[4] + 256 * bytes[5] == frame.destination
            &&& bytes[6] + 256 * bytes[7] == frame.source
            &&& bytes[8] + 256 * bytes[9] == crc::checksum_of(bytes.take(8))
            &&& forall|k: int|
                0 <= k < n ==> bytes[10 + k + 2 * (k / 16)] == #[trigger] frame.user_data[k]
            &&& forall|j: int|
                0 <= j && 16 * j < n ==> #[trigger] block_is_sound(bytes, 10, n as int, j)
        }),
{
    let n = frame.user_data.len() as int;
    let bytes = link::frame_bytes(frame);
    let blocks = link::block_bytes(frame.user_data);
    law_frame_length(frame);
    lemma_header_byte_by_byte(frame);
    assert forall|k: int| 0 <= k < n implies bytes[10 + k + 2 * (k / 16)]
        == #[trigger] frame.user_data[k] by {
        lemma_data_byte(frame.user_data, k);
        assert(bytes.skip(10)[k + 2 * (k / 16)] == bytes[10 + k + 2 * (k / 16)]);
    }
    assert forall|j: int| 0 <= j && 16 * j < n implies #[trigger] block_is_sound(bytes, 10, n, j) by {
        lemma_block_is_sound(frame.user_data, j);
        lemma_block_behind_header(bytes, n, j);
    }
}

proof fn lemma_header_byte_by_byte(frame: FrameView)
    requires
        frame.user_data.len() <= 250,
    ensures
        ({
            let bytes = link::frame_bytes(frame);
            &&& bytes.len() >= 10
            &&& bytes.skip(10) == link::block_bytes(frame.user_data)
            &&& bytes[0] == 0x05
            &&& bytes[1] == 0x64
            &&& bytes[2] == 5 + frame.user_data.len()
            &&& bytes[3] == frame.control
            &&& bytes[4] + 256 * bytes[5] == frame.destination
            &&& bytes[6] + 256 * bytes[7] == frame.source
            &&& bytes[8] + 256 * bytes[9] == crc::checksum_of(bytes.take(8))
        }),
{
    let header = link::header_bytes(frame);
    let bytes = link::frame_bytes(frame);
    lemma_with_check(header);
    crc::law_low_byte_comes_first(frame.destination, 0, 0);
    crc::law_low_byte_comes_first(frame.source, 0, 0);
    crc::law_low_byte_comes_first(crc::checksum_of(header), 0, 0);
    assert(bytes.take(8) =~= header);
    assert(bytes.skip(10) =~= link::block_bytes(frame.user_data));
}

/// The header at the front of `stream` is whole and is one.
pub open spec fn header_is_sound(stream: Seq<u8>) -> bool {
    &&& stream.len() >= 10
    &&& stream[0] == 0x05
    &&& stream[1] == 0x64
    &&& stream[2] >= 5
    &&& stream[8] + 256 * stream[9] == crc::checksum_of(stream.take(8))
}

proof fn lemma_header_is_sound(stream: Seq<u8>)
    requires
        stream.len() >= 10,
    ensures
        header_is_sound(stream) <==> link::header_fault(stream.take(10)) is None,
        crc::checks(stream.take(10)) <==> stream[8] + 256 * stream[9] == crc::checksum_of(
            stream.take(8),
        ),
{
    assert(stream.take(10).take(8) =~= stream.take(8));
    crc::law_low_byte_comes_first(0, stream[8], stream[9]);
}

/// Reading finds the peer closed exactly where nothing is left to read. A
/// header cut off is refused as that, with nothing left to read; a whole one is
/// refused for the first thing wrong with it, of its start bytes, a length
/// under five and its check, with what follows it left.
pub proof fn law_header_faults(stream: Seq<u8>)
    ensures
        link::read_from(stream) is Closed <==> stream.len() == 0,
        0 < stream.len() < 10 ==> link::read_from(stream) == (Reading::Refused {
            error: Error::CutOff(Part::Header),
            rest: Seq::empty(),
        }),
        stream.len() >= 10 && !(stream[0] == 0x05 && stream[1] == 0x64) ==> link::read_from(stream)
            == (Reading::Refused { error: Error::NotStart, rest: stream.skip(10) }),
        stream.len() >= 10 && stream[0] == 0x05 && stream[1] == 0x64 && stream[2] < 5
            ==> link::read_from(stream) == (Reading::Refused {
            error: Error::ShortLength,
            rest: stream.skip(10),
        }),
        stream.len() >= 10 && stream[0] == 0x05 && stream[1] == 0x64 && stream[2] >= 5
            && !header_is_sound(stream) ==> link::read_from(stream) == (Reading::Refused {
            error: Error::HeaderCrc,
            rest: stream.skip(10),
        }),
{
    if stream.len() >= 10 {
        lemma_header_is_sound(stream);
        if header_is_sound(stream) {
            let header = stream.take(10);
            lemma_blocks_never_closed(
                link::announced(header),
                (header[2] - 5) as nat,
                stream.skip(10),
            );
        }
    }
}

proof fn lemma_blocks_never_closed(begun: FrameView, remaining: nat, stream: Seq<u8>)
    ensures
        !(link::read_blocks(begun, remaining, stream) is Closed),
    decreases remaining,
{
    if remaining > 0 {
        let n = link::block_len(remaining) as int;
        lemma_blocks_never_closed(
            link::extended(begun, stream.take(n + 2).take(n)),
            (remaining - n) as nat,
            stream.skip(n + 2),
        );
    }
}

/// What reading makes of the first block that is left.
proof fn lemma_first_block(begun: FrameView, remaining: nat, stream: Seq<u8>)
    requires
        remaining > 0,
    ensures
        ({
            let m = held_by_block(remaining as int, 0);
            &&& m == link::block_len(remaining)
            &&& stream.len() < m + 2 ==> link::read_blocks(begun, remaining, stream) == (
            Reading::Refused { error: Error::CutOff(Part::Block), rest: Seq::empty() })
            &&& stream.len() >= m + 2 && !block_is_sound(stream, 0, remaining as int, 0)
                ==> link::read_blocks(begun, remaining, stream) == (Reading::Refused {
                error: Error::BlockCrc,
                rest: stream.skip(m + 2),
            })
            &&& block_is_sound(stream, 0, remaining as int, 0) ==> link::read_blocks(
                begun,
                remaining,
                stream,
            ) == link::read_blocks(
                link::extended(begun, stream.take(m)),
                (remaining - m) as nat,
                stream.skip(m + 2),
            )
        }),
{
    let m = held_by_block(remaining as int, 0);
    if stream.len() >= m + 2 {
        let word = stream.take(m + 2);
        assert(word.take(m) =~= stream.take(m));
        assert(stream.subrange(0, m) =~= stream.take(m));
        crc::law_low_byte_comes_first(0, word[m], word[m + 1]);
    }
}

/// A block behind the first is the same block, one less behind the rest.
proof fn lemma_block_moves_up(stream: Seq<u8>, from: int, n: int, j: int)
    requires
        0 <= from,
        j >= 1,
        16 * j < n,
        stream.len() >= from + 18,
    ensures
        block_is_sound(stream, from, n, j) == block_is_sound(
            stream.skip(from + 18),
            0,
            n - 16,
            j - 1,
        ),
{
    let at = from + 18 * j;
    let end = at + held_by_block(n, j);
    let left = stream.skip(from + 18);
    if end + 2 <= stream.len() {
        assert(left.subrange(at - from - 18, end - from - 18) =~= stream.subrange(at, end));
    }
}

proof fn lemma_first_faulty_block(begun: FrameView, remaining: nat, stream: Seq<u8>, j: int)
    requires
        0 <= j,
        16 * j < remaining,
        !block_is_sound(stream, 0, remaining as int, j),
        forall|i: int| 0 <= i < j ==> #[trigger] block_is_sound(stream, 0, remaining as int, i),
    ensures
        ({
            let end = 18 * j + held_by_block(remaining as int, j) + 2;
            link::read_blocks(begun, remaining, stream) == if stream.len() < end {
                Reading::Refused { error: Error::CutOff(Part::Block), rest: Seq::empty() }
            } else {
                Reading::Refused { error: Error::BlockCrc, rest: stream.skip(end) }
            }
        }),
    decreases j,
{
    let n = remaining as int;
    lemma_first_block(begun, remaining, stream);
    if j > 0 {
        assert(block_is_sound(stream, 0, n, 0));
        let left = stream.skip(18);
        lemma_block_moves_up(stream, 0, n, j);
        assert forall|i: int| 0 <= i < j - 1 implies #[trigger] block_is_sound(
            left,
            0,
            n - 16,
            i,
        ) by {
            lemma_block_moves_up(stream, 0, n, i + 1);
            assert(block_is_sound(stream, 0, n, i + 1));
        }
        lemma_first_faulty_block(
            link::extended(begun, stream.take(16)),
            (n - 16) as nat,
            left,
            j - 1,
        );
        let end = 18 * j + held_by_block(n, j) + 2;
        if stream.len() >= end {
            assert(left.skip(end - 18) =~= stream.skip(end));
        }
    }
}

/// Behind a sound header and sound blocks, the first block that has not all
/// come is refused as cut off, with nothing left to read; one that has come and
/// whose check is not its own is refused for that, with what follows it left.
pub proof fn law_block_faults(stream: Seq<u8>, j: int)
    requires
        header_is_sound(stream),
        0 <= j,
        16 * j < stream[2] - 5,
        !block_is_sound(stream, 10, stream[2] - 5, j),
        forall|i: int| 0 <= i < j ==> #[trigger] block_is_sound(stream, 10, stream[2] - 5, i),
    ensures
        ({
            let end = 10 + 18 * j + held_by_block(stream[2] - 5, j) + 2;
            link::read_from(stream) == if stream.len() < end {
                Reading::Refused { error: Error::CutOff(Part::Block), rest: Seq::empty() }
            } else {
                Reading::Refused { error: Error::BlockCrc, rest: stream.skip(end) }
            }
        }),
{
    let n = stream[2] - 5;
    let left = stream.skip(10);
    lemma_header_is_sound(stream);
    lemma_block_behind_header(stream, n, j);
    assert forall|i: int| 0 <= i < j implies #[trigger] block_is_sound(left, 0, n, i) by {
        lemma_block_behind_header(stream, n, i);
        assert(block_is_sound(stream, 10, n, i));
    }
    lemma_first_faulty_block(link::announced(stream.take(10)), n as nat, left, j);
    let end = 10 + 18 * j + held_by_block(n, j) + 2;
    if stream.len() >= end {
        assert(left.skip(end - 10) =~= stream.skip(end));
    }
}

proof fn lemma_block_behind_header(stream: Seq<u8>, n: int, j: int)
    requires
        stream.len() >= 10,
        0 <= j,
        16 * j < n,
    ensures
        block_is_sound(stream, 10, n, j) == block_is_sound(stream.skip(10), 0, n, j),
{
    let at = 10 + 18 * j;
    let end = at + held_by_block(n, j);
    if end + 2 <= stream.len() {
        assert(stream.skip(10).subrange(at - 10, end - 10) =~= stream.subrange(at, end));
    }
}

proof fn lemma_sound_blocks(begun: FrameView, remaining: nat, stream: Seq<u8>) -> (data: Seq<u8>)
    requires
        forall|j: int|
            0 <= j && 16 * j < remaining ==> #[trigger] block_is_sound(
                stream,
                0,
                remaining as int,
                j,
            ),
    ensures
        data.len() == remaining,
        forall|k: int| 0 <= k < remaining ==> #[trigger] data[k] == stream[k + 2 * (k / 16)],
        link::read_blocks(begun, remaining, stream) == (Reading::Framed {
            frame: link::extended(begun, data),
            rest: stream.skip((remaining + 2 * ((remaining + 15) / 16)) as int),
        }),
        remaining + 2 * ((remaining + 15) / 16) <= stream.len(),
    decreases remaining,
{
    let n = remaining as int;
    if n == 0 {
        let data = Seq::<u8>::empty();
        assert(link::extended(begun, data) =~= begun);
        assert(stream.skip(0) =~= stream);
        data
    } else {
        let m = held_by_block(n, 0);
        assert(block_is_sound(stream, 0, n, 0));
        lemma_first_block(begun, remaining, stream);
        let head = stream.take(m);
        let left = stream.skip(m + 2);
        let next = link::extended(begun, head);
        assert forall|j: int| 0 <= j && 16 * j < n - m implies #[trigger] block_is_sound(
            left,
            0,
            n - m,
            j,
        ) by {
            lemma_block_moves_up(stream, 0, n, j + 1);
            assert(block_is_sound(stream, 0, n, j + 1));
        }
        let tail = lemma_sound_blocks(next, (n - m) as nat, left);
        let data = head + tail;
        assert forall|k: int| 0 <= k < n implies #[trigger] data[k] == stream[k + 2 * (k / 16)] by {
            if k >= m {
                assert(tail[k - m] == left[k - m + 2 * ((k - m) / 16)]);
            }
        }
        assert(link::extended(next, tail) =~= link::extended(begun, data));
        let over = n - m + 2 * ((n - m + 15) / 16);
        assert(m + 2 + over == n + 2 * ((n + 15) / 16));
        lemma_skip_twice(stream, m + 2, over);
        data
    }
}

proof fn lemma_skip_twice(stream: Seq<u8>, a: int, b: int)
    requires
        0 <= a,
        0 <= b,
        a + b <= stream.len(),
    ensures
        stream.skip(a).skip(b) == stream.skip(a + b),
{
    assert(stream.skip(a).skip(b) =~= stream.skip(a + b));
}

/// Behind a sound header, where every block is sound, a frame is read: what
/// each byte of it says, and what follows it left.
pub proof fn law_sound_frame_is_read(stream: Seq<u8>)
    requires
        header_is_sound(stream),
        forall|j: int|
            0 <= j && 16 * j < stream[2] - 5 ==> #[trigger] block_is_sound(
                stream,
                10,
                stream[2] - 5,
                j,
            ),
    ensures
        ({
            let n = stream[2] - 5;
            &&& link::read_from(stream) matches Reading::Framed { frame, rest }
            &&& frame.control == stream[3]
            &&& frame.destination == stream[4] + 256 * stream[5]
            &&& frame.source == stream[6] + 256 * stream[7]
            &&& frame.user_data.len() == n
            &&& forall|k: int|
                0 <= k < n ==> #[trigger] frame.user_data[k] == stream[10 + k + 2 * (k / 16)]
            &&& rest == stream.skip(10 + n + 2 * ((n + 15) / 16))
        }),
{
    let n = stream[2] - 5;
    let left = stream.skip(10);
    let begun = link::announced(stream.take(10));
    lemma_header_is_sound(stream);
    crc::law_low_byte_comes_first(0, stream[4], stream[5]);
    crc::law_low_byte_comes_first(0, stream[6], stream[7]);
    assert forall|j: int| 0 <= j && 16 * j < n implies #[trigger] block_is_sound(left, 0, n, j) by {
        lemma_block_behind_header(stream, n, j);
        assert(block_is_sound(stream, 10, n, j));
    }
    let data = lemma_sound_blocks(begun, n as nat, left);
    lemma_skip_twice(stream, 10, n + 2 * ((n + 15) / 16));
    assert(link::extended(begun, data).user_data =~= data);
    assert forall|k: int| 0 <= k < n implies #[trigger] data[k] == stream[10 + k + 2 * (k
        / 16)] by {
        assert(data[k] == left[k + 2 * (k / 16)]);
    }
}

/// A reader at `before`, fed the bytes of `stream` from `at` on that it wants,
/// has come to `after` where those end, at `end`.
#[verifier::opaque]
pub open spec fn reader_steps(
    stream: Seq<u8>,
    before: Progress,
    at: int,
    after: Progress,
    end: int,
) -> bool {
    &&& at + link::wanted_at(before) == end
    &&& end <= stream.len()
    &&& link::fed(before, stream.subrange(at, end)) == Ok::<Step, Error>(Step::More(after))
}

/// A reader that begins at the start, and is fed the bytes of `stream` as many
/// at a time as it wants, has come to `stages` where it had been fed `fed_by`
/// bytes.
pub open spec fn reader_goes(stream: Seq<u8>, stages: Seq<Progress>, fed_by: Seq<int>) -> bool {
    &&& stages.len() == fed_by.len()
    &&& stages.len() > 0
    &&& stages[0] is Start
    &&& fed_by[0] == 0
    &&& forall|i: int|
        0 < i < stages.len() ==> reader_steps(
            stream,
            stages[i - 1],
            fed_by[i - 1],
            #[trigger] stages[i],
            fed_by[i],
        )
}

/// What a reader comes to that is at `stage` and has been fed `at` bytes of
/// `stream`, if no more than one step is left to it.
#[verifier::opaque]
pub open spec fn comes_to(stream: Seq<u8>, stage: Progress, at: int) -> Option<Reading> {
    let end = at + link::wanted_at(stage);
    if end > stream.len() {
        match link::closed_at(stage) {
            None => Some(Reading::Closed),
            Some(error) => Some(Reading::Refused { error, rest: Seq::empty() }),
        }
    } else {
        match link::fed(stage, stream.subrange(at, end)) {
            Ok(Step::Done(frame)) => Some(Reading::Framed { frame, rest: stream.skip(end) }),
            Err(error) => Some(Reading::Refused { error, rest: stream.skip(end) }),
            Ok(Step::More(_)) => None,
        }
    }
}

proof fn lemma_reader_step(
    stream: Seq<u8>,
    before: Progress,
    at: int,
    after: Progress,
    end: int,
)
    requires
        0 <= at <= stream.len(),
        link::lacking(before),
        reader_steps(stream, before, at, after, end),
    ensures
        0 <= end <= stream.len(),
        link::lacking(after),
        link::read_on(after, stream.skip(end)) == link::read_on(before, stream.skip(at)),
{
    reveal(reader_steps);
    let n = link::wanted_at(before) as int;
    let left = stream.skip(at);
    assert(left.take(n) =~= stream.subrange(at, end));
    assert(left.skip(n) =~= stream.skip(end));
    link::law_reading_goes_by_steps(before, left);
}

proof fn lemma_reader_ends(stream: Seq<u8>, stage: Progress, at: int)
    requires
        0 <= at <= stream.len(),
        link::lacking(stage),
        comes_to(stream, stage, at) is Some,
    ensures
        link::read_on(stage, stream.skip(at)) == comes_to(stream, stage, at)->0,
{
    reveal(comes_to);
    let n = link::wanted_at(stage) as int;
    let left = stream.skip(at);
    link::law_reading_goes_by_steps(stage, left);
    if at + n <= stream.len() {
        assert(left.take(n) =~= stream.subrange(at, at + n));
        assert(left.skip(n) =~= stream.skip(at + n));
    }
}

proof fn lemma_reader_goes(stream: Seq<u8>, stages: Seq<Progress>, fed_by: Seq<int>, i: int)
    requires
        reader_goes(stream, stages, fed_by),
        0 <= i < stages.len(),
    ensures
        0 <= fed_by[i] <= stream.len(),
        link::lacking(stages[i]),
        link::read_on(stages[i], stream.skip(fed_by[i])) == link::read_from(stream),
    decreases i,
{
    if i == 0 {
        reveal(link::read_on);
        assert(stream.skip(0) =~= stream);
    } else {
        lemma_reader_goes(stream, stages, fed_by, i - 1);
        assert(reader_steps(stream, stages[i - 1], fed_by[i - 1], stages[i], fed_by[i]));
        lemma_reader_step(stream, stages[i - 1], fed_by[i - 1], stages[i], fed_by[i]);
    }
}

/// A reader that is fed what it wants comes to what reading the same bytes at
/// once comes to: the same frame, the same refusal, or the same closing of the
/// peer, with the same bytes left.
pub proof fn law_reader_reads_the_same(stream: Seq<u8>, stages: Seq<Progress>, fed_by: Seq<int>)
    requires
        reader_goes(stream, stages, fed_by),
        comes_to(stream, stages.last(), fed_by.last()) is Some,
    ensures
        comes_to(stream, stages.last(), fed_by.last()) == Some(link::read_from(stream)),
{
    lemma_reader_goes(stream, stages, fed_by, stages.len() - 1);
    lemma_reader_ends(stream, stages.last(), fed_by.last());
}

/// A reader always wants something: what it is fed next is never nothing, so
/// over a stream that ends it comes to an end. It wants the first byte, then
/// the rest of the header, then each block with its check.
pub proof fn law_reader_wants_something(progress: Progress)
    ensures
        1 <= link::wanted_at(progress) <= 18,
        progress is Start ==> link::wanted_at(progress) == 1,
        progress is Header ==> link::wanted_at(progress) == 9,
        progress matches Progress::Blocks { remaining, .. } ==> link::wanted_at(progress) == 2
            + if remaining < 16 {
            remaining as int
        } else {
            16
        },
{
}

/// What a reader is doing: one that has read nothing is at the start, one that
/// has a byte of it is at the header, and one that has all of it is at a block.
pub proof fn law_what_a_reader_is_doing(progress: Progress)
    ensures
        progress is Start ==> link::doing_at(progress) == "reading the start"@,
        progress is Header ==> link::doing_at(progress) == "reading the link header"@,
        progress is Blocks ==> link::doing_at(progress) == "reading a data block"@,
{
}

/// A frame, or a step of its reading, is seen as what it holds.
pub proof fn law_frame_is_seen_as_it_is(frame: Frame)
    ensures
        frame@.control == frame.control,
        frame@.destination == frame.destination,
        frame@.source == frame.source,
        frame@.user_data == frame.user_data@,
        Fed::Done(frame)@ == Step::Done(frame@),
{
}

/// The numbers of the standard.
pub proof fn law_numbers_of_the_standard()
    ensures
        START@ == seq![0x05u8, 0x64u8],
        MAX_USER_DATA == 250,
        MAX_SEGMENT == 249,
        CONTROL_MASTER_DATA == 0xc4,
        CONTROL_OUTSTATION_DATA == 0x44,
{
    assert(START@ =~= seq![0x05u8, 0x64u8]);
}

} // verus!
