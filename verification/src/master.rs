//! The master's side of a connection: application fragments in, frames out.

use vstd::prelude::*;

use crate::error::Error;
use crate::frame_laws;
use crate::link;
use crate::link::{Frame, FrameView, Reading};
use crate::segment;

verus! {

/// The frame that carries the `i`th segment of `fragment`.
pub open spec fn frame_at(
    source: u16,
    destination: u16,
    sequence: u8,
    fragment: Seq<u8>,
    i: int,
) -> FrameView {
    FrameView {
        control: link::CONTROL_MASTER_DATA,
        destination,
        source,
        user_data: segment::segment_bytes(fragment, sequence, i),
    }
}

/// The frames that carry `fragment`, as they travel.
pub open spec fn frames_of(
    source: u16,
    destination: u16,
    sequence: u8,
    fragment: Seq<u8>,
) -> Seq<Seq<u8>> {
    Seq::new(
        segment::segment_count(fragment.len()),
        |i: int| link::frame_bytes(frame_at(source, destination, sequence, fragment, i)),
    )
}

/// A frame that carries a segment, byte by byte: the start bytes, the length,
/// control byte 0xc4, the outstation's address and the master's own; then the
/// segment's header, with bit 0x40 set in the first frame alone, bit 0x80 in
/// the last alone and the number counted on from `sequence` below them; then
/// the fragment's bytes, 249 to a frame. Read back, it is that frame and
/// nothing more.
pub proof fn law_sent_frame_byte_by_byte(
    source: u16,
    destination: u16,
    sequence: u8,
    fragment: Seq<u8>,
    i: int,
)
    requires
        0 <= i < frames_of(source, destination, sequence, fragment).len(),
    ensures
        ({
            let frames = frames_of(source, destination, sequence, fragment);
            let f = frames[i];
            let n = if fragment.len() - 249 * i < 249 {
                fragment.len() - 249 * i
            } else {
                249
            };
            &&& frames.len() == if fragment.len() == 0 {
                1
            } else {
                (fragment.len() + 248) / 249
            }
            &&& f[0] == 0x05 && f[1] == 0x64
            &&& f[2] == 6 + n
            &&& f[3] == 0xc4
            &&& f[4] + 256 * f[5] == destination
            &&& f[6] + 256 * f[7] == source
            &&& f[10] & 0x40 != 0 <==> i == 0
            &&& f[10] & 0x80 != 0 <==> i + 1 == frames.len()
            &&& f[10] & 0x3f == (sequence + i) % 64
            &&& forall|k: int|
                0 <= k < n ==> f[11 + k + 2 * ((k + 1) / 16)] == #[trigger] fragment[249 * i + k]
            &&& link::read_from(f) matches Reading::Framed { frame, rest } && {
                &&& rest.len() == 0
                &&& frame.control == 0xc4
                &&& frame.destination == destination
                &&& frame.source == source
                &&& frame.user_data.len() == 1 + n
                &&& frame.user_data[0] == f[10]
                &&& forall|k: int|
                    0 <= k < n ==> frame.user_data[k + 1] == #[trigger] fragment[249 * i + k]
            }
        }),
{
    let frames = frames_of(source, destination, sequence, fragment);
    let frame = frame_at(source, destination, sequence, fragment, i);
    let data = frame.user_data;
    let f = frames[i];
    segment::law_segments_byte_by_byte(fragment, sequence);
    assert(data == segment::segment_bytes(fragment, sequence, i));
    frame_laws::law_frame_byte_by_byte(frame);
    frame_laws::law_encoded_frame_reads_back(frame, Seq::empty());
    assert(f + Seq::<u8>::empty() =~= f);
    assert(f[10 + 0 + 2 * (0int / 16)] == data[0]);
    assert forall|k: int| 0 <= k < data.len() - 1 implies f[11 + k + 2 * ((k + 1) / 16)]
        == #[trigger] fragment[249 * i + k] && data[k + 1] == fragment[249 * i + k] by {
        assert(f[10 + (k + 1) + 2 * ((k + 1) / 16)] == data[k + 1]);
    }
}

/// The numbers run on from one fragment to the next: the first frame of the
/// second has the number one on from the last frame of the first.
pub proof fn law_numbers_run_on(
    source: u16,
    destination: u16,
    sequence: u8,
    fragment: Seq<u8>,
    other: Seq<u8>,
)
    ensures
        ({
            let frames = frames_of(source, destination, sequence, fragment);
            let next = segment::sequence_after(sequence, segment::segment_count(fragment.len()));
            let others = frames_of(source, destination, next, other);
            &&& frames.len() > 0
            &&& others.len() > 0
            &&& others[0][10] & 0x3f == ((frames.last()[10] & 0x3f) + 1) % 64
        }),
{
    let frames = frames_of(source, destination, sequence, fragment);
    let count = segment::segment_count(fragment.len());
    let next = segment::sequence_after(sequence, count);
    segment::law_count_is_positive(fragment.len());
    segment::law_count_is_positive(other.len());
    lemma_number(source, destination, sequence, fragment, frames.len() - 1);
    lemma_number(source, destination, next, other, 0);
}

proof fn lemma_number(
    source: u16,
    destination: u16,
    sequence: u8,
    fragment: Seq<u8>,
    i: int,
)
    requires
        0 <= i < frames_of(source, destination, sequence, fragment).len(),
    ensures
        frames_of(source, destination, sequence, fragment)[i][10] & 0x3f == (sequence + i) % 64,
{
    law_sent_frame_byte_by_byte(source, destination, sequence, fragment, i);
}

proof fn lemma_control(
    source: u16,
    destination: u16,
    sequence: u8,
    fragment: Seq<u8>,
    i: int,
)
    requires
        0 <= i < frames_of(source, destination, sequence, fragment).len(),
    ensures
        frames_of(source, destination, sequence, fragment)[i][3] == 0xc4,
{
    law_sent_frame_byte_by_byte(source, destination, sequence, fragment, i);
}

/// The master's side of one connection.
pub struct Master {
    source: u16,
    destination: u16,
    sequence: u8,
}

impl Master {
    /// The master's own link address.
    pub closed spec fn source(&self) -> u16 {
        self.source
    }

    /// The outstation's link address.
    pub closed spec fn destination(&self) -> u16 {
        self.destination
    }

    /// The sequence number of the next segment to be sent.
    pub closed spec fn sequence(&self) -> u8 {
        self.sequence
    }

    /// The master at `source` that speaks to `destination`, before it has sent
    /// anything.
    #[must_use]
    pub fn new(source: u16, destination: u16) -> (r: Master)
        ensures
            r.source() == source,
            r.destination() == destination,
            r.sequence() == 0,
    {
        Master { source, destination, sequence: 0 }
    }

    /// Send `fragment` as one or more frames: the bytes of each, to be written
    /// in this order.
    ///
    /// # Errors
    /// None: every segment fits a frame.
    pub fn send_fragment(&mut self, fragment: &[u8]) -> (r: Result<Vec<Vec<u8>>, Error>)
        ensures
            r matches Ok(frames) && frames@.map_values(|f: Vec<u8>| f@) == frames_of(
                old(self).source(),
                old(self).destination(),
                old(self).sequence(),
                fragment@,
            ),
            final(self).source() == old(self).source(),
            final(self).destination() == old(self).destination(),
            final(self).sequence() == segment::sequence_after(
                old(self).sequence(),
                segment::segment_count(fragment@.len()),
            ),
            r matches Ok(frames) && final(self).sequence() == (old(self).sequence()
                + frames@.len()) % 64,
            r matches Ok(frames) && forall|i: int|
                0 <= i < frames@.len() ==> (#[trigger] frames@[i])@[3] == 0xc4,
    {
        let ghost sent = frames_of(self.source, self.destination, self.sequence, fragment@);
        let segments: Vec<Vec<u8>> = segment::segments(fragment, self.sequence);
        let ghost all = segments@;
        assert(segments@.len() <= fragment.len() / 249 + 1) by {
            assert(link::MAX_SEGMENT == 249);
        }
        self.sequence = segment::next_sequence(self.sequence, segments.len());
        let mut frames: Vec<Vec<u8>> = Vec::new();
        for user_data in it: segments
            invariant
                self.source == old(self).source,
                self.destination == old(self).destination,
                self.sequence == segment::sequence_after(old(self).sequence, sent.len()),
                sent == frames_of(
                    old(self).source,
                    old(self).destination,
                    old(self).sequence,
                    fragment@,
                ),
                it.seq() == all,
                all.len() == sent.len(),
                forall|i: int|
                    0 <= i < all.len() ==> (#[trigger] all[i])@ == segment::segment_bytes(
                        fragment@,
                        old(self).sequence,
                        i,
                    ),
                frames@.len() == it.index(),
                forall|i: int| 0 <= i < frames@.len() ==> (#[trigger] frames@[i])@ == sent[i],
        {
            proof {
                segment::law_pieces_lie_end_to_end(fragment@.len(), it.index());
                assert(user_data@ == all[it.index()]@);
            }
            let frame = Frame {
                control: link::CONTROL_MASTER_DATA,
                destination: self.destination,
                source: self.source,
                user_data,
            };
            match link::encode(&frame) {
                Ok(bytes) => frames.push(bytes),
                Err(error) => {
                    return Err(error);
                },
            }
        }
        assert(frames@.map_values(|f: Vec<u8>| f@) =~= sent);
        proof {
            assert forall|i: int| 0 <= i < frames@.len() implies (#[trigger] frames@[i])@[3]
                == 0xc4 by {
                lemma_control(
                    old(self).source,
                    old(self).destination,
                    old(self).sequence,
                    fragment@,
                    i,
                );
            }
        }
        Ok(frames)
    }
}

} // verus!
