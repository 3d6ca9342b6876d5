//! What holds of every fragment that a master sends and an outstation
//! receives.

use vstd::prelude::*;

use crate::error::Error;
use crate::frame_laws;
use crate::link;
use crate::link::{FrameView, Reading, MAX_USER_DATA};
use crate::master;
use crate::outstation;
use crate::outstation::{Arrived, ArrivedView, Joined, Made, Making, Reassembly, Receiving};
use crate::segment;

verus! {

/// A connection as the outstation sees it: the peer that the master speaks
/// from, and the link addresses in its frames.
pub struct Link {
    pub peer: Seq<char>,
    pub source: u16,
    pub destination: u16,
}

/// The bytes that carry `fragment`.
pub open spec fn sent(link: Link, sequence: u8, fragment: Seq<u8>) -> Seq<u8> {
    master::frames_of(link.source, link.destination, sequence, fragment).flatten()
}

/// `fragment` as it arrives.
pub open spec fn arrival(link: Link, sequence: u8, fragment: Seq<u8>) -> ArrivedView {
    ArrivedView {
        origin_uri: outstation::origin_of(
            link.peer,
            link.source,
            link.destination,
            segment::sequence_after(sequence, 0),
        ),
        bytes: fragment,
    }
}

/// What the first `i` segments make of `fragment`.
pub open spec fn made_of(link: Link, sequence: u8, fragment: Seq<u8>, i: int) -> Making {
    if i == 0 {
        outstation::nothing_yet()
    } else {
        Making {
            expected: Some(segment::sequence_after(sequence, i as nat)),
            origin: arrival(link, sequence, fragment).origin_uri,
            fragment: fragment.take(segment::piece_start(fragment.len(), i)),
        }
    }
}

/// The frame that carries the `i`th segment.
pub open spec fn frame_at(link: Link, sequence: u8, fragment: Seq<u8>, i: int) -> FrameView {
    master::frame_at(link.source, link.destination, sequence, fragment, i)
}

/// Waiting for the rest of a fragment, folded up.
#[verifier::opaque]
spec fn waiting(peer: Seq<char>, making: Making, stream: Seq<u8>) -> Receiving {
    outstation::next_from(peer, making, stream)
}

/// Every segment of every fragment fits a frame.
pub proof fn law_every_segment_fits_a_frame(fragment: Seq<u8>, sequence: u8, i: int)
    requires
        0 <= i < segment::segment_count(fragment.len()),
    ensures
        1 <= segment::segment_bytes(fragment, sequence, i).len() <= MAX_USER_DATA,
{
    segment::law_pieces_lie_end_to_end(fragment.len(), i);
}

/// One more segment in order makes one more piece of the fragment.
proof fn lemma_join(link: Link, sequence: u8, fragment: Seq<u8>, i: int)
    requires
        0 <= i < segment::segment_count(fragment.len()),
    ensures
        outstation::joined(
            made_of(link, sequence, fragment, i),
            link.peer,
            frame_at(link, sequence, fragment, i),
        ) == Ok::<Made, Error>(
            if i + 1 == segment::segment_count(fragment.len()) {
                Made::Whole(arrival(link, sequence, fragment))
            } else {
                Made::More(made_of(link, sequence, fragment, i + 1))
            },
        ),
{
    let len = fragment.len();
    let frame = frame_at(link, sequence, fragment, i);
    let header = segment::segment_at(len, sequence, i);
    let making = made_of(link, sequence, fragment, i);
    segment::law_pieces_lie_end_to_end(len, i);
    segment::law_header_round_trip(header, 0);
    segment::law_sequence_counts_on(sequence, i as nat, 1);
    let data = segment::piece(fragment, i);
    assert(frame.user_data.skip(1) =~= data);
    assert(making.fragment + data =~= fragment.take(segment::piece_start(len, i + 1)));
    if i + 1 == segment::segment_count(len) {
        assert(fragment.take(len as int) =~= fragment);
    }
}

/// One more frame in order, whatever follows it.
proof fn lemma_step(link: Link, sequence: u8, fragment: Seq<u8>, i: int, after: Seq<u8>)
    requires
        0 <= i < segment::segment_count(fragment.len()),
    ensures
        waiting(
            link.peer,
            made_of(link, sequence, fragment, i),
            link::frame_bytes(frame_at(link, sequence, fragment, i)) + after,
        ) == if i + 1 == segment::segment_count(fragment.len()) {
            Receiving::Whole { arrived: arrival(link, sequence, fragment), rest: after }
        } else {
            waiting(link.peer, made_of(link, sequence, fragment, i + 1), after)
        },
{
    reveal(waiting);
    law_every_segment_fits_a_frame(fragment, sequence, i);
    frame_laws::law_encoded_frame_reads_back(frame_at(link, sequence, fragment, i), after);
    lemma_join(link, sequence, fragment, i);
}

/// The first `i` frames, and then whatever follows.
proof fn lemma_first_frames(link: Link, sequence: u8, fragment: Seq<u8>, i: int, after: Seq<u8>)
    requires
        0 <= i < segment::segment_count(fragment.len()),
    ensures
        waiting(
            link.peer,
            outstation::nothing_yet(),
            master::frames_of(link.source, link.destination, sequence, fragment).take(i).flatten()
                + after,
        ) == waiting(link.peer, made_of(link, sequence, fragment, i), after),
    decreases i,
{
    let frames = master::frames_of(link.source, link.destination, sequence, fragment);
    if i == 0 {
        assert(frames.take(0).flatten() + after =~= after);
    } else {
        let before = frames.take(i - 1);
        let frame = frames[i - 1];
        assert(frames.take(i) =~= before.push(frame));
        before.lemma_flatten_push(frame);
        assert(before.flatten() + frame + after =~= before.flatten() + (frame + after));
        lemma_first_frames(link, sequence, fragment, i - 1, frame + after);
        lemma_step(link, sequence, fragment, i - 1, after);
    }
}

proof fn lemma_comes_back(link: Link, sequence: u8, fragment: Seq<u8>, after: Seq<u8>)
    ensures
        waiting(
            link.peer,
            outstation::nothing_yet(),
            sent(link, sequence, fragment) + after,
        ) == (Receiving::Whole { arrived: arrival(link, sequence, fragment), rest: after }),
{
    let frames = master::frames_of(link.source, link.destination, sequence, fragment);
    let last = segment::segment_count(fragment.len()) - 1;
    segment::law_count_is_positive(fragment.len());
    let before = frames.take(last);
    assert(frames =~= before.push(frames[last]));
    before.lemma_flatten_push(frames[last]);
    assert(sent(link, sequence, fragment) + after =~= before.flatten() + (frames[last] + after));
    lemma_first_frames(link, sequence, fragment, last, frames[last] + after);
    lemma_step(link, sequence, fragment, last, after);
}

/// A fragment that a master sends comes back whole, whatever its length and
/// whatever number its segments begin at, with what the link knew of it; and
/// what follows it is left to be read.
pub proof fn law_fragment_comes_back_whole(
    link: Link,
    sequence: u8,
    fragment: Seq<u8>,
    after: Seq<u8>,
)
    ensures
        outstation::next_from(
            link.peer,
            outstation::nothing_yet(),
            sent(link, sequence, fragment) + after,
        ) == (Receiving::Whole { arrived: arrival(link, sequence, fragment), rest: after }),
{
    lemma_comes_back(link, sequence, fragment, after);
    reveal(waiting);
}

/// The bytes that carry `fragments`, one after another.
pub open spec fn all_sent(link: Link, sequence: u8, fragments: Seq<Seq<u8>>) -> Seq<u8>
    decreases fragments.len(),
{
    if fragments.len() == 0 {
        Seq::empty()
    } else {
        sent(link, sequence, fragments[0]) + all_sent(
            link,
            segment::sequence_after(sequence, segment::segment_count(fragments[0].len())),
            fragments.drop_first(),
        )
    }
}

/// `fragments` as they arrive.
pub open spec fn arrivals(link: Link, sequence: u8, fragments: Seq<Seq<u8>>) -> Seq<ArrivedView>
    decreases fragments.len(),
{
    if fragments.len() == 0 {
        Seq::empty()
    } else {
        seq![arrival(link, sequence, fragments[0])] + arrivals(
            link,
            segment::sequence_after(sequence, segment::segment_count(fragments[0].len())),
            fragments.drop_first(),
        )
    }
}

/// All the fragments that a master sends before it closes arrive, whole and in
/// order, each numbered on from the one before it.
pub proof fn law_all_fragments_arrive_in_order(
    link: Link,
    sequence: u8,
    fragments: Seq<Seq<u8>>,
)
    ensures
        outstation::all_from(link.peer, all_sent(link, sequence, fragments)) == Ok::<
            Seq<ArrivedView>,
            Error,
        >(arrivals(link, sequence, fragments)),
        arrivals(link, sequence, fragments).len() == fragments.len(),
        forall|i: int|
            0 <= i < fragments.len() ==> (#[trigger] arrivals(link, sequence, fragments)[i]).bytes
                == fragments[i],
    decreases fragments.len(),
{
    if fragments.len() > 0 {
        let next = segment::sequence_after(
            sequence,
            segment::segment_count(fragments[0].len()),
        );
        let rest = fragments.drop_first();
        law_all_fragments_arrive_in_order(link, next, rest);
        law_fragment_comes_back_whole(link, sequence, fragments[0], all_sent(link, next, rest));
        assert forall|i: int| 0 <= i < fragments.len() implies (#[trigger] arrivals(
            link,
            sequence,
            fragments,
        )[i]).bytes == fragments[i] by {
            if i > 0 {
                assert(arrivals(link, sequence, fragments)[i] == arrivals(link, next, rest)[i - 1]);
                assert(fragments[i] == rest[i - 1]);
            }
        }
    }
}

proof fn lemma_cut_off(link: Link, sequence: u8, fragment: Seq<u8>, i: int, n: int)
    requires
        0 <= i < segment::segment_count(fragment.len()),
        0 <= n < master::frames_of(link.source, link.destination, sequence, fragment).skip(
            i,
        ).flatten().len(),
        i > 0 || n > 0,
    ensures
        waiting(
            link.peer,
            made_of(link, sequence, fragment, i),
            master::frames_of(link.source, link.destination, sequence, fragment).skip(
                i,
            ).flatten().take(n),
        ) is Refused,
    decreases segment::segment_count(fragment.len()) - i,
{
    let frames = master::frames_of(link.source, link.destination, sequence, fragment);
    let whole = frames.skip(i).flatten();
    let frame = frame_at(link, sequence, fragment, i);
    let bytes = link::frame_bytes(frame);
    let others = frames.skip(i + 1);
    assert(frames.skip(i).drop_first() =~= others);
    assert(whole =~= bytes + others.flatten());
    law_every_segment_fits_a_frame(fragment, sequence, i);
    if n == 0 {
        assert(whole.take(0).len() == 0);
        reveal(waiting);
    } else if n < bytes.len() {
        assert(whole.take(n) =~= bytes.take(n));
        frame_laws::law_cut_off_frame_is_refused(frame, n);
        lemma_no_frame(link.peer, made_of(link, sequence, fragment, i), whole.take(n));
    } else {
        let m = n - bytes.len();
        if i + 1 == frames.len() {
            assert(others.flatten() =~= Seq::empty());
        }
        assert(whole.take(n) =~= bytes + others.flatten().take(m));
        lemma_step(link, sequence, fragment, i, others.flatten().take(m));
        lemma_cut_off(link, sequence, fragment, i + 1, m);
    }
}

/// A fragment of which only the first `n` bytes come before the master closes
/// is refused, wherever they end: inside a frame or between two.
pub proof fn law_cut_off_fragment_is_refused(
    link: Link,
    sequence: u8,
    fragment: Seq<u8>,
    n: int,
)
    requires
        0 < n < sent(link, sequence, fragment).len(),
    ensures
        outstation::next_from(
            link.peer,
            outstation::nothing_yet(),
            sent(link, sequence, fragment).take(n),
        ) is Refused,
{
    reveal(waiting);
    let frames = master::frames_of(link.source, link.destination, sequence, fragment);
    segment::law_count_is_positive(fragment.len());
    assert(frames.skip(0) =~= frames);
    lemma_cut_off(link, sequence, fragment, 0, n);
}

/// Bytes that are no frame are no fragment.
proof fn lemma_no_frame(peer: Seq<char>, making: Making, stream: Seq<u8>)
    requires
        link::read_from(stream) is Refused,
    ensures
        waiting(peer, making, stream) is Refused,
{
    reveal(waiting);
}

proof fn lemma_damaged_frame(
    peer: Seq<char>,
    making: Making,
    frame: FrameView,
    damaged: Seq<u8>,
    at: int,
    after: Seq<u8>,
)
    requires
        frame.user_data.len() <= MAX_USER_DATA,
        frame_laws::differ_near(link::frame_bytes(frame), damaged, at),
    ensures
        waiting(peer, making, damaged + after) is Refused,
{
    frame_laws::law_damaged_frame_is_refused(frame, damaged, at, after);
    lemma_no_frame(peer, making, damaged + after);
}

proof fn lemma_damaged(
    link: Link,
    sequence: u8,
    fragment: Seq<u8>,
    i: int,
    damaged: Seq<u8>,
    at: int,
    after: Seq<u8>,
)
    requires
        0 <= i < segment::segment_count(fragment.len()),
        frame_laws::differ_near(
            master::frames_of(link.source, link.destination, sequence, fragment).skip(i).flatten(),
            damaged,
            at,
        ),
    ensures
        waiting(
            link.peer,
            made_of(link, sequence, fragment, i),
            damaged + after,
        ) is Refused,
    decreases segment::segment_count(fragment.len()) - i,
{
    let frames = master::frames_of(link.source, link.destination, sequence, fragment);
    let whole = frames.skip(i).flatten();
    let frame = frame_at(link, sequence, fragment, i);
    let bytes = link::frame_bytes(frame);
    let n = bytes.len() as int;
    let left = frames.skip(i + 1).flatten();
    assert(frames.skip(i).drop_first() =~= frames.skip(i + 1));
    assert(whole =~= bytes + left);
    law_every_segment_fits_a_frame(fragment, sequence, i);
    frame_laws::law_damage_splits(whole, damaged, at, n);
    assert(whole.take(n) =~= bytes);
    assert(whole.skip(n) =~= left);
    let tail = damaged.skip(n);
    assert(damaged + after =~= damaged.take(n) + (tail + after));
    if damaged.take(n) != bytes {
        lemma_damaged_frame(
            link.peer,
            made_of(link, sequence, fragment, i),
            frame,
            damaged.take(n),
            at,
            tail + after,
        );
    } else {
        if i + 1 == frames.len() {
            assert(left =~= Seq::empty());
        }
        lemma_step(link, sequence, fragment, i, tail + after);
        let inner = if at < n { 0 } else { at - n };
        lemma_damaged(link, sequence, fragment, i + 1, tail, inner, after);
    }
}

/// A fragment with damage on its way that stays within two neighbouring bytes,
/// wherever they stand, is refused: nothing else is taken for it.
pub proof fn law_damaged_fragment_is_refused(
    link: Link,
    sequence: u8,
    fragment: Seq<u8>,
    damaged: Seq<u8>,
    at: int,
    after: Seq<u8>,
)
    requires
        frame_laws::differ_near(sent(link, sequence, fragment), damaged, at),
    ensures
        outstation::next_from(
            link.peer,
            outstation::nothing_yet(),
            damaged + after,
        ) is Refused,
{
    reveal(waiting);
    let frames = master::frames_of(link.source, link.destination, sequence, fragment);
    segment::law_count_is_positive(fragment.len());
    assert(frames.skip(0) =~= frames);
    lemma_damaged(link, sequence, fragment, 0, damaged, at, after);
}

/// A master that closes between two frames of a fragment is found out.
pub proof fn law_closing_mid_fragment_is_refused(
    link: Link,
    sequence: u8,
    fragment: Seq<u8>,
    i: int,
)
    requires
        0 < i < segment::segment_count(fragment.len()),
    ensures
        outstation::next_from(
            link.peer,
            outstation::nothing_yet(),
            master::frames_of(link.source, link.destination, sequence, fragment).take(i).flatten(),
        ) == (Receiving::Refused { error: Error::ClosedMidFragment, rest: Seq::empty() }),
{
    reveal(waiting);
    let frames = master::frames_of(link.source, link.destination, sequence, fragment);
    let empty = Seq::<u8>::empty();
    assert(frames.take(i).flatten() + empty =~= frames.take(i).flatten());
    lemma_first_frames(link, sequence, fragment, i, empty);
}

/// What is said of the `j`th segment where `i` segments have come.
pub open spec fn out_of_turn(sequence: u8, i: int, j: int) -> Error {
    if i == 0 {
        Error::NotBegun
    } else {
        Error::OutOfSequence {
            found: segment::sequence_after(sequence, j as nat),
            expected: segment::sequence_after(sequence, i as nat),
        }
    }
}

/// Segments that are no multiple of sixty-four apart have different numbers.
proof fn lemma_numbers_differ(sequence: u8, i: int, j: int)
    requires
        0 <= i,
        0 <= j,
        (i - j) % 64 != 0,
    ensures
        segment::sequence_after(sequence, i as nat) != segment::sequence_after(sequence, j as nat),
{
}

proof fn lemma_join_out_of_turn(link: Link, sequence: u8, fragment: Seq<u8>, i: int, j: int)
    requires
        0 <= i,
        0 <= j,
        i != j,
        i > 0 && j > 0 ==> (i - j) % 64 != 0,
    ensures
        outstation::joined(
            made_of(link, sequence, fragment, i),
            link.peer,
            frame_at(link, sequence, fragment, j),
        ) == Err::<Made, Error>(out_of_turn(sequence, i, j)),
{
    segment::law_header_round_trip(segment::segment_at(fragment.len(), sequence, j), 0);
    segment::law_sequence_counts_on(sequence, j as nat, 0);
    if i > 0 && j > 0 {
        lemma_numbers_differ(sequence, i, j);
    }
    assert(frame_at(link, sequence, fragment, j).user_data[0] == segment::header_of(
        segment::segment_at(fragment.len(), sequence, j),
    ));
}

/// A frame that the fragment in the making has no place for.
proof fn lemma_step_refused(
    peer: Seq<char>,
    making: Making,
    frame: FrameView,
    error: Error,
    after: Seq<u8>,
)
    requires
        frame.user_data.len() <= MAX_USER_DATA,
        outstation::joined(making, peer, frame) == Err::<Made, Error>(error),
    ensures
        waiting(peer, making, link::frame_bytes(frame) + after) == (
        Receiving::Refused { error, rest: after }),
{
    reveal(waiting);
    frame_laws::law_encoded_frame_reads_back(frame, after);
}

/// A segment that comes out of its turn is refused: behind the first `i` of a
/// fragment, any of its segments but the next one, save where six bits cannot
/// tell the two apart. Where none came before it, it is refused as one that
/// begins no fragment.
pub proof fn law_segment_out_of_turn_is_refused(
    link: Link,
    sequence: u8,
    fragment: Seq<u8>,
    i: int,
    j: int,
    after: Seq<u8>,
)
    requires
        0 <= i < segment::segment_count(fragment.len()),
        0 <= j < segment::segment_count(fragment.len()),
        i != j,
        i > 0 && j > 0 ==> (i - j) % 64 != 0,
    ensures
        outstation::next_from(
            link.peer,
            outstation::nothing_yet(),
            master::frames_of(link.source, link.destination, sequence, fragment).take(i).flatten()
                + (link::frame_bytes(frame_at(link, sequence, fragment, j)) + after),
        ) == (Receiving::Refused {
            error: out_of_turn(sequence, i, j),
            rest: after,
        }),
{
    reveal(waiting);
    let frame = frame_at(link, sequence, fragment, j);
    law_every_segment_fits_a_frame(fragment, sequence, j);
    lemma_first_frames(link, sequence, fragment, i, link::frame_bytes(frame) + after);
    lemma_join_out_of_turn(link, sequence, fragment, i, j);
    lemma_step_refused(
        link.peer,
        made_of(link, sequence, fragment, i),
        frame,
        out_of_turn(sequence, i, j),
        after,
    );
}

/// A frame without user data is passed over, wherever in a fragment it comes.
pub proof fn law_empty_frame_is_passed_over(
    peer: Seq<char>,
    making: Making,
    frame: FrameView,
    after: Seq<u8>,
)
    requires
        frame.user_data.len() == 0,
    ensures
        outstation::next_from(peer, making, link::frame_bytes(frame) + after)
            == outstation::next_from(peer, making, after),
{
    frame_laws::law_encoded_frame_reads_back(frame, after);
}

/// The frames of `frames` that carry something.
pub open spec fn carrying(frames: Seq<FrameView>) -> Seq<FrameView> {
    frames.filter(|f: FrameView| f.user_data.len() > 0)
}

/// The user data of `frames`, one after another, the first byte taken off each.
pub open spec fn payload(frames: Seq<FrameView>) -> Seq<u8> {
    frames.map_values(|f: FrameView| f.user_data.skip(1)).flatten()
}

/// `frames` as they travel, one after another.
pub open spec fn wire(frames: Seq<FrameView>) -> Seq<u8> {
    frames.map_values(|f: FrameView| link::frame_bytes(f)).flatten()
}

/// The number that the `i`th of a run of segments has, where `frame` carries
/// the first: one on for each, of six bits.
pub open spec fn number_in_run(frame: FrameView, i: int) -> int {
    ((frame.user_data[0] & 0x3f) + i) % 64
}

/// `run` is segments in order, as far as they go: the first of them is marked
/// first and no other, none is marked last, and the numbers run on.
pub open spec fn runs_on(run: Seq<FrameView>) -> bool {
    forall|i: int|
        0 <= i < run.len() ==> {
            let header = (#[trigger] run[i]).user_data[0];
            &&& run[i].user_data.len() > 0
            &&& header & 0x40 != 0 <==> i == 0
            &&& header & 0x80 == 0
            &&& header & 0x3f == number_in_run(run[0], i)
        }
}

/// `frame` carries the segment that is due behind `run`.
pub open spec fn is_due(run: Seq<FrameView>, frame: FrameView) -> bool {
    let header = frame.user_data[0];
    if run.len() == 0 {
        header & 0x40 != 0
    } else {
        header & 0x40 == 0 && header & 0x3f == number_in_run(run[0], run.len() as int)
    }
}

/// The origin of the fragment that `frame` begins.
pub open spec fn origin_from(peer: Seq<char>, frame: FrameView) -> Seq<char> {
    outstation::origin_of(
        peer,
        frame.source,
        frame.destination,
        (frame.user_data[0] & 0x3f) as u8,
    )
}

/// What `run` makes of a fragment.
pub open spec fn made_by(peer: Seq<char>, run: Seq<FrameView>) -> Making {
    if run.len() == 0 {
        outstation::nothing_yet()
    } else {
        Making {
            expected: Some(number_in_run(run[0], run.len() as int) as u8),
            origin: origin_from(peer, run[0]),
            fragment: payload(run),
        }
    }
}

proof fn lemma_payload_push(run: Seq<FrameView>, frame: FrameView)
    ensures
        payload(run.push(frame)) == payload(run) + frame.user_data.skip(1),
{
    let strip = |f: FrameView| f.user_data.skip(1);
    assert(run.push(frame).map_values(strip) =~= run.map_values(strip).push(strip(frame)));
    run.map_values(strip).lemma_flatten_push(strip(frame));
}

proof fn lemma_wire_push(frames: Seq<FrameView>, frame: FrameView)
    ensures
        wire(frames.push(frame)) == wire(frames) + link::frame_bytes(frame),
{
    let lay = |f: FrameView| link::frame_bytes(f);
    assert(frames.push(frame).map_values(lay) =~= frames.map_values(lay).push(lay(frame)));
    frames.map_values(lay).lemma_flatten_push(lay(frame));
}

proof fn lemma_carrying_push(frames: Seq<FrameView>, frame: FrameView)
    ensures
        carrying(frames.push(frame)) == if frame.user_data.len() > 0 {
            carrying(frames).push(frame)
        } else {
            carrying(frames)
        },
{
    reveal(Seq::filter);
    assert(frames.push(frame).drop_last() =~= frames);
}

/// Any frame, whatever it holds and however much, behind any run of segments in
/// order. One that carries nothing changes nothing. The segment that is due
/// adds its data, and, where it is marked last, makes the fragment whole, with
/// the origin of the run's first frame. Any other is refused: as one that
/// begins no fragment where there was no run, else as out of sequence. Whom a
/// later frame is said to come from makes no difference.
pub proof fn law_frame_behind_a_run(
    peer: Seq<char>,
    run: Seq<FrameView>,
    sender: Seq<char>,
    frame: FrameView,
)
    requires
        runs_on(run),
        run.len() == 0 ==> sender == peer,
    ensures
        ({
            let came = outstation::joined(made_by(peer, run), sender, frame);
            let header = frame.user_data[0];
            let longer = run.push(frame);
            &&& frame.user_data.len() == 0 ==> came == Ok::<Made, Error>(
                Made::More(made_by(peer, run)),
            )
            &&& frame.user_data.len() > 0 && is_due(run, frame) && header & 0x80 == 0 ==> came
                == Ok::<Made, Error>(Made::More(made_by(peer, longer)))
            &&& frame.user_data.len() > 0 && is_due(run, frame) && header & 0x80 != 0 ==> came
                == Ok::<Made, Error>(
                Made::Whole(
                    ArrivedView {
                        origin_uri: origin_from(peer, longer[0]),
                        bytes: payload(longer),
                    },
                ),
            )
            &&& frame.user_data.len() > 0 && !is_due(run, frame) && run.len() == 0 ==> came == Err::<
                Made,
                Error,
            >(Error::NotBegun)
            &&& frame.user_data.len() > 0 && !is_due(run, frame) && run.len() > 0 ==> came == Err::<
                Made,
                Error,
            >(
                Error::OutOfSequence {
                    found: header & 0x3f,
                    expected: number_in_run(run[0], run.len() as int) as u8,
                },
            )
        }),
{
    let header = frame.user_data[0];
    segment::law_segment_bits(header);
    lemma_payload_push(run, frame);
    let n = header & 0x3f;
    assert(n < 64 && (header & 0x80 == 0 || header & 0x80 != 0)) by (bit_vector)
        requires
            n == header & 0x3f,
    ;
    segment::law_sequence_counts_by_one(n, 0);
    assert(n & 0x3f == n) by (bit_vector)
        requires
            n < 64,
    ;
    if run.len() == 0 {
        assert(payload(run) =~= Seq::empty());
        assert(payload(run) + frame.user_data.skip(1) =~= frame.user_data.skip(1));
        assert(outstation::nothing_yet().fragment + frame.user_data.skip(1)
            =~= frame.user_data.skip(1));
    } else {
        assert(run.push(frame)[0] == run[0]);
    }
}

/// One more frame, whatever follows it.
proof fn lemma_take_in(
    peer: Seq<char>,
    making: Making,
    frame: FrameView,
    next: Making,
    after: Seq<u8>,
)
    requires
        frame.user_data.len() <= 250,
        outstation::joined(making, peer, frame) == Ok::<Made, Error>(Made::More(next)),
    ensures
        waiting(peer, making, link::frame_bytes(frame) + after) == waiting(peer, next, after),
{
    reveal(waiting);
    frame_laws::law_encoded_frame_reads_back(frame, after);
}

proof fn lemma_finish(
    peer: Seq<char>,
    making: Making,
    frame: FrameView,
    arrived: ArrivedView,
    after: Seq<u8>,
)
    requires
        frame.user_data.len() <= 250,
        outstation::joined(making, peer, frame) == Ok::<Made, Error>(Made::Whole(arrived)),
    ensures
        waiting(peer, making, link::frame_bytes(frame) + after) == (Receiving::Whole {
            arrived,
            rest: after,
        }),
{
    reveal(waiting);
    frame_laws::law_encoded_frame_reads_back(frame, after);
}

/// A run that goes on is one that went on before its last frame.
proof fn lemma_run_before(run: Seq<FrameView>, frame: FrameView)
    requires
        runs_on(run.push(frame)),
    ensures
        runs_on(run),
        frame.user_data.len() > 0,
        is_due(run, frame),
        frame.user_data[0] & 0x80 == 0,
{
    let longer = run.push(frame);
    assert(longer[run.len() as int] == frame);
    assert forall|i: int| 0 <= i < run.len() implies {
        let header = (#[trigger] run[i]).user_data[0];
        &&& run[i].user_data.len() > 0
        &&& header & 0x40 != 0 <==> i == 0
        &&& header & 0x80 == 0
        &&& header & 0x3f == number_in_run(run[0], i)
    } by {
        assert(longer[i] == run[i]);
        assert(longer[0] == run[0]);
    }
    if run.len() > 0 {
        assert(longer[0] == run[0]);
    }
}

proof fn lemma_frames_lead_on(peer: Seq<char>, frames: Seq<FrameView>, after: Seq<u8>)
    requires
        forall|i: int| 0 <= i < frames.len() ==> (#[trigger] frames[i]).user_data.len() <= 250,
        runs_on(carrying(frames)),
    ensures
        waiting(peer, outstation::nothing_yet(), wire(frames) + after) == waiting(
            peer,
            made_by(peer, carrying(frames)),
            after,
        ),
    decreases frames.len(),
{
    if frames.len() == 0 {
        reveal(Seq::filter);
        assert(carrying(frames).len() == 0);
        assert(wire(frames) + after =~= after);
    } else {
        let before = frames.drop_last();
        let frame = frames.last();
        assert(frames =~= before.push(frame));
        let run = carrying(before);
        lemma_carrying_push(before, frame);
        lemma_wire_push(before, frame);
        assert(wire(frames) + after =~= wire(before) + (link::frame_bytes(frame) + after));
        if frame.user_data.len() > 0 {
            lemma_run_before(run, frame);
        }
        lemma_frames_lead_on(peer, before, link::frame_bytes(frame) + after);
        law_frame_behind_a_run(peer, run, peer, frame);
        lemma_take_in(
            peer,
            made_by(peer, run),
            frame,
            made_by(peer, carrying(frames)),
            after,
        );
    }
}

/// Frames in order, behind one another or with frames that carry nothing
/// between them, lead on to what follows them.
pub proof fn law_frames_lead_on(peer: Seq<char>, frames: Seq<FrameView>, after: Seq<u8>)
    requires
        forall|i: int| 0 <= i < frames.len() ==> (#[trigger] frames[i]).user_data.len() <= 250,
        runs_on(carrying(frames)),
    ensures
        outstation::next_from(peer, outstation::nothing_yet(), wire(frames) + after)
            == outstation::next_from(peer, made_by(peer, carrying(frames)), after),
{
    reveal(waiting);
    lemma_frames_lead_on(peer, frames, after);
}

/// A fragment comes back whole from whatever frames carry it, with data of any
/// length in each and any control byte, source and destination, and with frames
/// that carry nothing between them: so long as the segments are in order, the
/// first alone marked first and the last alone marked last. It is their data,
/// one after another, the header byte taken off each; its origin is the first
/// one's; and what follows is left to be read.
pub proof fn law_segments_in_order_come_back_whole(
    peer: Seq<char>,
    frames: Seq<FrameView>,
    after: Seq<u8>,
)
    requires
        frames.len() > 0,
        frames.last().user_data.len() > 0,
        forall|i: int| 0 <= i < frames.len() ==> (#[trigger] frames[i]).user_data.len() <= 250,
        forall|i: int|
            0 <= i < carrying(frames).len() ==> {
                let header = (#[trigger] carrying(frames)[i]).user_data[0];
                &&& header & 0x40 != 0 <==> i == 0
                &&& header & 0x80 != 0 <==> i == carrying(frames).len() - 1
                &&& header & 0x3f == number_in_run(carrying(frames)[0], i)
            },
    ensures
        outstation::next_from(peer, outstation::nothing_yet(), wire(frames) + after) == (
        Receiving::Whole {
            arrived: ArrivedView {
                origin_uri: origin_from(peer, carrying(frames)[0]),
                bytes: payload(carrying(frames)),
            },
            rest: after,
        }),
{
    let before = frames.drop_last();
    let frame = frames.last();
    assert(frames =~= before.push(frame));
    lemma_carrying_push(before, frame);
    lemma_carrying_carries(before);
    lemma_run_but_last(carrying(before), frame);
    lemma_last_of_a_run(peer, before, frame, after);
    reveal(waiting);
}

/// Segments in order, the last alone marked last, are a run and the one that is
/// due behind it.
proof fn lemma_run_but_last(run: Seq<FrameView>, frame: FrameView)
    requires
        forall|i: int| 0 <= i < run.len() ==> (#[trigger] run[i]).user_data.len() > 0,
        forall|i: int|
            0 <= i <= run.len() ==> {
                let header = (#[trigger] run.push(frame)[i]).user_data[0];
                &&& header & 0x40 != 0 <==> i == 0
                &&& header & 0x80 != 0 <==> i == run.len()
                &&& header & 0x3f == number_in_run(run.push(frame)[0], i)
            },
    ensures
        runs_on(run),
        is_due(run, frame),
        frame.user_data[0] & 0x80 != 0,
{
    let longer = run.push(frame);
    assert(longer[run.len() as int] == frame);
    if run.len() > 0 {
        assert(longer[0] == run[0]);
    }
    assert forall|i: int| 0 <= i < run.len() implies {
        let header = (#[trigger] run[i]).user_data[0];
        &&& run[i].user_data.len() > 0
        &&& header & 0x40 != 0 <==> i == 0
        &&& header & 0x80 == 0
        &&& header & 0x3f == number_in_run(run[0], i)
    } by {
        assert(longer[i] == run[i]);
    }
}

/// The segment that is due, marked last, makes the fragment whole.
proof fn lemma_last_of_a_run(
    peer: Seq<char>,
    frames: Seq<FrameView>,
    frame: FrameView,
    after: Seq<u8>,
)
    requires
        forall|i: int| 0 <= i < frames.len() ==> (#[trigger] frames[i]).user_data.len() <= 250,
        runs_on(carrying(frames)),
        0 < frame.user_data.len() <= 250,
        is_due(carrying(frames), frame),
        frame.user_data[0] & 0x80 != 0,
    ensures
        waiting(peer, outstation::nothing_yet(), wire(frames.push(frame)) + after) == (
        Receiving::Whole {
            arrived: ArrivedView {
                origin_uri: origin_from(peer, carrying(frames).push(frame)[0]),
                bytes: payload(carrying(frames).push(frame)),
            },
            rest: after,
        }),
{
    let run = carrying(frames);
    let longer = run.push(frame);
    lemma_wire_push(frames, frame);
    assert(wire(frames.push(frame)) + after =~= wire(frames) + (link::frame_bytes(frame) + after));
    lemma_frames_lead_on(peer, frames, link::frame_bytes(frame) + after);
    law_frame_behind_a_run(peer, run, peer, frame);
    lemma_finish(
        peer,
        made_by(peer, run),
        frame,
        ArrivedView { origin_uri: origin_from(peer, longer[0]), bytes: payload(longer) },
        after,
    );
}

proof fn lemma_carrying_carries(frames: Seq<FrameView>)
    ensures
        forall|i: int|
            0 <= i < carrying(frames).len() ==> (#[trigger] carrying(frames)[i]).user_data.len() > 0,
    decreases frames.len(),
{
    reveal(Seq::filter);
    if frames.len() > 0 {
        lemma_carrying_carries(frames.drop_last());
    }
}

/// A segment that is not due behind those that came is refused, whoever sent it
/// and whatever it holds: as one that begins no fragment where none has begun,
/// else as out of sequence, with the number it has and the one that was due.
pub proof fn law_segment_not_due_is_refused(
    peer: Seq<char>,
    frames: Seq<FrameView>,
    frame: FrameView,
    after: Seq<u8>,
)
    requires
        forall|i: int| 0 <= i < frames.len() ==> (#[trigger] frames[i]).user_data.len() <= 250,
        runs_on(carrying(frames)),
        0 < frame.user_data.len() <= 250,
        !is_due(carrying(frames), frame),
    ensures
        outstation::next_from(
            peer,
            outstation::nothing_yet(),
            wire(frames) + (link::frame_bytes(frame) + after),
        ) == (Receiving::Refused {
            error: if carrying(frames).len() == 0 {
                Error::NotBegun
            } else {
                Error::OutOfSequence {
                    found: frame.user_data[0] & 0x3f,
                    expected: number_in_run(
                        carrying(frames)[0],
                        carrying(frames).len() as int,
                    ) as u8,
                }
            },
            rest: after,
        }),
{
    let run = carrying(frames);
    let error = if run.len() == 0 {
        Error::NotBegun
    } else {
        Error::OutOfSequence {
            found: frame.user_data[0] & 0x3f,
            expected: number_in_run(run[0], run.len() as int) as u8,
        }
    };
    lemma_frames_lead_on(peer, frames, link::frame_bytes(frame) + after);
    law_frame_behind_a_run(peer, run, peer, frame);
    lemma_step_refused(peer, made_by(peer, run), frame, error, after);
    reveal(waiting);
}

/// Behind frames in order, bytes that are no frame are refused for what is
/// wrong with them. Where the peer closes, it has closed where no fragment has
/// begun, and is refused as closing mid-fragment where one has.
pub proof fn law_end_of_a_run(peer: Seq<char>, frames: Seq<FrameView>, left: Seq<u8>)
    requires
        forall|i: int| 0 <= i < frames.len() ==> (#[trigger] frames[i]).user_data.len() <= 250,
        runs_on(carrying(frames)),
    ensures
        link::read_from(left) matches Reading::Refused { error, rest } ==> outstation::next_from(
            peer,
            outstation::nothing_yet(),
            wire(frames) + left,
        ) == (Receiving::Refused { error, rest }),
        left.len() == 0 && carrying(frames).len() == 0 ==> outstation::next_from(
            peer,
            outstation::nothing_yet(),
            wire(frames) + left,
        ) is Closed,
        left.len() == 0 && carrying(frames).len() > 0 ==> outstation::next_from(
            peer,
            outstation::nothing_yet(),
            wire(frames) + left,
        ) == (Receiving::Refused { error: Error::ClosedMidFragment, rest: Seq::empty() }),
{
    lemma_frames_lead_on(peer, frames, left);
    lemma_end(peer, made_by(peer, carrying(frames)), left);
    reveal(waiting);
}

proof fn lemma_end(peer: Seq<char>, making: Making, left: Seq<u8>)
    ensures
        link::read_from(left) matches Reading::Refused { error, rest } ==> waiting(
            peer,
            making,
            left,
        ) == (Receiving::Refused { error, rest }),
        left.len() == 0 ==> waiting(peer, making, left) == if making.expected is None {
            Receiving::Closed
        } else {
            Receiving::Refused { error: Error::ClosedMidFragment, rest: Seq::empty() }
        },
{
    reveal(waiting);
}

/// Waiting for a fragment on `stream` gives `arrived`, and leaves `rest`.
#[verifier::opaque]
pub open spec fn gives(
    peer: Seq<char>,
    stream: Seq<u8>,
    arrived: ArrivedView,
    rest: Seq<u8>,
) -> bool {
    outstation::next_from(peer, outstation::nothing_yet(), stream) == (Receiving::Whole {
        arrived,
        rest,
    })
}

/// From the first of `streams` to the last, each gives one of `arrived` and
/// leaves the one behind it.
pub open spec fn gives_all(
    peer: Seq<char>,
    streams: Seq<Seq<u8>>,
    arrived: Seq<ArrivedView>,
) -> bool {
    &&& streams.len() == arrived.len() + 1
    &&& forall|i: int|
        0 <= i < arrived.len() ==> #[trigger] gives(peer, streams[i], arrived[i], streams[i + 1])
}

proof fn lemma_gives_one(peer: Seq<char>, stream: Seq<u8>, arrived: ArrivedView, rest: Seq<u8>)
    requires
        gives(peer, stream, arrived, rest),
    ensures
        outstation::all_from(peer, stream) == match outstation::all_from(peer, rest) {
            Ok(more) => Ok(seq![arrived] + more),
            Err(error) => Err(error),
        },
{
    reveal(gives);
}

proof fn lemma_gives_none(peer: Seq<char>, stream: Seq<u8>)
    ensures
        match outstation::next_from(peer, outstation::nothing_yet(), stream) {
            Receiving::Closed => outstation::all_from(peer, stream) == Ok::<
                Seq<ArrivedView>,
                Error,
            >(Seq::empty()),
            Receiving::Refused { error, .. } => outstation::all_from(peer, stream) == Err::<
                Seq<ArrivedView>,
                Error,
            >(error),
            Receiving::Whole { arrived, rest } => {
                &&& gives(peer, stream, arrived, rest)
                &&& rest.len() < stream.len()
            },
        },
{
    reveal(gives);
    outstation::law_receiving_advances(peer, outstation::nothing_yet(), stream);
}

proof fn lemma_gives_on(peer: Seq<char>, streams: Seq<Seq<u8>>, arrived: Seq<ArrivedView>)
    requires
        gives_all(peer, streams, arrived),
    ensures
        outstation::all_from(peer, streams[0]) == match outstation::all_from(
            peer,
            streams.last(),
        ) {
            Ok(more) => Ok(arrived + more),
            Err(error) => Err(error),
        },
    decreases arrived.len(),
{
    if arrived.len() == 0 {
        if let Ok(more) = outstation::all_from(peer, streams[0]) {
            assert(arrived + more =~= more);
        }
    } else {
        let later = streams.drop_first();
        let others = arrived.drop_first();
        assert forall|i: int| 0 <= i < others.len() implies #[trigger] gives(
            peer,
            later[i],
            others[i],
            later[i + 1],
        ) by {
            assert(gives(peer, streams[i + 1], arrived[i + 1], streams[i + 1 + 1]));
        }
        lemma_gives_on(peer, later, others);
        assert(gives(peer, streams[0], arrived[0], streams[0int + 1]));
        lemma_gives_one(peer, streams[0], arrived[0], streams[1]);
        if let Ok(more) = outstation::all_from(peer, streams.last()) {
            assert(seq![arrived[0]] + (others + more) =~= arrived + more);
        }
    }
}

/// What receiving comes to is settled where the fragments end. However many
/// came before, where the master then closes they are all given, in order; and
/// where what is left is refused, the whole is refused for the same reason.
pub proof fn law_receiving_ends_as_the_stream_does(
    peer: Seq<char>,
    streams: Seq<Seq<u8>>,
    arrived: Seq<ArrivedView>,
)
    requires
        gives_all(peer, streams, arrived),
    ensures
        outstation::next_from(peer, outstation::nothing_yet(), streams.last()) is Closed
            ==> outstation::all_from(peer, streams[0]) == Ok::<Seq<ArrivedView>, Error>(arrived),
        outstation::next_from(
            peer,
            outstation::nothing_yet(),
            streams.last(),
        ) matches Receiving::Refused { error, .. } ==> outstation::all_from(peer, streams[0])
            == Err::<Seq<ArrivedView>, Error>(error),
{
    lemma_gives_on(peer, streams, arrived);
    lemma_gives_none(peer, streams.last());
    assert(arrived + Seq::empty() =~= arrived);
}

/// Fragments are received only from a stream that gives them, one after
/// another, and on which the master then closes; and nothing is refused but
/// for what is wrong behind the fragments that it gives.
pub proof fn law_received_only_where_the_master_closed(
    peer: Seq<char>,
    stream: Seq<u8>,
) -> (r: (Seq<Seq<u8>>, Seq<ArrivedView>))
    ensures
        gives_all(peer, r.0, r.1),
        r.0[0] == stream,
        match outstation::all_from(peer, stream) {
            Ok(arrived) => {
                &&& arrived == r.1
                &&& outstation::next_from(peer, outstation::nothing_yet(), r.0.last()) is Closed
            },
            Err(error) => outstation::next_from(
                peer,
                outstation::nothing_yet(),
                r.0.last(),
            ) matches Receiving::Refused { error: e, .. } && e == error,
        },
    decreases stream.len(),
{
    lemma_gives_none(peer, stream);
    match outstation::next_from(peer, outstation::nothing_yet(), stream) {
        Receiving::Whole { arrived, rest } => {
            let (later, others) = law_received_only_where_the_master_closed(peer, rest);
            let streams = seq![stream] + later;
            let all = seq![arrived] + others;
            lemma_gives_one(peer, stream, arrived, rest);
            assert forall|i: int| 0 <= i < all.len() implies #[trigger] gives(
                peer,
                streams[i],
                all[i],
                streams[i + 1],
            ) by {
                if i > 0 {
                    assert(gives(peer, later[i - 1], others[i - 1], later[i - 1 + 1]));
                }
            }
            (streams, all)
        },
        _ => (seq![stream], Seq::empty()),
    }
}

proof fn lemma_all_sent(
    link: Link,
    sequence: u8,
    fragments: Seq<Seq<u8>>,
    after: Seq<u8>,
) -> (streams: Seq<Seq<u8>>)
    ensures
        gives_all(link.peer, streams, arrivals(link, sequence, fragments)),
        streams[0] == all_sent(link, sequence, fragments) + after,
        streams.last() == after,
    decreases fragments.len(),
{
    let whole = all_sent(link, sequence, fragments) + after;
    if fragments.len() == 0 {
        assert(whole =~= after);
        seq![after]
    } else {
        let next = segment::sequence_after(
            sequence,
            segment::segment_count(fragments[0].len()),
        );
        let rest = fragments.drop_first();
        let later = lemma_all_sent(link, next, rest, after);
        let streams = seq![whole] + later;
        let others = arrivals(link, next, rest);
        let all = arrivals(link, sequence, fragments);
        assert(gives(link.peer, whole, all[0], later[0])) by {
            reveal(gives);
            assert(whole =~= sent(link, sequence, fragments[0]) + (all_sent(link, next, rest)
                + after));
            law_fragment_comes_back_whole(
                link,
                sequence,
                fragments[0],
                all_sent(link, next, rest) + after,
            );
        }
        assert forall|i: int| 0 <= i < all.len() implies #[trigger] gives(
            link.peer,
            streams[i],
            all[i],
            streams[i + 1],
        ) by {
            if i > 0 {
                assert(gives(link.peer, later[i - 1], others[i - 1], later[i - 1 + 1]));
            }
        }
        streams
    }
}

/// However many fragments came whole before it, what cannot be received behind
/// them is not passed over: where waiting for one more is refused, all of it
/// is, for the same reason. Where the master closes behind them, they are what
/// is received.
pub proof fn law_what_follows_the_fragments_counts(
    link: Link,
    sequence: u8,
    fragments: Seq<Seq<u8>>,
    after: Seq<u8>,
)
    ensures
        outstation::next_from(
            link.peer,
            outstation::nothing_yet(),
            after,
        ) matches Receiving::Refused { error, .. } ==> outstation::all_from(
            link.peer,
            all_sent(link, sequence, fragments) + after,
        ) == Err::<Seq<ArrivedView>, Error>(error),
        outstation::next_from(link.peer, outstation::nothing_yet(), after) is Closed
            ==> outstation::all_from(link.peer, all_sent(link, sequence, fragments) + after)
            == Ok::<Seq<ArrivedView>, Error>(arrivals(link, sequence, fragments)),
{
    let streams = lemma_all_sent(link, sequence, fragments, after);
    law_receiving_ends_as_the_stream_does(
        link.peer,
        streams,
        arrivals(link, sequence, fragments),
    );
}

/// What arrived, or is in the making, is seen as what it holds.
pub proof fn law_arrived_is_seen_as_it_is(arrived: Arrived, reassembly: Reassembly)
    ensures
        arrived@.origin_uri == arrived.origin_uri@,
        arrived@.bytes == arrived.bytes@,
        Joined::Whole(arrived)@ == Made::Whole(arrived@),
        Joined::More(reassembly)@ == Made::More(reassembly@),
{
}

} // verus!
