//! The data link function: the frame — two start bytes, a length, a control
//! byte, destination and source, a CRC over that header, then user data in
//! blocks of sixteen each with its own CRC. The transport function, which
//! splits a fragment across frames, is [`segment`](crate::segment)'s.

use vstd::prelude::*;

use crate::crc;
use crate::error;
use crate::error::{Error, Part};
pub use crate::segment::{next_sequence, segments, Segment};

verus! {

/// The two start bytes.
pub const START: [u8; 2] = [0x05, 0x64];

/// The most user data one frame carries.
pub const MAX_USER_DATA: usize = 250;

/// The most application fragment one transport segment carries: the user
/// data less the transport header.
pub const MAX_SEGMENT: usize = MAX_USER_DATA - 1;

/// Primary-to-secondary unconfirmed user data, direction bit for a master.
pub const CONTROL_MASTER_DATA: u8 = 0xc4;

/// The same from an outstation.
pub const CONTROL_OUTSTATION_DATA: u8 = 0x44;

/// The user data that one block carries ahead of its check.
pub const BLOCK: usize = 16;

/// One link frame.
#[derive(Clone, Debug, PartialEq, Eq)]
pub struct Frame {
    pub control: u8,
    pub destination: u16,
    pub source: u16,
    pub user_data: Vec<u8>,
}

/// What a [`Frame`] says.
#[verifier::ext_equal]
pub struct FrameView {
    pub control: u8,
    pub destination: u16,
    pub source: u16,
    pub user_data: Seq<u8>,
}

impl View for Frame {
    type V = FrameView;

    open spec fn view(&self) -> FrameView {
        FrameView {
            control: self.control,
            destination: self.destination,
            source: self.source,
            user_data: self.user_data@,
        }
    }
}

/// The eight header bytes of `frame`, ahead of their check.
pub open spec fn header_bytes(frame: FrameView) -> Seq<u8> {
    seq![START[0], START[1], (5 + frame.user_data.len()) as u8, frame.control]
        + crc::le_bytes(frame.destination) + crc::le_bytes(frame.source)
}

/// `data` followed by its check.
pub open spec fn with_check(data: Seq<u8>) -> Seq<u8> {
    data + crc::le_bytes(crc::checksum_of(data))
}

/// The lesser of `n` and what one block carries.
pub open spec fn block_len(n: nat) -> nat {
    if n < BLOCK { n } else { BLOCK as nat }
}

/// `data` in blocks of sixteen, the last one shorter where it must be, each
/// followed by its check.
pub open spec fn block_bytes(data: Seq<u8>) -> Seq<u8>
    decreases data.len(),
{
    if data.len() == 0 {
        Seq::empty()
    } else {
        let n = block_len(data.len()) as int;
        with_check(data.take(n)) + block_bytes(data.skip(n))
    }
}

/// `frame` as it travels.
pub open spec fn frame_bytes(frame: FrameView) -> Seq<u8> {
    with_check(header_bytes(frame)) + block_bytes(frame.user_data)
}

/// `out` with `bytes` behind it.
fn append(out: &mut Vec<u8>, bytes: &[u8])
    ensures
        final(out)@ == old(out)@ + bytes@,
{
    out.extend_from_slice(bytes);
    assert(out@ =~= old(out)@ + bytes@);
}

/// `out` with the two bytes of `value` behind it, low byte first.
fn append_le(out: &mut Vec<u8>, value: u16)
    ensures
        final(out)@ == old(out)@ + crc::le_bytes(value),
{
    out.push((value % 256) as u8);
    out.push((value / 256) as u8);
    assert(out@ =~= old(out)@ + crc::le_bytes(value));
}

/// Encode `frame`.
///
/// # Errors
/// User data over [`MAX_USER_DATA`].
pub fn encode(frame: &Frame) -> (r: Result<Vec<u8>, Error>)
    ensures
        match r {
            Ok(bytes) => frame.user_data@.len() <= MAX_USER_DATA && bytes@ == frame_bytes(frame@),
            Err(e) => frame.user_data@.len() > MAX_USER_DATA && e == Error::Oversize,
        },
        r is Ok <==> frame.user_data@.len() <= 250,
{
    let n: usize = frame.user_data.len();
    if n > MAX_USER_DATA {
        return Err(Error::Oversize);
    }
    let mut out: Vec<u8> = Vec::new();
    out.push(START[0]);
    out.push(START[1]);
    out.push((5 + n) as u8);
    out.push(frame.control);
    append_le(&mut out, frame.destination);
    append_le(&mut out, frame.source);
    assert(out@ =~= header_bytes(frame@));
    let check: u16 = crc::checksum(&out);
    append_le(&mut out, check);
    let data: &[u8] = frame.user_data.as_slice();
    let mut at: usize = 0;
    assert(data@.skip(0) =~= data@);
    while at < n
        invariant
            at <= n,
            n == data@.len(),
            n <= MAX_USER_DATA,
            data@ == frame.user_data@,
            out@ + block_bytes(data@.skip(at as int)) == frame_bytes(frame@),
        decreases n - at,
    {
        let take: usize = block_size(n - at);
        let block: &[u8] = &data[at..at + take];
        proof {
            let left = data@.skip(at as int);
            assert(block@ =~= left.take(take as int));
            assert(left.skip(take as int) =~= data@.skip(at + take));
            assert(out@ + (with_check(block@) + block_bytes(data@.skip(at + take))) =~= out@
                + block@ + crc::le_bytes(crc::checksum_of(block@)) + block_bytes(
                data@.skip(at + take),
            ));
        }
        append(&mut out, block);
        append_le(&mut out, crc::checksum(block));
        at += take;
    }
    assert(out@ + block_bytes(data@.skip(n as int)) =~= out@);
    Ok(out)
}

/// The bytes of a link header with its check.
pub const HEADER: usize = 10;

/// What is wrong with a link header of [`HEADER`] bytes, if anything is.
pub open spec fn header_fault(header: Seq<u8>) -> Option<Error> {
    if header[0] != START[0] || header[1] != START[1] {
        Some(Error::NotStart)
    } else if header[2] < 5 {
        Some(Error::ShortLength)
    } else if !crc::checks(header) {
        Some(Error::HeaderCrc)
    } else {
        None
    }
}

/// The frame that `header` announces, with no user data yet.
pub open spec fn announced(header: Seq<u8>) -> FrameView {
    FrameView {
        control: header[3],
        destination: crc::le_value(header[4], header[5]),
        source: crc::le_value(header[6], header[7]),
        user_data: Seq::empty(),
    }
}

/// `frame` with `data` behind its user data.
pub open spec fn extended(frame: FrameView, data: Seq<u8>) -> FrameView {
    FrameView { user_data: frame.user_data + data, ..frame }
}

/// What reading one frame comes to, and what is left unread of the bytes.
#[verifier::ext_equal]
pub enum Reading {
    /// The peer closed between frames.
    Closed,
    /// A frame.
    Framed { frame: FrameView, rest: Seq<u8> },
    /// Bytes that are no frame.
    Refused { error: Error, rest: Seq<u8> },
}

/// Reading the `remaining` bytes of user data that `frame` still lacks from
/// `stream`, block by block.
pub open spec fn read_blocks(frame: FrameView, remaining: nat, stream: Seq<u8>) -> Reading
    decreases remaining,
{
    if remaining == 0 {
        Reading::Framed { frame, rest: stream }
    } else {
        let n = block_len(remaining) as int;
        let block = stream.take(n + 2);
        if stream.len() < n + 2 {
            Reading::Refused { error: Error::CutOff(Part::Block), rest: Seq::empty() }
        } else if !crc::checks(block) {
            Reading::Refused { error: Error::BlockCrc, rest: stream.skip(n + 2) }
        } else {
            read_blocks(
                extended(frame, block.take(n)),
                (remaining - n) as nat,
                stream.skip(n + 2),
            )
        }
    }
}

/// Reading one frame from `stream`, the bytes that the peer sends before it
/// closes.
pub open spec fn read_from(stream: Seq<u8>) -> Reading {
    let header = stream.take(HEADER as int);
    if stream.len() == 0 {
        Reading::Closed
    } else if stream.len() < HEADER {
        Reading::Refused { error: Error::CutOff(Part::Header), rest: Seq::empty() }
    } else {
        match header_fault(header) {
            Some(error) => Reading::Refused { error, rest: stream.skip(HEADER as int) },
            None => read_blocks(
                announced(header),
                (header[2] - 5) as nat,
                stream.skip(HEADER as int),
            ),
        }
    }
}

/// How far the reading of one frame has come.
#[verifier::ext_equal]
pub enum Progress {
    /// Nothing has been read.
    Start,
    /// The first byte of the header has been read.
    Header { first: u8 },
    /// The header and some of the user data have been read.
    Blocks { frame: FrameView, remaining: nat },
}

/// How many bytes are to be read next.
pub open spec fn wanted_at(progress: Progress) -> nat {
    match progress {
        Progress::Start => 1,
        Progress::Header { .. } => (HEADER - 1) as nat,
        Progress::Blocks { remaining, .. } => block_len(remaining) + 2,
    }
}

/// A frame under way lacks something, and with it is no longer than a frame
/// can be.
pub open spec fn lacking(progress: Progress) -> bool {
    progress matches Progress::Blocks { frame, remaining } ==> {
        &&& remaining > 0
        &&& frame.user_data.len() + remaining <= MAX_USER_DATA
    }
}

/// What the peer's closing comes to at `progress`: nothing where no frame has
/// begun, a frame cut off where one has.
pub open spec fn closed_at(progress: Progress) -> Option<Error> {
    match progress {
        Progress::Start => None,
        Progress::Header { .. } => Some(Error::CutOff(Part::Header)),
        Progress::Blocks { .. } => Some(Error::CutOff(Part::Block)),
    }
}

/// What is being done at `progress`.
pub open spec fn doing_at(progress: Progress) -> Seq<char> {
    match progress {
        Progress::Start => "reading the start"@,
        Progress::Header { .. } => error::doing(Part::Header),
        Progress::Blocks { .. } => error::doing(Part::Block),
    }
}

/// What the bytes that were to be read next come to.
#[verifier::ext_equal]
pub enum Step {
    More(Progress),
    Done(FrameView),
}

/// On from a frame that still lacks `remaining` bytes.
pub open spec fn onward(frame: FrameView, remaining: nat) -> Step {
    if remaining == 0 {
        Step::Done(frame)
    } else {
        Step::More(Progress::Blocks { frame, remaining })
    }
}

/// On from `progress` with `bytes`, the bytes that were to be read next.
pub open spec fn fed(progress: Progress, bytes: Seq<u8>) -> Result<Step, Error> {
    match progress {
        Progress::Start => Ok(Step::More(Progress::Header { first: bytes[0] })),
        Progress::Header { first } => {
            let header = seq![first] + bytes;
            match header_fault(header) {
                Some(error) => Err(error),
                None => Ok(onward(announced(header), (header[2] - 5) as nat)),
            }
        },
        Progress::Blocks { frame, remaining } => {
            let n = block_len(remaining) as int;
            if !crc::checks(bytes) {
                Err(Error::BlockCrc)
            } else {
                Ok(onward(extended(frame, bytes.take(n)), (remaining - n) as nat))
            }
        },
    }
}

/// Reading the rest of a frame from `stream`, on from `progress`.
#[verifier::opaque]
pub open spec fn read_on(progress: Progress, stream: Seq<u8>) -> Reading {
    match progress {
        Progress::Start => read_from(stream),
        Progress::Header { first } => read_from(seq![first] + stream),
        Progress::Blocks { frame, remaining } => read_blocks(frame, remaining, stream),
    }
}

/// The reading of one frame, which asks for bytes and is fed them.
pub struct FrameReader {
    stage: Stage,
}

enum Stage {
    Start,
    Header { first: u8 },
    Blocks { frame: Frame, remaining: usize },
}

/// What feeding a [`FrameReader`] comes to.
pub enum Fed {
    /// More bytes are wanted.
    More(FrameReader),
    /// The frame is whole.
    Done(Frame),
}

impl View for FrameReader {
    type V = Progress;

    closed spec fn view(&self) -> Progress {
        match self.stage {
            Stage::Start => Progress::Start,
            Stage::Header { first } => Progress::Header { first },
            Stage::Blocks { frame, remaining } => Progress::Blocks {
                frame: frame@,
                remaining: remaining as nat,
            },
        }
    }
}

impl View for Fed {
    type V = Step;

    open spec fn view(&self) -> Step {
        match self {
            Fed::More(reader) => Step::More(reader@),
            Fed::Done(frame) => Step::Done(frame@),
        }
    }
}

/// The lesser of `n` and what one block carries.
fn block_size(n: usize) -> (r: usize)
    ensures
        r == block_len(n as nat),
{
    if n < BLOCK {
        n
    } else {
        BLOCK
    }
}

/// Whether `word` ends in the check of what is before it.
fn check(word: &[u8]) -> (r: bool)
    requires
        word@.len() >= 2,
    ensures
        r == crc::checks(word@),
{
    let n: usize = word.len() - 2;
    let data: &[u8] = &word[0..n];
    assert(data@ =~= word@.take(n as int));
    crc::checksum(data) == crc::from_le(word[n], word[n + 1])
}

/// On from `frame`, which still lacks `remaining` bytes.
fn go_on(frame: Frame, remaining: usize) -> (r: Fed)
    requires
        frame.user_data@.len() + remaining <= MAX_USER_DATA,
    ensures
        r@ == onward(frame@, remaining as nat),
{
    if remaining == 0 {
        Fed::Done(frame)
    } else {
        Fed::More(FrameReader { stage: Stage::Blocks { frame, remaining } })
    }
}

impl FrameReader {
    #[verifier::type_invariant]
    closed spec fn under_way(&self) -> bool {
        lacking(self@)
    }

    /// The reading of a frame of which nothing has come yet.
    #[must_use]
    pub fn new() -> (r: FrameReader)
        ensures
            r@ == Progress::Start,
    {
        FrameReader { stage: Stage::Start }
    }

    /// Whether nothing of the frame has come yet: where the peer closes then,
    /// it closed between frames.
    #[must_use]
    pub fn at_start(&self) -> (r: bool)
        ensures
            r == (self@ is Start),
    {
        match self.stage {
            Stage::Start => true,
            _ => false,
        }
    }

    /// What is being done: what to say of a connection that fails here.
    #[must_use]
    pub fn doing(&self) -> (r: &'static str)
        ensures
            r@ == doing_at(self@),
    {
        match self.stage {
            Stage::Start => "reading the start",
            Stage::Header { .. } => Part::Header.doing(),
            Stage::Blocks { .. } => Part::Block.doing(),
        }
    }

    /// How many bytes are to be read next.
    #[must_use]
    pub fn wanted(&self) -> (r: usize)
        ensures
            r == wanted_at(self@),
    {
        match &self.stage {
            Stage::Start => 1,
            Stage::Header { .. } => HEADER - 1,
            Stage::Blocks { remaining, .. } => block_size(*remaining) + 2,
        }
    }

    /// What the peer's closing comes to here.
    ///
    /// # Errors
    /// A frame that has begun and is cut off.
    pub fn closed(&self) -> (r: Result<(), Error>)
        ensures
            match r {
                Ok(()) => closed_at(self@) is None,
                Err(error) => closed_at(self@) == Some(error),
            },
    {
        match self.stage {
            Stage::Start => Ok(()),
            Stage::Header { .. } => Err(Error::CutOff(Part::Header)),
            Stage::Blocks { .. } => Err(Error::CutOff(Part::Block)),
        }
    }

    /// On with `bytes`, as many as were wanted.
    ///
    /// # Errors
    /// No start bytes, a length under five, or a CRC that does not check.
    pub fn feed(self, bytes: &[u8]) -> (r: Result<Fed, Error>)
        requires
            bytes@.len() == wanted_at(self@),
        ensures
            match r {
                Ok(step) => fed(self@, bytes@) == Ok::<Step, Error>(step@),
                Err(error) => fed(self@, bytes@) == Err::<Step, Error>(error),
            },
    {
        proof {
            use_type_invariant(&self);
        }
        match self.stage {
            Stage::Start => Ok(
                Fed::More(FrameReader { stage: Stage::Header { first: bytes[0] } }),
            ),
            Stage::Header { first } => {
                let mut header: Vec<u8> = Vec::new();
                header.push(first);
                append(&mut header, bytes);
                assert(header@ =~= seq![first] + bytes@);
                if header[0] != START[0] || header[1] != START[1] {
                    return Err(Error::NotStart);
                }
                if header[2] < 5 {
                    return Err(Error::ShortLength);
                }
                if !check(&header) {
                    return Err(Error::HeaderCrc);
                }
                let frame = Frame {
                    control: header[3],
                    destination: crc::from_le(header[4], header[5]),
                    source: crc::from_le(header[6], header[7]),
                    user_data: Vec::new(),
                };
                Ok(go_on(frame, header[2] as usize - 5))
            },
            Stage::Blocks { frame, remaining } => {
                if !check(bytes) {
                    return Err(Error::BlockCrc);
                }
                let n: usize = block_size(remaining);
                let block: &[u8] = &bytes[0..n];
                assert(block@ =~= bytes@.take(n as int));
                let mut frame = frame;
                append(&mut frame.user_data, block);
                Ok(go_on(frame, remaining - n))
            },
        }
    }
}

/// Reading a frame goes by the steps of a [`FrameReader`]: with the bytes that
/// are wanted next, it is feeding those and reading on from there; with fewer
/// left, it is the peer's closing.
pub proof fn law_reading_goes_by_steps(progress: Progress, stream: Seq<u8>)
    requires
        lacking(progress),
    ensures
        stream.len() >= wanted_at(progress) ==> {
            let n = wanted_at(progress) as int;
            read_on(progress, stream) == match fed(progress, stream.take(n)) {
                Ok(Step::More(next)) => read_on(next, stream.skip(n)),
                Ok(Step::Done(frame)) => Reading::Framed { frame, rest: stream.skip(n) },
                Err(error) => Reading::Refused { error, rest: stream.skip(n) },
            }
        },
        stream.len() >= wanted_at(progress) ==> (fed(
            progress,
            stream.take(wanted_at(progress) as int),
        ) matches Ok(Step::More(next)) ==> lacking(next)),
        stream.len() < wanted_at(progress) ==> {
            read_on(progress, stream) == match closed_at(progress) {
                None => Reading::Closed,
                Some(error) => Reading::Refused { error, rest: Seq::empty() },
            }
        },
{
    reveal(read_on);
    reveal_with_fuel(read_blocks, 2);
    let n = wanted_at(progress) as int;
    if stream.len() >= n {
        match progress {
            Progress::Start => {
                assert(seq![stream[0]] + stream.skip(1) =~= stream);
            },
            Progress::Header { first } => {
                let whole = seq![first] + stream;
                assert(whole.take(HEADER as int) =~= seq![first] + stream.take(n));
                assert(whole.skip(HEADER as int) =~= stream.skip(n));
            },
            Progress::Blocks { frame, remaining } => {},
        }
    }
}

/// Read one frame from the front of `reader`, or `None` when the peer closed
/// between frames: `reader` is the bytes that come before the peer closes.
///
/// # Errors
/// A connection that closes mid-frame, no start bytes, a length under
/// five, or a CRC that does not check.
pub fn read(reader: &mut &[u8]) -> (r: Result<Option<Frame>, Error>)
    ensures
        match r {
            Ok(None) => read_from(old(reader)@) is Closed && final(reader)@.len() == 0,
            Ok(Some(frame)) => read_from(old(reader)@) == (Reading::Framed {
                frame: frame@,
                rest: final(reader)@,
            }),
            Err(error) => read_from(old(reader)@) == (Reading::Refused {
                error,
                rest: final(reader)@,
            }),
        },
{
    let stream: &[u8] = *reader;
    let mut at: usize = 0;
    let mut frame_reader = FrameReader::new();
    let ghost whole = read_from(stream@);
    proof {
        reveal(read_on);
        assert(stream@.skip(0) =~= stream@);
    }
    loop
        invariant
            whole == read_from(old(reader)@),
            at <= stream@.len(),
            read_on(frame_reader@, stream@.skip(at as int)) == whole,
        decreases stream@.len() - at,
    {
        let n: usize = frame_reader.wanted();
        let ghost left = stream@.skip(at as int);
        proof {
            use_type_invariant(&frame_reader);
            law_reading_goes_by_steps(frame_reader@, left);
        }
        if stream.len() - at < n {
            let end: usize = stream.len();
            *reader = &stream[end..end];
            assert(reader@ =~= Seq::empty());
            return match frame_reader.closed() {
                Ok(()) => Ok(None),
                Err(error) => Err(error),
            };
        }
        let bytes: &[u8] = &stream[at..at + n];
        assert(bytes@ =~= left.take(n as int));
        assert(stream@.skip(at + n) =~= left.skip(n as int));
        at += n;
        match frame_reader.feed(bytes) {
            Ok(Fed::More(next)) => {
                frame_reader = next;
            },
            Ok(Fed::Done(frame)) => {
                *reader = &stream[at..stream.len()];
                assert(reader@ =~= stream@.skip(at as int));
                return Ok(Some(frame));
            },
            Err(error) => {
                *reader = &stream[at..stream.len()];
                assert(reader@ =~= stream@.skip(at as int));
                return Err(error);
            },
        }
    }
}

} // verus!
