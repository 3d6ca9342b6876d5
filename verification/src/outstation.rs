//! The outstation's side of a connection: frames in, application fragments
//! out.

use vstd::prelude::*;

use crate::error::Error;
use crate::frame_laws;
use crate::link;
use crate::link::{Frame, FrameView, Reading};
use crate::segment;
use crate::segment::Segment;
use crate::text;

verus! {

/// One application fragment, and where it came from.
#[derive(Clone, Debug, PartialEq, Eq)]
pub struct Arrived {
    pub origin_uri: String,
    pub bytes: Vec<u8>,
}

/// What an [`Arrived`] says.
#[verifier::ext_equal]
pub struct ArrivedView {
    pub origin_uri: Seq<char>,
    pub bytes: Seq<u8>,
}

impl View for Arrived {
    type V = ArrivedView;

    open spec fn view(&self) -> ArrivedView {
        ArrivedView { origin_uri: self.origin_uri@, bytes: self.bytes@ }
    }
}

/// The origin of a fragment, with what the link knew of it:
/// `dnp3://peer/1024?destination=1&seq=5`.
pub open spec fn origin_of(
    peer: Seq<char>,
    source: u16,
    destination: u16,
    sequence: u8,
) -> Seq<char> {
    "dnp3://"@ + peer + "/"@ + text::decimal(source as nat) + "?destination="@ + text::decimal(
        destination as nat,
    ) + "&seq="@ + text::decimal(sequence as nat)
}

/// The origin of a fragment from `peer`.
fn origin(peer: &str, source: u16, destination: u16, sequence: u8) -> (r: String)
    ensures
        r@ == origin_of(peer@, source, destination, sequence),
{
    let mut out = String::new();
    out.append("dnp3://");
    out.append(peer);
    out.append("/");
    text::append_decimal(&mut out, source);
    out.append("?destination=");
    text::append_decimal(&mut out, destination);
    out.append("&seq=");
    text::append_decimal(&mut out, sequence as u16);
    assert(out@ =~= origin_of(peer@, source, destination, sequence));
    out
}

/// An origin carries all that the link knew: from two that are the same, the
/// same peer, link addresses and sequence number can be read.
pub proof fn law_origin_carries_what_the_link_knew(
    peer: Seq<char>,
    source: u16,
    destination: u16,
    sequence: u8,
    other_peer: Seq<char>,
    other_source: u16,
    other_destination: u16,
    other_sequence: u8,
)
    requires
        origin_of(peer, source, destination, sequence) == origin_of(
            other_peer,
            other_source,
            other_destination,
            other_sequence,
        ),
    ensures
        peer == other_peer,
        source == other_source,
        destination == other_destination,
        sequence == other_sequence,
{
    reveal_strlit("dnp3://");
    reveal_strlit("/");
    reveal_strlit("?destination=");
    reveal_strlit("&seq=");
    let scheme = "dnp3://"@;
    let a = scheme + peer;
    let b = scheme + other_peer;
    let c = a + "/"@ + text::decimal(source as nat);
    let d = b + "/"@ + text::decimal(other_source as nat);
    let e = c + "?destination="@ + text::decimal(destination as nat);
    let f = d + "?destination="@ + text::decimal(other_destination as nat);
    text::law_number_behind_a_mark(e, f, "&seq="@, sequence as nat, other_sequence as nat);
    text::law_number_behind_a_mark(
        c,
        d,
        "?destination="@,
        destination as nat,
        other_destination as nat,
    );
    text::law_number_behind_a_mark(a, b, "/"@, source as nat, other_source as nat);
    assert(peer =~= a.skip(scheme.len() as int));
    assert(other_peer =~= b.skip(scheme.len() as int));
}

/// An origin is written out: the scheme, the peer, and the three numbers.
pub proof fn law_origin_is_written_out(
    peer: Seq<char>,
    source: u16,
    destination: u16,
    sequence: u8,
) -> (digits: (Seq<char>, Seq<char>, Seq<char>))
    ensures
        text::writes(digits.0, source as int),
        text::writes(digits.1, destination as int),
        text::writes(digits.2, sequence as int),
        origin_of(peer, source, destination, sequence) == "dnp3://"@ + peer + "/"@ + digits.0
            + "?destination="@ + digits.1 + "&seq="@ + digits.2,
{
    text::law_decimal_writes_the_number(source as nat);
    text::law_decimal_writes_the_number(destination as nat);
    text::law_decimal_writes_the_number(sequence as nat);
    (
        text::decimal(source as nat),
        text::decimal(destination as nat),
        text::decimal(sequence as nat),
    )
}

/// A fragment in the making.
#[verifier::ext_equal]
pub struct Making {
    /// The sequence number that the next segment must have, once one came.
    pub expected: Option<u8>,
    pub origin: Seq<char>,
    pub fragment: Seq<u8>,
}

/// The making of a fragment of which nothing has come yet.
pub open spec fn nothing_yet() -> Making {
    Making { expected: None, origin: Seq::empty(), fragment: Seq::empty() }
}

/// What one frame makes of a fragment.
#[verifier::ext_equal]
pub enum Made {
    More(Making),
    Whole(ArrivedView),
}

/// What `frame` from `peer` makes of `making`. A frame without user data
/// changes nothing; a segment must be the first where no fragment has begun,
/// and the next, and no first, where one has.
pub open spec fn joined(making: Making, peer: Seq<char>, frame: FrameView) -> Result<Made, Error> {
    let segment = segment::segment_of(frame.user_data[0]);
    if frame.user_data.len() == 0 {
        Ok(Made::More(making))
    } else if making.expected is None && !segment.first {
        Err(Error::NotBegun)
    } else if making.expected is Some && (segment.first || segment.sequence
        != making.expected->0) {
        Err(Error::OutOfSequence { found: segment.sequence, expected: making.expected->0 })
    } else {
        let origin = if making.expected is None {
            origin_of(peer, frame.source, frame.destination, segment.sequence)
        } else {
            making.origin
        };
        let fragment = making.fragment + frame.user_data.skip(1);
        if segment.last {
            Ok(Made::Whole(ArrivedView { origin_uri: origin, bytes: fragment }))
        } else {
            Ok(
                Made::More(
                    Making {
                        expected: Some(segment::sequence_after(segment.sequence, 1)),
                        origin,
                        fragment,
                    },
                ),
            )
        }
    }
}

/// The reassembly of one fragment, which is handed frames.
pub struct Reassembly {
    fragment: Vec<u8>,
    expected: Option<u8>,
    origin: String,
}

/// What handing a frame to a [`Reassembly`] comes to.
pub enum Joined {
    /// More segments are to come.
    More(Reassembly),
    /// The fragment is whole.
    Whole(Arrived),
}

impl View for Reassembly {
    type V = Making;

    closed spec fn view(&self) -> Making {
        Making { expected: self.expected, origin: self.origin@, fragment: self.fragment@ }
    }
}

impl View for Joined {
    type V = Made;

    open spec fn view(&self) -> Made {
        match self {
            Joined::More(reassembly) => Made::More(reassembly@),
            Joined::Whole(arrived) => Made::Whole(arrived@),
        }
    }
}

impl Reassembly {
    /// The reassembly of a fragment of which nothing has come yet.
    #[must_use]
    pub fn new() -> (r: Reassembly)
        ensures
            r@ == nothing_yet(),
    {
        Reassembly { fragment: Vec::new(), expected: None, origin: String::new() }
    }

    /// What the master's closing comes to here.
    ///
    /// # Errors
    /// A fragment that has begun.
    pub fn closed(&self) -> (r: Result<(), Error>)
        ensures
            match r {
                Ok(()) => self@.expected is None,
                Err(error) => self@.expected is Some && error == Error::ClosedMidFragment,
            },
    {
        match self.expected {
            None => Ok(()),
            Some(_) => Err(Error::ClosedMidFragment),
        }
    }

    /// On with `frame`, which came from `peer`.
    ///
    /// # Errors
    /// A segment out of sequence, or a fragment begun without its first
    /// segment.
    pub fn join(self, peer: &str, frame: &Frame) -> (r: Result<Joined, Error>)
        ensures
            match r {
                Ok(step) => joined(self@, peer@, frame@) == Ok::<Made, Error>(step@),
                Err(error) => joined(self@, peer@, frame@) == Err::<Made, Error>(error),
            },
    {
        let n: usize = frame.user_data.len();
        if n == 0 {
            return Ok(Joined::More(self));
        }
        let segment = Segment::from_header(frame.user_data[0]);
        let origin_uri: String = match self.expected {
            None => {
                if !segment.first {
                    return Err(Error::NotBegun);
                }
                origin(peer, frame.source, frame.destination, segment.sequence)
            },
            Some(expected) => {
                if expected != segment.sequence || segment.first {
                    return Err(Error::OutOfSequence { found: segment.sequence, expected });
                }
                self.origin
            },
        };
        let data: &[u8] = &frame.user_data.as_slice()[1..n];
        assert(data@ =~= frame@.user_data.skip(1));
        let mut fragment: Vec<u8> = self.fragment;
        fragment.extend_from_slice(data);
        assert(fragment@ =~= self@.fragment + data@);
        if segment.last {
            return Ok(Joined::Whole(Arrived { origin_uri, bytes: fragment }));
        }
        let expected = Some(segment::next_sequence(segment.sequence, 1));
        Ok(Joined::More(Reassembly { fragment, expected, origin: origin_uri }))
    }
}

/// What waiting for one fragment comes to, and what is left unread.
#[verifier::ext_equal]
pub enum Receiving {
    /// The master closed between fragments.
    Closed,
    /// A fragment.
    Whole { arrived: ArrivedView, rest: Seq<u8> },
    /// Frames that are no fragment, or bytes that are no frame.
    Refused { error: Error, rest: Seq<u8> },
}

/// Waiting for the rest of a fragment, on from `making`, where `stream` is the
/// bytes that `peer` sends before it closes.
pub open spec fn next_from(peer: Seq<char>, making: Making, stream: Seq<u8>) -> Receiving
    decreases stream.len(),
{
    match link::read_from(stream) {
        Reading::Closed => if making.expected is None {
            Receiving::Closed
        } else {
            Receiving::Refused { error: Error::ClosedMidFragment, rest: Seq::empty() }
        },
        Reading::Refused { error, rest } => Receiving::Refused { error, rest },
        Reading::Framed { frame, rest } => {
            proof {
                frame_laws::law_reading_advances(stream);
            }
            match joined(making, peer, frame) {
                Ok(Made::More(next)) => next_from(peer, next, rest),
                Ok(Made::Whole(arrived)) => Receiving::Whole { arrived, rest },
                Err(error) => Receiving::Refused { error, rest },
            }
        },
    }
}

/// A whole fragment takes something off the stream.
pub proof fn law_receiving_advances(peer: Seq<char>, making: Making, stream: Seq<u8>)
    ensures
        next_from(peer, making, stream) matches Receiving::Whole { rest, .. } ==> rest.len()
            < stream.len(),
    decreases stream.len(),
{
    if let Reading::Framed { frame, rest } = link::read_from(stream) {
        frame_laws::law_reading_advances(stream);
        if let Ok(Made::More(next)) = joined(making, peer, frame) {
            law_receiving_advances(peer, next, rest);
        }
    }
}

/// All the fragments of `stream`, the bytes that `peer` sends before it closes.
pub open spec fn all_from(peer: Seq<char>, stream: Seq<u8>) -> Result<Seq<ArrivedView>, Error>
    decreases stream.len(),
{
    match next_from(peer, nothing_yet(), stream) {
        Receiving::Closed => Ok(Seq::empty()),
        Receiving::Refused { error, .. } => Err(error),
        Receiving::Whole { arrived, rest } => {
            proof {
                law_receiving_advances(peer, nothing_yet(), stream);
            }
            match all_from(peer, rest) {
                Ok(more) => Ok(seq![arrived] + more),
                Err(error) => Err(error),
            }
        },
    }
}

/// The outstation's side of one connection, over the bytes that the master
/// sends before it closes.
pub struct Outstation<'a> {
    stream: &'a [u8],
    peer: String,
}

impl<'a> Outstation<'a> {
    /// The bytes that have not been read.
    pub closed spec fn stream(&self) -> Seq<u8> {
        self.stream@
    }

    /// Who sends them.
    pub closed spec fn peer(&self) -> Seq<char> {
        self.peer@
    }

    /// The outstation that reads `stream`, which comes from `peer`.
    #[must_use]
    pub fn new(stream: &'a [u8], peer: String) -> (r: Outstation<'a>)
        ensures
            r.stream() == stream@,
            r.peer() == peer@,
    {
        Outstation { stream, peer }
    }

    /// The next application fragment, reassembled from its segments, or
    /// `None` when the master closed.
    ///
    /// # Errors
    /// Where the connection broke, a segment came out of sequence, or a
    /// fragment began without its first segment.
    pub fn next_fragment(&mut self) -> (r: Result<Option<Arrived>, Error>)
        ensures
            final(self).peer() == old(self).peer(),
            match r {
                Ok(None) => next_from(old(self).peer(), nothing_yet(), old(self).stream())
                    is Closed && final(self).stream().len() == 0,
                Ok(Some(arrived)) => next_from(
                    old(self).peer(),
                    nothing_yet(),
                    old(self).stream(),
                ) == (Receiving::Whole { arrived: arrived@, rest: final(self).stream() }),
                Err(error) => next_from(old(self).peer(), nothing_yet(), old(self).stream()) == (
                Receiving::Refused { error, rest: final(self).stream() }),
            },
    {
        let mut reassembly = Reassembly::new();
        let ghost whole = next_from(self.peer(), nothing_yet(), self.stream());
        loop
            invariant
                self.peer() == old(self).peer(),
                next_from(self.peer(), reassembly@, self.stream()) == whole,
                whole == next_from(old(self).peer(), nothing_yet(), old(self).stream()),
            decreases self.stream().len(),
        {
            proof {
                if link::read_from(self.stream()) is Framed {
                    frame_laws::law_reading_advances(self.stream());
                }
            }
            match link::read(&mut self.stream) {
                Err(error) => {
                    return Err(error);
                },
                Ok(None) => {
                    assert(self.stream() =~= Seq::empty());
                    return match reassembly.closed() {
                        Ok(()) => Ok(None),
                        Err(error) => Err(error),
                    };
                },
                Ok(Some(frame)) => match reassembly.join(self.peer.as_str(), &frame) {
                    Err(error) => {
                        return Err(error);
                    },
                    Ok(Joined::Whole(arrived)) => {
                        return Ok(Some(arrived));
                    },
                    Ok(Joined::More(next)) => {
                        reassembly = next;
                    },
                },
            }
        }
    }

    /// One master's fragments until it closes.
    ///
    /// # Errors
    /// Where any of them cannot be had.
    pub fn receive(self) -> (r: Result<Vec<Arrived>, Error>)
        ensures
            match r {
                Ok(arrived) => all_from(self.peer(), self.stream()) == Ok::<
                    Seq<ArrivedView>,
                    Error,
                >(arrived@.map_values(|a: Arrived| a@)),
                Err(error) => all_from(self.peer(), self.stream()) == Err::<
                    Seq<ArrivedView>,
                    Error,
                >(error),
            },
    {
        let mut outstation = self;
        let mut out: Vec<Arrived> = Vec::new();
        let ghost seen = |a: Arrived| a@;
        loop
            invariant
                outstation.peer() == self.peer(),
                seen == (|a: Arrived| a@),
                all_from(self.peer(), self.stream()) == match all_from(
                    outstation.peer(),
                    outstation.stream(),
                ) {
                    Ok(more) => Ok(out@.map_values(seen) + more),
                    Err(error) => Err(error),
                },
            decreases outstation.stream().len(),
        {
            proof {
                law_receiving_advances(outstation.peer(), nothing_yet(), outstation.stream());
            }
            let ghost before = out@;
            match outstation.next_fragment() {
                Err(error) => {
                    return Err(error);
                },
                Ok(None) => {
                    assert(out@.map_values(seen) + Seq::empty() =~= out@.map_values(seen));
                    return Ok(out);
                },
                Ok(Some(arrived)) => {
                    out.push(arrived);
                    proof {
                        assert(out@.map_values(seen) =~= before.map_values(seen).push(arrived@));
                        if let Ok(more) = all_from(outstation.peer(), outstation.stream()) {
                            assert(before.map_values(seen) + (seq![arrived@] + more)
                                =~= out@.map_values(seen) + more);
                        }
                    }
                },
            }
        }
    }
}

} // verus!
