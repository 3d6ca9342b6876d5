//! What can be wrong with the bytes a peer sent, or with a frame to be sent.

use vstd::prelude::*;

use crate::text;

verus! {

/// The part of a frame that was being read.
#[derive(Clone, Copy, Debug, PartialEq, Eq, Structural)]
pub enum Part {
    Header,
    Block,
}

/// Why a frame or a fragment was refused.
#[derive(Clone, Copy, Debug, PartialEq, Eq, Structural)]
pub enum Error {
    /// A frame to be sent holds more user data than a frame carries.
    Oversize,
    /// A frame that does not begin with the two start bytes.
    NotStart,
    /// A length byte under five.
    ShortLength,
    /// A header whose check does not match it.
    HeaderCrc,
    /// A data block whose check does not match it.
    BlockCrc,
    /// The connection closed inside a frame.
    CutOff(Part),
    /// The connection closed between the frames of one fragment.
    ClosedMidFragment,
    /// A segment that is not a first one, where no fragment has begun.
    NotBegun,
    /// A segment that does not follow the one before it.
    OutOfSequence { found: u8, expected: u8 },
}

/// What was being read of a frame.
pub open spec fn doing(part: Part) -> Seq<char> {
    match part {
        Part::Header => "reading the link header"@,
        Part::Block => "reading a data block"@,
    }
}

/// What is to be said of `error`: for a frame cut off, what was being read.
pub open spec fn message_of(error: Error) -> Seq<char> {
    match error {
        Error::Oversize => "user data over what one frame carries"@,
        Error::NotStart => "bytes that are not the DNP3 start"@,
        Error::ShortLength => "a length under five"@,
        Error::HeaderCrc => "a header CRC that does not check"@,
        Error::BlockCrc => "a block CRC that does not check"@,
        Error::CutOff(part) => doing(part),
        Error::ClosedMidFragment => "the master closed mid-fragment"@,
        Error::NotBegun => "a segment with no fragment begun"@,
        Error::OutOfSequence { found, expected } => "segment "@ + text::decimal(found as nat)
            + " where "@ + text::decimal(expected as nat) + " was expected"@,
    }
}

impl Part {
    /// What is being done where this part is read.
    #[must_use]
    pub fn doing(self) -> (r: &'static str)
        ensures
            r@ == doing(self),
    {
        match self {
            Part::Header => "reading the link header",
            Part::Block => "reading a data block",
        }
    }
}

impl Error {
    /// What is to be said of this error.
    #[must_use]
    pub fn message(self) -> (r: String)
        ensures
            r@ == message_of(self),
    {
        let mut out = String::new();
        match self {
            Error::OutOfSequence { found, expected } => {
                out.append("segment ");
                text::append_decimal(&mut out, found as u16);
                out.append(" where ");
                text::append_decimal(&mut out, expected as u16);
                out.append(" was expected");
            },
            Error::Oversize => out.append("user data over what one frame carries"),
            Error::NotStart => out.append("bytes that are not the DNP3 start"),
            Error::ShortLength => out.append("a length under five"),
            Error::HeaderCrc => out.append("a header CRC that does not check"),
            Error::BlockCrc => out.append("a block CRC that does not check"),
            Error::CutOff(part) => out.append(part.doing()),
            Error::ClosedMidFragment => out.append("the master closed mid-fragment"),
            Error::NotBegun => out.append("a segment with no fragment begun"),
        }
        assert(out@ =~= message_of(self));
        out
    }
}

/// What is said of a segment out of sequence has in it the number that was
/// found and the one that was expected, both written out.
pub proof fn law_message_has_both_numbers(found: u8, expected: u8) -> (digits: (
    Seq<char>,
    Seq<char>,
))
    ensures
        text::writes(digits.0, found as int),
        text::writes(digits.1, expected as int),
        message_of(Error::OutOfSequence { found, expected }) == "segment "@ + digits.0 + " where "@
            + digits.1 + " was expected"@,
{
    text::law_decimal_writes_the_number(found as nat);
    text::law_decimal_writes_the_number(expected as nat);
    (text::decimal(found as nat), text::decimal(expected as nat))
}

/// What is said of every other error.
pub proof fn law_what_is_said_of_each_error()
    ensures
        message_of(Error::Oversize) == "user data over what one frame carries"@,
        message_of(Error::NotStart) == "bytes that are not the DNP3 start"@,
        message_of(Error::ShortLength) == "a length under five"@,
        message_of(Error::HeaderCrc) == "a header CRC that does not check"@,
        message_of(Error::BlockCrc) == "a block CRC that does not check"@,
        message_of(Error::CutOff(Part::Header)) == "reading the link header"@,
        message_of(Error::CutOff(Part::Block)) == "reading a data block"@,
        message_of(Error::ClosedMidFragment) == "the master closed mid-fragment"@,
        message_of(Error::NotBegun) == "a segment with no fragment begun"@,
{
}

/// What is said of an error tells which it is: of two that are not the same,
/// different things are said.
pub proof fn law_messages_tell_errors_apart(a: Error, b: Error)
    requires
        message_of(a) == message_of(b),
    ensures
        a == b,
{
    reveal_strlit("user data over what one frame carries");
    reveal_strlit("bytes that are not the DNP3 start");
    reveal_strlit("a length under five");
    reveal_strlit("a header CRC that does not check");
    reveal_strlit("a block CRC that does not check");
    reveal_strlit("reading the link header");
    reveal_strlit("reading a data block");
    reveal_strlit("the master closed mid-fragment");
    reveal_strlit("a segment with no fragment begun");
    reveal_strlit("segment ");
    assert(message_of(Error::Oversize)[0] == 'u');
    assert(message_of(Error::NotStart)[0] == 'b');
    assert(message_of(Error::ShortLength)[2] == 'l');
    assert(message_of(Error::HeaderCrc)[2] == 'h');
    assert(message_of(Error::BlockCrc)[2] == 'b');
    assert(message_of(Error::NotBegun)[2] == 's');
    assert(message_of(Error::CutOff(Part::Header))[8] == 't');
    assert(message_of(Error::CutOff(Part::Block))[8] == 'a');
    assert(message_of(Error::ClosedMidFragment)[0] == 't');
    if let Error::OutOfSequence { found, expected } = a {
        assert(message_of(a)[0] == 's');
        if let Error::OutOfSequence { found: other, expected: wanted } = b {
            lemma_numbers_are_told(found, expected, other, wanted);
        }
    }
    if b is OutOfSequence {
        assert(message_of(b)[0] == 's');
    }
}

proof fn lemma_numbers_are_told(found: u8, expected: u8, other: u8, wanted: u8)
    requires
        message_of(Error::OutOfSequence { found, expected }) == message_of(
            Error::OutOfSequence { found: other, expected: wanted },
        ),
    ensures
        found == other,
        expected == wanted,
{
    reveal_strlit(" where ");
    let end = " was expected"@;
    let head = "segment "@;
    let a = head + text::decimal(found as nat) + " where "@ + text::decimal(expected as nat);
    let b = head + text::decimal(other as nat) + " where "@ + text::decimal(wanted as nat);
    assert((a + end).take(a.len() as int) =~= a);
    assert((b + end).take(b.len() as int) =~= b);
    text::law_number_behind_a_mark(
        head + text::decimal(found as nat),
        head + text::decimal(other as nat),
        " where "@,
        expected as nat,
        wanted as nat,
    );
    reveal_strlit("segment ");
    let none = Seq::<char>::empty();
    assert(none + head =~= head);
    text::law_number_behind_a_mark(none, none, head, found as nat, other as nat);
}

} // verus!
