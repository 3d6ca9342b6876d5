//! Frames and segments.

use xmip_core_transport_dnp3::crc;
use xmip_core_transport_dnp3::error::{Error, Part};
use xmip_core_transport_dnp3::link::{
    encode, next_sequence, read, segments, Fed, Frame, FrameReader, Segment,
    CONTROL_MASTER_DATA, CONTROL_OUTSTATION_DATA, MAX_SEGMENT, MAX_USER_DATA, START,
};

fn sample(len: usize) -> Frame {
    Frame {
        control: CONTROL_MASTER_DATA,
        destination: 1024,
        source: 1,
        user_data: (0..len).map(|i| (i % 251) as u8).collect(),
    }
}

#[test]
fn the_crc_matches_the_standard_and_frames_round_trip() {
    // IEEE 1815 gives 0x05 0x64 0x05 0xc0 0x01 0x00 0x00 0x04 as a
    // header with CRC 0xe9 0x21.
    assert_eq!(
        crc::checksum(&[0x05, 0x64, 0x05, 0xc0, 0x01, 0x00, 0x00, 0x04]),
        u16::from_le_bytes([0xe9, 0x21])
    );
    let frame = Frame {
        control: CONTROL_MASTER_DATA,
        destination: 1024,
        source: 1,
        user_data: (0..40).collect(),
    };
    let bytes = encode(&frame).expect("encode");
    assert_eq!(bytes.len(), 10 + 40 + 3 * 2);
    let back = read(&mut bytes.as_slice()).expect("read").expect("one");
    assert_eq!(back, frame);
    let empty = Frame {
        user_data: Vec::new(),
        ..frame.clone()
    };
    let bytes = encode(&empty).expect("encode");
    assert_eq!(bytes.len(), 10);
    assert_eq!(read(&mut bytes.as_slice()).expect("read"), Some(empty));
    assert!(read(&mut &[][..]).expect("closed").is_none());
}

#[test]
fn a_bad_crc_or_start_is_refused_and_segments_split_a_fragment() {
    let frame = Frame {
        control: CONTROL_OUTSTATION_DATA,
        destination: 1,
        source: 1024,
        user_data: vec![1, 2, 3],
    };
    let mut bytes = encode(&frame).expect("encode");
    bytes[12] ^= 0xff;
    assert!(read(&mut bytes.as_slice()).is_err(), "block CRC");
    let mut bytes = encode(&frame).expect("encode");
    bytes[8] ^= 0xff;
    assert!(read(&mut bytes.as_slice()).is_err(), "header CRC");
    bytes[0] = 0x06;
    assert!(read(&mut bytes.as_slice()).is_err(), "start");
    assert!(read(&mut &bytes[..5]).is_err(), "cut off");
    assert!(encode(&Frame {
        user_data: vec![0; MAX_USER_DATA + 1],
        ..frame
    })
    .is_err());
    let fragment = vec![7u8; MAX_SEGMENT * 2 + 1];
    let pieces = segments(&fragment, 62);
    assert_eq!(pieces.len(), 3);
    assert_eq!(
        Segment::from_header(pieces[0][0]),
        Segment {
            first: true,
            last: false,
            sequence: 62
        }
    );
    assert_eq!(Segment::from_header(pieces[1][0]).sequence, 63);
    let last = Segment::from_header(pieces[2][0]);
    assert!(last.last && !last.first);
    assert_eq!(last.sequence, 0, "wraps at 64");
    assert_eq!(pieces[2].len(), 2);
    assert_eq!(segments(&[], 3), vec![vec![0xc3]]);
}

#[test]
fn a_fragment_of_hundreds_of_segments_keeps_counting() {
    let fragment = vec![7u8; MAX_SEGMENT * 300];
    let pieces = segments(&fragment, 60);
    assert_eq!(pieces.len(), 300);
    for (i, pair) in pieces.windows(2).enumerate() {
        let before = Segment::from_header(pair[0][0]);
        let after = Segment::from_header(pair[1][0]);
        assert_eq!(after.sequence, (before.sequence + 1) & 0x3f, "segment {i}");
        assert!(!after.first, "segment {i}");
    }
    assert!(Segment::from_header(pieces[299][0]).last);
    assert_eq!(next_sequence(60, 300), 40, "360 modulo 64");
    assert_eq!(next_sequence(63, 1), 0);
}

#[test]
fn the_crc_has_its_catalogue_check_value() {
    assert_eq!(crc::checksum(b"123456789"), 0xea82);
    assert_eq!(crc::checksum(&[]), 0xffff);
    assert_eq!(crc::from_le(0x34, 0x12), 0x1234);
}

#[test]
fn a_frame_is_laid_out_byte_by_byte() {
    let frame = Frame {
        control: 0xc0,
        destination: 1,
        source: 0x0400,
        user_data: Vec::new(),
    };
    assert_eq!(
        encode(&frame),
        Ok(vec![0x05, 0x64, 0x05, 0xc0, 0x01, 0x00, 0x00, 0x04, 0xe9, 0x21])
    );
    let bytes = encode(&sample(17)).expect("encode");
    assert_eq!(bytes[..2], START);
    assert_eq!(bytes[2], 22);
    assert_eq!(bytes[3..8], [0xc4, 0x00, 0x04, 0x01, 0x00]);
    assert_eq!(bytes[10..26], sample(16).user_data[..]);
    assert_eq!(bytes[26..28], crc::checksum(&bytes[10..26]).to_le_bytes());
    assert_eq!(bytes[28], 16);
    assert_eq!(bytes[29..31], crc::checksum(&[16]).to_le_bytes());
    assert_eq!(bytes.len(), 31);
}

#[test]
fn every_length_of_user_data_round_trips_and_leaves_what_follows() {
    for len in 0..=MAX_USER_DATA {
        let frame = sample(len);
        let mut bytes = encode(&frame).expect("encode");
        assert_eq!(bytes.len(), 10 + len + 2 * ((len + 15) / 16));
        bytes.extend_from_slice(&[1, 2, 3]);
        let mut reader = bytes.as_slice();
        assert_eq!(read(&mut reader), Ok(Some(frame)));
        assert_eq!(reader, [1, 2, 3]);
    }
    assert_eq!(encode(&sample(MAX_USER_DATA + 1)), Err(Error::Oversize));
}

#[test]
fn each_fault_of_a_frame_has_its_error() {
    let sound = encode(&sample(20)).expect("encode");
    let mut bytes = sound.clone();
    bytes[1] = 0x65;
    let mut reader = bytes.as_slice();
    assert_eq!(read(&mut reader), Err(Error::NotStart));
    assert_eq!(reader, &bytes[10..]);
    let mut bytes = sound.clone();
    bytes[2] = 4;
    assert_eq!(read(&mut bytes.as_slice()), Err(Error::ShortLength));
    let mut bytes = sound.clone();
    bytes[5] ^= 1;
    assert_eq!(read(&mut bytes.as_slice()), Err(Error::HeaderCrc));
    let mut bytes = sound.clone();
    bytes[28] ^= 1;
    let mut reader = bytes.as_slice();
    assert_eq!(read(&mut reader), Err(Error::BlockCrc));
    assert!(reader.is_empty());
}

#[test]
fn a_frame_cut_off_anywhere_is_refused() {
    let sound = encode(&sample(20)).expect("encode");
    for n in 1..sound.len() {
        let part = if n < 10 { Part::Header } else { Part::Block };
        let mut reader = &sound[..n];
        assert_eq!(read(&mut reader), Err(Error::CutOff(part)), "{n} bytes");
        assert!(reader.is_empty());
    }
}

#[test]
fn damage_to_two_neighbouring_bytes_is_refused() {
    let sound = encode(&sample(40)).expect("encode");
    for at in 0..sound.len() - 1 {
        for (a, b) in [(0x01, 0x00), (0x00, 0x80), (0xff, 0xff), (0x5a, 0x3c)] {
            let mut bytes = sound.clone();
            bytes[at] ^= a;
            bytes[at + 1] ^= b;
            assert!(read(&mut bytes.as_slice()).is_err(), "at {at}: {a} {b}");
        }
    }
}

#[test]
fn a_reader_asks_for_the_bytes_it_wants() {
    let frame = sample(20);
    let bytes = encode(&frame).expect("encode");
    let mut reader = FrameReader::new();
    let mut at = 0;
    let mut asked = Vec::new();
    let done = loop {
        let n = reader.wanted();
        asked.push(n);
        if at == 0 {
            assert!(reader.at_start());
            assert_eq!(reader.closed(), Ok(()));
            assert_eq!(reader.doing(), "reading the start");
        } else {
            let part = if at < 10 { Part::Header } else { Part::Block };
            assert!(!reader.at_start());
            assert_eq!(reader.closed(), Err(Error::CutOff(part)));
            assert_eq!(reader.doing(), part.doing());
        }
        match reader.feed(&bytes[at..at + n]).expect("a frame") {
            Fed::More(next) => reader = next,
            Fed::Done(frame) => break frame,
        }
        at += n;
    };
    assert_eq!(done, frame);
    assert_eq!(asked, [1, 9, 18, 6]);
}

#[test]
fn every_header_byte_round_trips() {
    for header in 0..=255u8 {
        let segment = Segment::from_header(header);
        assert_eq!(segment.header(), header);
        assert_eq!(segment.sequence, header & 0x3f);
    }
    let wide = Segment {
        first: true,
        last: false,
        sequence: 0xff,
    };
    assert_eq!(wide.header(), 0x7f, "six bits of the sequence");
}

#[test]
fn segments_carry_the_fragment_and_fit_a_frame() {
    for len in [0, 1, 248, 249, 250, 498, 499, 2000] {
        let fragment: Vec<u8> = (0..len).map(|i| (i % 251) as u8).collect();
        let pieces = segments(&fragment, 200);
        let mut joined = Vec::new();
        for (i, piece) in pieces.iter().enumerate() {
            assert!(piece.len() <= MAX_USER_DATA);
            let header = Segment::from_header(piece[0]);
            assert_eq!(header.first, i == 0);
            assert_eq!(header.last, i + 1 == pieces.len());
            assert_eq!(header.sequence, next_sequence(200, i));
            joined.extend_from_slice(&piece[1..]);
        }
        assert_eq!(joined, fragment);
    }
}

#[test]
fn counting_on_twice_is_counting_on_by_both() {
    for sequence in 0..64 {
        assert_eq!(next_sequence(sequence, 64), sequence);
        assert_eq!(next_sequence(next_sequence(sequence, 70), 9), next_sequence(sequence, 79));
    }
}

#[test]
fn errors_say_what_was_wrong() {
    assert_eq!(Error::Oversize.message(), "user data over what one frame carries");
    assert_eq!(Error::NotStart.message(), "bytes that are not the DNP3 start");
    assert_eq!(Error::ShortLength.message(), "a length under five");
    assert_eq!(Error::HeaderCrc.message(), "a header CRC that does not check");
    assert_eq!(Error::BlockCrc.message(), "a block CRC that does not check");
    assert_eq!(Error::CutOff(Part::Header).message(), "reading the link header");
    assert_eq!(Error::CutOff(Part::Block).message(), "reading a data block");
    assert_eq!(Error::ClosedMidFragment.message(), "the master closed mid-fragment");
    assert_eq!(Error::NotBegun.message(), "a segment with no fragment begun");
    let error = Error::OutOfSequence {
        found: 7,
        expected: 60,
    };
    assert_eq!(error.message(), "segment 7 where 60 was expected");
}
