//! Fragments between a master and an outstation.

use std::time::Duration;

use xmip_core_transport_dnp3::error::Error;
use xmip_core_transport_dnp3::link::{encode, CONTROL_MASTER_DATA, MAX_SEGMENT};
use xmip_core_transport_dnp3::outstation::{Joined, Reassembly};
use xmip_core_transport_dnp3::{Dnp3Transport, Frame, Outstation, Segment};

const PEER: &str = "127.0.0.1:20000";

fn transport() -> Dnp3Transport {
    Dnp3Transport::new("127.0.0.1:0", 1, 1024).timing_out_after(Duration::from_secs(2))
}

fn outstation(stream: &[u8]) -> Outstation<'_> {
    Outstation::new(stream, PEER.to_string())
}

fn patterned(len: usize) -> Vec<u8> {
    (0..len).map(|i| u8::try_from(i % 251).unwrap_or(0)).collect()
}

fn frame(first: bool, last: bool, sequence: u8, data: &[u8]) -> Frame {
    let segment = Segment {
        first,
        last,
        sequence,
    };
    let mut user_data = vec![segment.header()];
    user_data.extend_from_slice(data);
    Frame {
        control: CONTROL_MASTER_DATA,
        destination: 1024,
        source: 1,
        user_data,
    }
}

fn stream_of(frames: &[Frame]) -> Vec<u8> {
    let mut stream = Vec::new();
    for frame in frames {
        stream.extend_from_slice(&encode(frame).expect("encode"));
    }
    stream
}

#[test]
fn fragments_travel_as_segments_and_come_back_whole() {
    let long = patterned(2000);
    let mut master = transport().master();
    let mut stream = Vec::new();
    for fragment in [&[0xc0, 0x01, 0x3c, 0x02, 0x06][..], &long, &[]] {
        stream.extend(master.send_fragment(fragment).expect("mastering").concat());
    }
    let mut outstation = outstation(&stream);
    let read = outstation.next_fragment().expect("read").expect("one");
    assert_eq!(read.bytes, [0xc0, 0x01, 0x3c, 0x02, 0x06]);
    assert!(read.origin_uri.ends_with("/1?destination=1024&seq=0"));
    assert_eq!(read.origin_uri, "dnp3://127.0.0.1:20000/1?destination=1024&seq=0");
    let big = outstation.next_fragment().expect("big").expect("one");
    assert_eq!(big.bytes, long);
    assert!(big.origin_uri.ends_with("&seq=1"));
    let empty = outstation.next_fragment().expect("empty").expect("one");
    assert!(empty.bytes.is_empty());
    assert!(outstation.next_fragment().expect("closed").is_none());
}

#[test]
fn a_fragment_over_two_hundred_and_fifty_six_segments_comes_back_whole() {
    let long = patterned(70_000);
    let mut master = transport().master();
    let mut stream = master.send_fragment(&long).expect("mastering").concat();
    stream.extend(master.send_fragment(b"after").expect("mastering").concat());
    let mut outstation = outstation(&stream);
    let big = outstation.next_fragment().expect("big").expect("one");
    assert_eq!(big.bytes, long);
    let next = outstation.next_fragment().expect("next").expect("one");
    assert_eq!(next.bytes, b"after");
    assert!(next.origin_uri.ends_with("&seq=26"), "{}", next.origin_uri);
}

#[test]
fn the_transport_trait_receives_and_sends() {
    let stream = transport().send(b"fragment").expect("sending").concat();
    let mut outstation = outstation(&stream);
    let mut arrived = Vec::new();
    while let Some(fragment) = outstation.next_fragment().expect("receiving") {
        arrived.push(fragment);
    }
    assert_eq!(arrived.len(), 1);
    assert_eq!(arrived[0].bytes, b"fragment");
}

#[test]
fn a_segment_out_of_sequence_is_refused() {
    let stream = stream_of(&[frame(false, true, 3, &[1])]);
    let error = outstation(&stream)
        .next_fragment()
        .expect_err("no first segment");
    assert_eq!(error, Error::NotBegun);
}

#[test]
fn all_the_fragments_of_a_master_arrive_in_order() {
    let fragments = [patterned(3), patterned(0), patterned(600), patterned(249)];
    let mut master = transport().master();
    let mut stream = Vec::new();
    for fragment in &fragments {
        stream.extend(master.send_fragment(fragment).expect("mastering").concat());
    }
    let arrived = outstation(&stream).receive().expect("receiving");
    assert_eq!(arrived.len(), fragments.len());
    for (arrived, fragment) in arrived.iter().zip(&fragments) {
        assert_eq!(&arrived.bytes, fragment);
    }
    assert_eq!(arrived[3].origin_uri, "dnp3://127.0.0.1:20000/1?destination=1024&seq=5");
    assert_eq!(outstation(&[]).receive(), Ok(Vec::new()));
    stream.push(0x05);
    assert!(outstation(&stream).receive().is_err());
}

#[test]
fn a_fragment_cut_off_anywhere_is_refused() {
    let stream = transport().send(&patterned(600)).expect("sending").concat();
    assert!(outstation(&stream).next_fragment().is_ok());
    for n in 1..stream.len() {
        assert!(outstation(&stream[..n]).next_fragment().is_err(), "{n} bytes");
    }
}

#[test]
fn a_fragment_damaged_anywhere_is_refused() {
    let sound = transport().send(&patterned(600)).expect("sending").concat();
    for at in 0..sound.len() - 1 {
        let mut stream = sound.clone();
        stream[at] ^= 0x41;
        stream[at + 1] ^= 0x07;
        assert!(outstation(&stream).next_fragment().is_err(), "at {at}");
    }
}

#[test]
fn a_master_that_closes_between_segments_is_found_out() {
    let frames = transport().send(&patterned(600)).expect("sending");
    assert_eq!(frames.len(), 3);
    for n in 1..3 {
        assert_eq!(
            outstation(&frames[..n].concat()).next_fragment(),
            Err(Error::ClosedMidFragment)
        );
    }
}

#[test]
fn a_segment_out_of_its_turn_is_refused() {
    let frames = transport().send(&patterned(MAX_SEGMENT * 5)).expect("sending");
    for i in 0..4 {
        for j in 0..5 {
            if i == j {
                continue;
            }
            let mut stream = frames[..i].concat();
            stream.extend_from_slice(&frames[j]);
            let expected = if i == 0 {
                Error::NotBegun
            } else {
                Error::OutOfSequence {
                    found: j as u8,
                    expected: i as u8,
                }
            };
            assert_eq!(outstation(&stream).next_fragment(), Err(expected), "{j} after {i}");
        }
    }
}

#[test]
fn a_first_segment_inside_a_fragment_is_refused() {
    let stream = stream_of(&[frame(true, false, 63, &[1]), frame(true, true, 0, &[2])]);
    assert_eq!(
        outstation(&stream).next_fragment(),
        Err(Error::OutOfSequence {
            found: 0,
            expected: 0
        })
    );
}

#[test]
fn a_frame_without_user_data_is_passed_over() {
    let idle = Frame {
        control: CONTROL_MASTER_DATA,
        destination: 9,
        source: 9,
        user_data: Vec::new(),
    };
    let stream = stream_of(&[
        idle.clone(),
        frame(true, false, 63, &[1]),
        idle.clone(),
        frame(false, true, 0, &[2]),
        idle,
    ]);
    let mut outstation = outstation(&stream);
    let arrived = outstation.next_fragment().expect("read").expect("one");
    assert_eq!(arrived.bytes, [1, 2]);
    assert!(arrived.origin_uri.ends_with("/1?destination=1024&seq=63"));
    assert_eq!(outstation.next_fragment(), Ok(None));
}

#[test]
fn a_reassembly_is_handed_frames() {
    let begun = match Reassembly::new().join(PEER, &frame(true, false, 5, &[1])) {
        Ok(Joined::More(next)) => next,
        _ => panic!("a fragment begun"),
    };
    assert_eq!(begun.closed(), Err(Error::ClosedMidFragment));
    assert_eq!(Reassembly::new().closed(), Ok(()));
    match begun.join(PEER, &frame(false, true, 6, &[2])) {
        Ok(Joined::Whole(arrived)) => assert_eq!(arrived.bytes, [1, 2]),
        _ => panic!("a whole fragment"),
    }
}

#[test]
fn origins_carry_what_the_link_knew() {
    let mut far = frame(true, true, 40, &[]);
    far.source = 65535;
    far.destination = 0;
    let stream = stream_of(&[far]);
    let arrived = outstation(&stream).next_fragment().expect("read").expect("one");
    assert_eq!(arrived.origin_uri, "dnp3://127.0.0.1:20000/65535?destination=0&seq=40");
}

#[test]
fn a_transport_keeps_what_it_was_given() {
    let transport = Dnp3Transport::new(String::from("0.0.0.0:20000"), 1, 2);
    assert_eq!(transport.bind_address(), "0.0.0.0:20000");
    assert_eq!(transport.timeout(), None);
    assert_eq!(transport.name(), "dnp3");
    let patient = transport.timing_out_after(Duration::from_millis(1500));
    assert_eq!(patient.timeout(), Some(Duration::from_millis(1500)));
    assert_eq!(patient.bind_address(), "0.0.0.0:20000");
    let frames = patient.send(&[]).expect("sending");
    assert_eq!(frames.len(), 1);
    assert_eq!(frames[0][4..8], [2, 0, 1, 0]);
    assert_eq!(frames[0][10], 0xc0);
}
