use am_modem::encodings::dec::nrzi::{Error, NRZI as Decoder};
use am_modem::encodings::enc::nrzi::{Parameters, NRZI};
use am_modem::encodings::nrzi::Value;
use am_modem::signals::am::Transition;
use am_modem::signals::enc::am::utils::nrzi_to_transition_states;

fn encode(payload: Vec<u8>, stuff_bit_after: u8, preamble: u8) -> Vec<Value> {
    NRZI::new(Parameters::new(payload, stuff_bit_after, preamble)).values()
}

#[test]
fn null_byte_without_bit_stuffing() {
    let nrzi = NRZI::new(Parameters::new(vec![0b_0000_0000], 9, 8));
    assert_eq!(
        nrzi.values(),
        vec![
            Value::StartOfFrame(0),
            Value::StartOfFrame(1),
            Value::StartOfFrame(2),
            Value::StartOfFrame(3),
            Value::StartOfFrame(4),
            Value::StartOfFrame(5),
            Value::StartOfFrame(6),
            Value::StartOfFrame(7),
            Value::Bit(false),
            Value::Bit(false),
            Value::Bit(false),
            Value::Bit(false),
            Value::Bit(false),
            Value::Bit(false),
            Value::Bit(false),
            Value::Bit(false),
            Value::EndOfFrame(0),
            Value::EndOfFrame(1),
            Value::EndOfFrame(2),
            Value::EndOfFrame(3),
            Value::EndOfFrame(4),
            Value::EndOfFrame(5),
            Value::EndOfFrame(6),
            Value::EndOfFrame(7),
            Value::EndOfFrame(8),
            Value::EndOfFrame(9),
            Value::EndOfFrame(10)
        ]
    );
}

#[test]
fn null_byte_with_symmetric_bit_stuffing() {
    let nrzi = NRZI::new(Parameters::new(vec![0b_0000_0000], 4, 4));
    assert_eq!(
        nrzi.values(),
        vec![
            Value::StartOfFrame(0),
            Value::StartOfFrame(1),
            Value::StartOfFrame(2),
            Value::StartOfFrame(3),
            Value::Bit(false),
            Value::Bit(false),
            Value::Bit(false),
            Value::Bit(false),
            Value::StuffBit,
            Value::Bit(false),
            Value::Bit(false),
            Value::Bit(false),
            Value::Bit(false),
            Value::EndOfFrame(0),
            Value::EndOfFrame(1),
            Value::EndOfFrame(2),
            Value::EndOfFrame(3),
            Value::EndOfFrame(4),
            Value::EndOfFrame(5)
        ]
    );
}

#[test]
fn null_byte_with_assymetric_bit_stuffing() {
    let nrzi = NRZI::new(Parameters::new(vec![0b_0000_0000], 5, 0));
    assert_eq!(
        nrzi.values(),
        vec![
            Value::StartOfFrame(0),
            Value::Bit(false),
            Value::Bit(false),
            Value::Bit(false),
            Value::Bit(false),
            Value::Bit(false),
            Value::StuffBit,
            Value::Bit(false),
            Value::Bit(false),
            Value::Bit(false),
            Value::EndOfFrame(0),
            Value::EndOfFrame(1),
            Value::EndOfFrame(2),
            Value::EndOfFrame(3),
            Value::EndOfFrame(4),
            Value::EndOfFrame(5),
            Value::EndOfFrame(6)
        ]
    );
}

#[test]
fn byte_without_bit_stuffing_needed() {
    let nrzi = NRZI::new(Parameters::new(vec![0b_1001_1000], 4, 0));
    assert_eq!(
        nrzi.values(),
        vec![
            Value::StartOfFrame(0),
            Value::Bit(true),
            Value::Bit(false),
            Value::Bit(false),
            Value::Bit(true),
            Value::Bit(true),
            Value::Bit(false),
            Value::Bit(false),
            Value::Bit(false),
            Value::EndOfFrame(0),
            Value::EndOfFrame(1),
            Value::EndOfFrame(2),
            Value::EndOfFrame(3),
            Value::EndOfFrame(4),
            Value::EndOfFrame(5)
        ]
    );
}

#[test]
fn byte_with_bit_stuffing_needed() {
    let nrzi = NRZI::new(Parameters::new(vec![0b_1000_0100], 4, 0));
    assert_eq!(
        nrzi.values(),
        vec![
            Value::StartOfFrame(0),
            Value::Bit(true),
            Value::Bit(false),
            Value::Bit(false),
            Value::Bit(false),
            Value::Bit(false),
            Value::StuffBit,
            Value::Bit(true),
            Value::Bit(false),
            Value::Bit(false),
            Value::EndOfFrame(0),
            Value::EndOfFrame(1),
            Value::EndOfFrame(2),
            Value::EndOfFrame(3),
            Value::EndOfFrame(4),
            Value::EndOfFrame(5)
        ]
    );
}

#[test]
fn multibyte_test_1() {
    let nrzi = NRZI::new(Parameters::new(vec![0b_1001_1000, 0b_0010_0010], 4, 0));
    assert_eq!(
        nrzi.values(),
        vec![
            Value::StartOfFrame(0),
            Value::Bit(true),
            Value::Bit(false),
            Value::Bit(false),
            Value::Bit(true),
            Value::Bit(true),
            Value::Bit(false),
            Value::Bit(false),
            Value::Bit(false),
            Value::Bit(false),
            Value::StuffBit,
            Value::Bit(false),
            Value::Bit(true),
            Value::Bit(false),
            Value::Bit(false),
            Value::Bit(false),
            Value::Bit(true),
            Value::Bit(false),
            Value::EndOfFrame(0),
            Value::EndOfFrame(1),
            Value::EndOfFrame(2),
            Value::EndOfFrame(3),
            Value::EndOfFrame(4),
            Value::EndOfFrame(5)
        ]
    );
}

#[test]
fn encoder_steps_one_symbol_at_a_time() {
    let mut nrzi = NRZI::new(Parameters::new(vec![0b_1000_0000], 1, 2));
    assert_eq!(nrzi.current(), Value::StartOfFrame(0));
    nrzi.advance();
    assert_eq!(nrzi.next(), Some(Value::StartOfFrame(1)));
    assert_eq!(nrzi.next(), Some(Value::Bit(true)));
    assert_eq!(nrzi.next(), Some(Value::Bit(false)));
    assert_eq!(nrzi.next(), Some(Value::StuffBit));
    for _ in 0..13 {
        nrzi.next();
    }
    assert_eq!(nrzi.current(), Value::EndOfFrame(2));
    assert_eq!(nrzi.next(), Some(Value::EndOfFrame(2)));
    assert_eq!(nrzi.next(), None);
    assert_eq!(nrzi.current(), Value::Complete);
    assert_eq!(nrzi.next(), None);
}

#[test]
fn empty_payload_is_preamble_and_trailer() {
    assert_eq!(
        encode(vec![], 2, 0),
        vec![
            Value::StartOfFrame(0),
            Value::EndOfFrame(0),
            Value::EndOfFrame(1),
            Value::EndOfFrame(2),
            Value::EndOfFrame(3)
        ]
    );
}

#[test]
fn no_zero_run_exceeds_stuffing() {
    for stuff_bit_after in 1..=8u8 {
        for payload in [vec![0u8, 0, 0], vec![0x80, 0x01, 0x00], vec![0x44, 0x10, 0xff, 0x00]] {
            let values = encode(payload, stuff_bit_after, 3);
            let mut run = 0;
            for v in values {
                if v == Value::Bit(false) {
                    run += 1;
                    assert!(run <= stuff_bit_after);
                } else {
                    run = 0;
                }
            }
        }
    }
}

fn abcd_transitions() -> Vec<Transition> {
    vec![
        Transition::Rising,
        Transition::Hold(1),
        Transition::Falling,
        Transition::Hold(4),
        Transition::Rising,
        Transition::Hold(1),
        Transition::Falling,
        Transition::Hold(1),
        Transition::Rising,
        Transition::Hold(4),
        Transition::Falling,
        Transition::Rising,
        Transition::Hold(2),
        Transition::Falling,
        Transition::Hold(4),
        Transition::Rising,
        Transition::Falling,
        Transition::Rising,
        Transition::Hold(1),
        Transition::Falling,
        Transition::Hold(3),
        Transition::Rising,
        Transition::Hold(2),
        Transition::Falling,
        Transition::Hold(4),
        Transition::Noise(1),
    ]
}

#[test]
fn nrzi_test_1() {
    let input = abcd_transitions();

    let result = Decoder::parse(&input, 4, 0).unwrap();

    assert_eq!("ABCD".as_bytes(), result.payload());
    assert_eq!(result.frame_offset(), input.len());
}

#[test]
fn nrzi_test_2() {
    let input = [
        Transition::Rising,
        Transition::Falling,
        Transition::Rising,
        Transition::Falling,
        Transition::Rising,
        Transition::Hold(1),
        Transition::Falling,
        Transition::Hold(4),
        Transition::Rising,
        Transition::Hold(1),
        Transition::Falling,
        Transition::Hold(1),
        Transition::Rising,
        Transition::Hold(4),
        Transition::Falling,
        Transition::Rising,
        Transition::Hold(2),
        Transition::Falling,
        Transition::Hold(4),
        Transition::Rising,
        Transition::Falling,
        Transition::Rising,
        Transition::Hold(1),
        Transition::Falling,
        Transition::Hold(3),
        Transition::Rising,
        Transition::Hold(2),
        Transition::Falling,
        Transition::Hold(4),
        Transition::Noise(1),
    ];

    let result = Decoder::parse(&input, 4, 5).unwrap();

    assert_eq!("ABCD".as_bytes(), result.payload());
    assert_eq!(result.frame_offset(), input.len());
}

#[test]
fn transitions_of_encoded_abcd() {
    let values = encode("ABCD".as_bytes().to_vec(), 4, 0);
    assert_eq!(nrzi_to_transition_states(&values, 4), Ok(abcd_transitions()));
}

#[test]
fn transitions_need_a_low_end() {
    assert_eq!(
        nrzi_to_transition_states(&[Value::StartOfFrame(0), Value::Bit(true)], 4),
        Ok(vec![Transition::Rising, Transition::Falling, Transition::Noise(1)])
    );
    assert_eq!(nrzi_to_transition_states(&[Value::StartOfFrame(0)], 4), Err(()));
    assert_eq!(
        nrzi_to_transition_states(&[Value::StartOfFrame(0), Value::EndOfFrame(2)], 4),
        Err(())
    );
}

#[test]
fn round_trip_through_transitions() {
    let payloads: Vec<Vec<u8>> = vec![
        vec![],
        vec![0],
        vec![0xff],
        vec![0b_1001_1000],
        vec![0b_1000_0100],
        "ABCD".as_bytes().to_vec(),
        "Nagyon szeretlek angyalom! <3".as_bytes().to_vec(),
        vec![0, 0, 0, 0x80, 0x01],
    ];
    for stuff_bit_after in 1..=5u8 {
        for preamble in 0..=8u8 {
            for payload in payloads.iter() {
                let values = encode(payload.clone(), stuff_bit_after, preamble);
                let transitions = nrzi_to_transition_states(&values, stuff_bit_after as usize).unwrap();
                let decoded = Decoder::parse(&transitions, stuff_bit_after as usize, preamble).unwrap();
                assert_eq!(decoded.payload(), payload);
                assert_eq!(decoded.frame_offset(), transitions.len());
            }
        }
    }
}

#[test]
fn decoder_errors() {
    assert_eq!(
        Decoder::parse(&[Transition::Falling], 4, 0).err(),
        Some(Error::IncorrectStartOfFrame)
    );
    assert_eq!(
        Decoder::parse(&[Transition::Rising, Transition::Hold(5)], 4, 0).err(),
        Some(Error::IncorrectBitStuffingInTransitions)
    );
    assert_eq!(
        Decoder::parse(&[Transition::Rising, Transition::Hold(2), Transition::Noise(1)], 4, 0).err(),
        Some(Error::IncompleteFrame)
    );
    assert_eq!(
        Decoder::parse(&[Transition::Rising, Transition::Falling], 4, 0).err(),
        Some(Error::IncompleteFrame)
    );
    assert_eq!(
        Decoder::parse(&[Transition::Noise(3), Transition::Rising, Transition::Rising, Transition::Hold(4), Transition::Noise(1)], 4, 2).err(),
        Some(Error::IncorrectStartOfFrame)
    );
}

#[test]
fn decoder_skips_leading_noise_and_stops_at_frame_end() {
    let input = [
        Transition::Noise(2),
        Transition::Rising,
        Transition::Falling,
        Transition::Hold(2),
        Transition::Rising,
        Transition::Falling,
        Transition::Hold(3),
        Transition::Rising,
        Transition::Hold(3),
        Transition::Noise(1),
        Transition::Rising,
    ];
    let result = Decoder::parse(&input, 3, 0).unwrap();
    // bits: 1 0 0 1 1 0 0 0, a stuff bit, then 0 0 0: one whole byte
    assert_eq!(result.payload(), &vec![0b_1001_1000]);
    assert_eq!(result.frame_offset(), 10);
}

#[test]
fn long_stuffing_runs_leave_a_trailing_byte() {
    // With six zeros before a stuff bit the trailer adds eight bits after this
    // payload, which the decoder keeps as a byte of its own.
    let values = encode(vec![0x70], 6, 0);
    let transitions = nrzi_to_transition_states(&values, 6).unwrap();
    let decoded = Decoder::parse(&transitions, 6, 0).unwrap();
    assert_eq!(decoded.payload(), &vec![0x70, 0b_1100_0000]);
}
