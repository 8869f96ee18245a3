use am_modem::encodings::enc::nrzi::{Parameters, NRZI as Encoder};
use am_modem::sampling::SampleCount;
use am_modem::signals::am::Transition;
use am_modem::signals::dec::am::{search, window_aligned_len, EnvelopeCalculation, SearchConfig, StartOfFrameSearch};
use am_modem::signals::dec::decoder::{Decoder, Parameters as DecoderParameters, StateMachine};
use am_modem::signals::enc::am::utils::nrzi_to_transition_states;
use am_modem::signals::enc::am::{NRZIConsts, NRZI};
use am_modem::signals::proc::{band_step_bounds, center_bin, filter_band, frequency_steps, Error as ProcError};
use am_modem::signals::Error;
use am_modem::units::{Amplitude, Frequency, Proportion, Time, UNIT};

const ONE: i32 = UNIT as i32;

#[test]
fn test_envelope_calculation_sawtooth() {
    let mut calc = EnvelopeCalculation::new(SampleCount::new(4));
    let mut buffer = [0, ONE, 0, -ONE, 0, ONE, 0, -ONE, 0];
    calc.process_padded(&mut buffer);
    assert_eq!(buffer, [ONE, ONE, ONE, ONE, ONE, ONE, ONE, 0, 0]);
}

#[test]
fn test_envelope_calculation_falling_ramp() {
    let mut calc = EnvelopeCalculation::new(SampleCount::new(4));
    let mut buffer = [ONE, ONE, ONE, ONE, ONE / 2, 0, 0, 0, 0];
    calc.process_padded(&mut buffer);
    assert_eq!(buffer, [ONE, ONE, ONE, ONE, ONE, ONE / 2, 0, 0, 0]);
}

#[test]
fn envelope_tail_lengths() {
    assert_eq!(EnvelopeCalculation::new(SampleCount::new(4)).tail_lengths(), (2, 2));
    assert_eq!(EnvelopeCalculation::new(SampleCount::new(5)).tail_lengths(), (2, 3));
}

fn half_second() -> Time {
    Time::new(500_000_000)
}

#[test]
fn nrzi_full_test_ending_zero_1() {
    let mut nrzi = NRZI::new(
        NRZIConsts::new(
            Frequency::new(1),
            Proportion::new(UNIT),
            (Amplitude::new(ONE), Amplitude::new(0)),
        ),
        Parameters::new(vec![0b_0100_0010_u8], 4, 0),
    );
    let half = Amplitude::new(ONE / 2);
    let high = Amplitude::new(ONE);
    let low = Amplitude::new(0);
    let expected = [
        low, half, high, // start of frame
        high, high, // 1. bit
        half, low, // 2. bit
        low, low, low, low, low, low, low, low, // 3.-6. bit
        half, high, // stuff bit
        half, low, // 7. bit
        low, low, // 8. bit
        half, high, // EOF 0
        half, low, // EOF 1
        low, low, low, low, low, low, // EOF 2-4
    ];
    for (i, amplitude) in expected.iter().enumerate() {
        assert_eq!(nrzi.advance_with(half_second()).unwrap(), *amplitude, "sample {}", i);
    }
    assert!(matches!(nrzi.advance_with(half_second()), Err(Error::Finished)));
}

#[test]
fn shaper_rejects_long_steps_and_stays_in_range() {
    let mut nrzi = NRZI::new(
        NRZIConsts::new(
            Frequency::new(10),
            Proportion::new(UNIT / 4),
            (Amplitude::new(ONE), Amplitude::new(ONE / 10)),
        ),
        Parameters::new("Hi".as_bytes().to_vec(), 3, 2),
    );
    assert!(matches!(nrzi.advance_with(Time::new(30_000_000)), Err(Error::Undersampled)));
    let mut n = 0;
    loop {
        match nrzi.advance_with(Time::new(7_000_000)) {
            Ok(a) => {
                assert!(ONE / 10 <= a.value() && a.value() <= ONE);
                n += 1;
            },
            Err(Error::Finished) => break,
            Err(Error::Undersampled) => panic!("undersampled"),
        }
    }
    assert!(n > 100);
}

fn config() -> SearchConfig {
    SearchConfig { transition_width: 3, window_width: 4, min_snr: Proportion::new(2 * UNIT) }
}

#[test]
fn search_finds_rising_edge() {
    let s = [0, 0, 0, 0, 0, 10, 10, 10, 10, 10];
    let found = search(&config(), &s, Transition::Rising, None).unwrap();
    // step responses: 0 0 0 10 10 0 0 0; mean 2
    assert_eq!(found.ts, Transition::Rising);
    assert_eq!(found.sig_begin_offset, 4);
    assert_eq!(found.mid_transition_window_offset, 6);
    assert_eq!(found.transitionless_windows, 1);
    assert_eq!(found.calculated_noise_level, 2);
    assert_eq!(found.snr, Proportion::new(5 * UNIT));
    assert!(search(&config(), &s, Transition::Falling, None).is_none());
    assert!(search(&config(), &s, Transition::Rising, Some(6)).is_none());
    assert!(search(&config(), &s[..2], Transition::Rising, None).is_none());
}

#[test]
fn search_finds_falling_edge() {
    let s = [9, 9, 9, 9, 9, 9, 1, 1, 1, 1];
    let found = search(&config(), &s, Transition::Falling, Some(1)).unwrap();
    assert_eq!(found.sig_begin_offset, 4);
    assert_eq!(found.snr, Proportion::new(8 * UNIT));
}

#[test]
fn dft_band_bins() {
    assert_eq!(frequency_steps(512), 256);
    // 256 bins over 0..=22050 Hz: 20000 Hz is nearest to bin 232
    assert_eq!(center_bin(20000, 22050, 256), 232);
    assert_eq!(band_step_bounds(10, 3, 256), Ok((7, 14)));
    assert_eq!(band_step_bounds(1, 3, 256), Ok((0, 5)));
    assert_eq!(band_step_bounds(254, 3, 256), Ok((251, 256)));
    assert_eq!(band_step_bounds(256, 3, 256), Err(ProcError::FrequencyOutOfBounds));
    let mut bins = [1, 2, 3, 4, 5, 6, 7, 8, 9, 10];
    filter_band(&mut bins, 1, 3, 0);
    assert_eq!(bins, [0, 2, 3, 0, 0, 0, 0, 8, 9, 0]);
}

/// Per-window envelope of an encoded message, with silence around it.
fn envelope(message: &[u8], stuff_bit: u8, windows_per_baud: u64, lead_in: usize, lead_out: usize) -> Vec<i32> {
    let baud = Frequency::new(100);
    let consts = NRZIConsts::new(baud, Proportion::new(UNIT / 4), (Amplitude::new(ONE), Amplitude::new(0)));
    let mut shaper = NRZI::new(consts, Parameters::new(message.to_vec(), stuff_bit, 0));
    let dt = Time::new(10_000_000 / windows_per_baud);
    let mut out = vec![0; lead_in];
    while let Ok(a) = shaper.advance_with(dt) {
        out.push(a.value());
    }
    out.extend(std::iter::repeat(0).take(lead_out));
    out
}

fn decode_transitions(message: &str) -> (Vec<Transition>, Vec<Transition>) {
    let stuff_bit = 4u8;
    let windows_per_baud = 8usize;
    let amplitudes = envelope(message.as_bytes(), stuff_bit, windows_per_baud as u64, 4, 400);
    let params = DecoderParameters::new(
        windows_per_baud,
        Proportion::new(UNIT / 4),
        Proportion::new(3 * UNIT),
        stuff_bit as usize,
        64,
    );
    let mut decoder = Decoder::new(params, 0);
    for chunk in amplitudes.chunks(windows_per_baud) {
        decoder.append_amplitudes(chunk);
        decoder.parse();
    }
    assert_eq!(decoder.state_machine(), StateMachine::Searching);
    let values = Encoder::new(Parameters::new(message.as_bytes().to_vec(), stuff_bit, 0)).values();
    let reference = nrzi_to_transition_states(&values, stuff_bit as usize).unwrap();
    (decoder.transitions().clone(), reference)
}

#[test]
fn transitions_of_clean_envelope_abcd() {
    let (decoded, reference) = decode_transitions("ABCD");
    assert_eq!(decoded, reference);
}

#[test]
fn transitions_of_clean_envelope_longer_message() {
    let (decoded, reference) = decode_transitions("Nagyon szeretlek angyalom! <3");
    assert_eq!(decoded, reference);
}

const QUARTER: i32 = ONE / 4;

#[test]
fn start_of_frame_search_ramp_0_to_1_on_length_4() {
    let buffer = [0, 0, 0, QUARTER, 2 * QUARTER, 3 * QUARTER, ONE, ONE, ONE];
    let result =
        StartOfFrameSearch::search_rising(&buffer, SampleCount::new(4), (ONE / 2) as i64).unwrap();

    assert_eq!(result.transition_offset, 2);
    assert_eq!(result.signal_level, ONE as i64);
    assert_eq!(result.noise_level, 0);
}

#[test]
fn start_of_frame_search_ramp_0_to_1_on_length_4_under_signal_level() {
    let buffer = [0, 0, 0, QUARTER, 2 * QUARTER, 3 * QUARTER, ONE, ONE, ONE];
    let result = StartOfFrameSearch::search_rising(&buffer, SampleCount::new(4), 2 * ONE as i64);

    assert!(result.is_none());
}

#[test]
fn start_of_frame_search_non_monotonous_ramp_0_to_1_on_length_6() {
    let buffer = [0, 0, 0, QUARTER, 2 * QUARTER, QUARTER, 2 * QUARTER, 3 * QUARTER, ONE, ONE, ONE];
    let result =
        StartOfFrameSearch::search_rising(&buffer, SampleCount::new(6), (ONE / 2) as i64).unwrap();

    assert_eq!(result.transition_offset, 2);
    assert_eq!(result.signal_level, ONE as i64);
    assert_eq!(result.noise_level, 0);
}

#[test]
fn start_of_frame_search_noise_before_the_edge() {
    let buffer = [3, -9, 4, 5, 40, 40, 40];
    let result = StartOfFrameSearch::search_rising(&buffer, SampleCount::new(1), 20).unwrap();
    assert_eq!(result.transition_offset, 3);
    assert_eq!(result.signal_level, 35);
    // (3 - 9 + 4) / 3, rounded toward zero
    assert_eq!(result.noise_level, 0);
    let result = StartOfFrameSearch::search_rising(&[-3, -4, -4, 30], SampleCount::new(1), 10).unwrap();
    assert_eq!(result.transition_offset, 2);
    assert_eq!(result.noise_level, -3);
    let result = StartOfFrameSearch::search_rising(&[-5, -6, 30, 30], SampleCount::new(1), 10).unwrap();
    assert_eq!(result.transition_offset, 1);
    assert_eq!(result.noise_level, -5);
}

#[test]
fn aligned_sample_counts() {
    assert_eq!(window_aligned_len(1000, 110), 990);
    assert_eq!(window_aligned_len(109, 110), 0);
    assert_eq!(window_aligned_len(220, 110), 220);
}

#[test]
fn decoder_loses_sync_without_the_next_edge() {
    let params = DecoderParameters::new(4, Proportion::new(UNIT / 2), Proportion::new(3 * UNIT), 2, 64);
    let mut decoder = Decoder::new(params, 0);
    assert!(!decoder.step());
    let mut amplitudes = vec![0; 9];
    amplitudes.extend(std::iter::repeat(ONE).take(40));
    decoder.append_amplitudes(&amplitudes);
    decoder.parse();
    assert_eq!(decoder.transitions(), &vec![Transition::Rising, Transition::Hold(2), Transition::Noise(1)]);
    assert_eq!(decoder.state_machine(), StateMachine::Searching);
    assert_eq!(decoder.carrier_amplitudes().len(), 2);
    assert!(decoder.noise_level() > 0);
    assert!(!decoder.step());
}
