use am_modem::encodings::enc::nrzi::{Parameters, NRZI as Encoder};
use am_modem::sampling::SamplingRate;
use am_modem::signals::am::Transition;
use am_modem::signals::dec::decoder::{Decoder, Parameters as DecoderParameters};
use am_modem::signals::enc::am::utils::nrzi_to_transition_states;
use am_modem::signals::enc::am::{NRZIConsts, NRZI};
use am_modem::signals::proc::{center_bin, frequency_steps};
use am_modem::units::{Amplitude, Frequency, Proportion, UNIT};
use rustfft::num_complex::Complex;
use rustfft::FftPlanner;

const CARRIER: u64 = 20000;
const RATE: usize = 44100;
const BAUD: u64 = 100;
const STUFF_BIT: u8 = 4;
const DIVISOR: usize = 8;

/// Samples of the message on a sine carrier, with 5 ms of silence before and
/// 500 ms after.
fn carrier_signal(message: &str) -> Vec<f32> {
    let rate = SamplingRate::new(RATE);
    let consts = NRZIConsts::new(
        Frequency::new(BAUD),
        Proportion::new(UNIT / 4),
        (Amplitude::new(UNIT as i32), Amplitude::new(0)),
    );
    let mut shaper = NRZI::new(consts, Parameters::new(message.as_bytes().to_vec(), STUFF_BIT, 0));
    let dt = rate.increment();
    let mut out = vec![0.0f32; RATE * 5 / 1000];
    let mut i = 0usize;
    while let Ok(a) = shaper.advance_with(dt) {
        let t = i as f32 / RATE as f32;
        let carrier = (2.0 * std::f32::consts::PI * CARRIER as f32 * t).sin();
        out.push(carrier * a.value() as f32 / UNIT as f32);
        i += 1;
    }
    out.extend(std::iter::repeat(0.0).take(RATE / 2));
    out
}

/// Carrier amplitude of each window, in the library's fixed point.
fn carrier_amplitudes(samples: &[f32], window: usize) -> Vec<i32> {
    let mut planner = FftPlanner::<f32>::new();
    let fft = planner.plan_fft_forward(window);
    let bins = frequency_steps(window);
    let bin = center_bin(CARRIER, (RATE / 2) as u64, bins) as usize;
    samples
        .chunks_exact(window)
        .map(|chunk| {
            let mut buffer: Vec<Complex<f32>> = chunk.iter().map(|x| Complex::new(*x, 0.0)).collect();
            fft.process(&mut buffer);
            (buffer[bin].norm() * UNIT as f32).round() as i32
        })
        .collect()
}

fn recovered_and_reference(message: &str) -> (Vec<Transition>, Vec<Transition>) {
    let samples_per_baud = (RATE + BAUD as usize - 1) / BAUD as usize;
    let window = samples_per_baud / DIVISOR;
    let amplitudes = carrier_amplitudes(&carrier_signal(message), window);
    let params = DecoderParameters::new(
        DIVISOR,
        Proportion::new(UNIT / 4),
        Proportion::new(3 * UNIT),
        STUFF_BIT as usize,
        64,
    );
    let mut decoder = Decoder::new(params, 0);
    for chunk in amplitudes.chunks(DIVISOR) {
        decoder.append_amplitudes(chunk);
        decoder.parse();
    }
    let values = Encoder::new(Parameters::new(message.as_bytes().to_vec(), STUFF_BIT, 0)).values();
    let reference = nrzi_to_transition_states(&values, STUFF_BIT as usize).unwrap();
    (decoder.transitions().clone(), reference)
}

#[test]
fn transitions_of_carrier_abcd() {
    let (recovered, reference) = recovered_and_reference("ABCD");
    assert_eq!(recovered, reference);
}

#[test]
fn transitions_of_carrier_longer_message() {
    let (recovered, reference) = recovered_and_reference("Nagyon szeretlek angyalom! <3");
    assert_eq!(recovered, reference);
}
