use am_modem::sampling::{SampleCount, SamplingRate};
use am_modem::units::{Amplitude, Frequency, Proportion, Time, UNIT};

#[test]
fn frequency_cycle_time_and_steps() {
    assert_eq!(Frequency::new(100).cycle_time(), Time::new(10_000_000));
    assert_eq!(Frequency::new(1).cycle_time(), Time::new(1_000_000_000));
    // half of 1000 Hz in steps of 86 Hz: 500 / 86 = 5.8, rounded to 6
    assert_eq!(Frequency::new(1000).bandwidth_steps(Frequency::new(86)), 6);
    assert_eq!(Frequency::new(1000).bandwidth_steps(Frequency::new(1000)), 1);
    assert_eq!(Frequency::new(999).bandwidth_steps(Frequency::new(1000)), 0);
}

#[test]
fn time_scaling() {
    let baud = Time::new(10_000_000);
    assert_eq!(baud.scale(Proportion::new(UNIT / 4)), Time::new(2_500_000));
    assert_eq!(baud.scale(Proportion::new(UNIT)), baud);
    assert_eq!(Time::zero().value(), 0);
}

#[test]
fn amplitude_relative_to() {
    let one = Amplitude::new(UNIT as i32);
    assert_eq!(one.relative_to(Amplitude::new(UNIT as i32 / 4)), Proportion::new(4 * UNIT));
    assert_eq!(Amplitude::new(-3).relative_to(Amplitude::new(2)), Proportion::new(-3 * UNIT / 2));
    assert_eq!(Amplitude::new(3).relative_to(Amplitude::zero()), Proportion::new(3 * UNIT));
    assert_eq!(Amplitude::new(-5).abs(), Amplitude::new(5));
    assert_eq!(Amplitude::new(5).abs().value(), 5);
}

#[test]
fn proportion_scale_usize_truncates() {
    assert_eq!(Proportion::new(UNIT / 4).scale_usize(8), 2);
    assert_eq!(Proportion::new(UNIT / 4).scale_usize(7), 1);
    assert_eq!(Proportion::new(-UNIT).scale_usize(7), 0);
    assert_eq!(Proportion::new(UNIT).neg(), Proportion::new(-UNIT));
    assert_eq!(Proportion::new(5).value(), 5);
}

#[test]
fn sampling_rate_conversions() {
    let rate = SamplingRate::new(44100);
    assert_eq!(rate.value(), 44100);
    assert_eq!(rate.max_frequency(), 22050);
    // 10 ms at 44.1 kHz: 441 samples
    assert_eq!(rate.samples_in(Time::new(10_000_000)), SampleCount::new(441));
    // 5 ms: 220.5 samples, rounded up
    assert_eq!(rate.samples_in(Time::new(5_000_000)), SampleCount::new(221));
    assert_eq!(rate.sample(SampleCount::new(441)), Time::new(10_000_000));
    assert_eq!(rate.increment(), Time::new(22675));
    assert_eq!(SampleCount::new(7).value(), 7);
}
