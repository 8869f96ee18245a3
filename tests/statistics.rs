use am_modem::utils::conv1d::valid;
use am_modem::utils::{begin_upper_limit_slice, median_non_averaged, nms, BitVec, WindowedWeightedAverage};

#[test]
fn median_of_one_value_is_that_value() {
    assert_eq!(median_non_averaged(&[42]), Ok(42));
    assert_eq!(median_non_averaged(&[-7]), Ok(-7));
}

#[test]
fn median_of_sorted_input_is_middle_element() {
    assert_eq!(median_non_averaged(&[1, 2, 3, 4, 5]), Ok(3));
    assert_eq!(median_non_averaged(&[1, 2, 3, 4]), Ok(3));
    assert_eq!(median_non_averaged(&[5, 1, 4, 2, 3]), Ok(3));
    assert_eq!(median_non_averaged(&[10, 10, 0, 0]), Ok(10));
}

#[test]
fn median_of_nothing_fails() {
    assert_eq!(median_non_averaged(&[]), Err(()));
}

#[test]
fn nms_detects_local_extremum() {
    assert!(nms(&[1, 3, 2]));
    assert!(nms(&[3, 1, 2]));
    assert!(!nms(&[1, 2, 3]));
    assert!(!nms(&[3, 2, 1]));
    assert!(!nms(&[2, 2, 2]));
    assert!(nms(&[2, 2, 1]));
}

#[test]
fn begin_upper_limit_slice_caps_length() {
    let v = [1, 2, 3, 4];
    assert_eq!(begin_upper_limit_slice(&v, 2), &[1, 2]);
    assert_eq!(begin_upper_limit_slice(&v, 10), &[1, 2, 3, 4]);
    assert_eq!(begin_upper_limit_slice(&v, 0), &[] as &[i32]);
}

#[test]
fn windowed_weighted_average_moves_towards_new_values() {
    let mut avg = WindowedWeightedAverage::new(100, 3);
    avg.acc(200, 1);
    assert_eq!(avg.value(), 125);
    avg.acc(25, 1);
    assert_eq!(avg.value(), 100);
    avg.acc(0, 0);
    assert_eq!(avg.value(), 100);
}

#[test]
fn windowed_weighted_average_is_monotone_and_bounded() {
    let mut prev = 0;
    for v in [0u64, 10, 50, 90, 1000] {
        let mut avg = WindowedWeightedAverage::new(40, 7);
        avg.acc(v, 3);
        assert!(avg.value() >= prev);
        prev = avg.value();
    }
    let mut avg = WindowedWeightedAverage::new(10, 2);
    for (v, w) in [(30u64, 1u64), (20, 5), (15, 2), (30, 9)] {
        avg.acc(v, w);
        assert!(10 <= avg.value() && avg.value() <= 30);
    }
}

#[test]
fn bit_vec_packs_msb_first() {
    let mut b = BitVec::new();
    for bit in [true, false, false, false, false, false, true, false, true] {
        b.push(bit);
    }
    assert_eq!(b.len(), 9);
    assert_eq!(b.byte_vec(), &vec![0b_1000_0010, 0b_1000_0000]);
    b.truncate_last_incomplete_byte();
    assert_eq!(b.len(), 8);
    assert_eq!(b.byte_vec(), &vec![0b_1000_0010]);
    b.truncate_last_incomplete_byte();
    assert_eq!(b.len(), 8);
}

#[test]
fn bit_helpers() {
    assert!(BitVec::read_bit(0b_1000_0000, 0));
    assert!(!BitVec::read_bit(0b_1000_0000, 1));
    assert!(BitVec::read_bit(0b_0000_0001, 7));
    assert_eq!(BitVec::set_bit(0, 0, true), 0b_1000_0000);
    assert_eq!(BitVec::set_bit(0xff, 7, false), 0b_1111_1110);
    assert_eq!(BitVec::set_bit(0b_0010_0000, 2, true), 0b_0010_0000);
}

#[test]
fn transition_search_snr() {
    // amplitudes in tenths: [0.1, 0.1, 0.2, 0.7, 1.0, 1.0, 0.9, 0.9]
    let signal = [1, 1, 2, 7, 10, 10, 9, 9];
    let kernel = [-1, 0, 1];
    let mut conv = [0i128; 6];
    valid(&signal, &kernel, &mut conv).unwrap();
    assert_eq!(conv, [1, 6, 8, 3, -1, -1]);
    let magnitudes: Vec<i128> = conv.iter().map(|c| c.abs()).collect();
    let median = median_non_averaged(&magnitudes).unwrap();
    assert_eq!(median, 3);
    let (max_index, max) = conv.iter().enumerate().max_by_key(|(_, c)| **c).unwrap();
    assert_eq!(*max, 8);
    assert_eq!(max_index, 2);
    let snr = *max as f64 / median as f64;
    assert!((snr - 2.667).abs() < 0.001);
}
