use am_modem::utils::conv1d::{same, valid, valid_result_length, Error};

#[test]
fn same_samples_and_kernel_same_length() {
    let samples = vec![-1, -1, 0, 1, 1];
    let kernel = vec![-1, -1, 0, 1, 1];
    let mut output = [0; 5];

    same(&samples, &kernel, &mut output);

    assert_eq!(output, [-1, 2, 4, 2, -1])
}

#[test]
fn same_samples_5_kernel_even_6() {
    let samples = vec![-1, -1, 0, 1, 1];
    let kernel = vec![-1, -1, -1, 1, 1, 1];
    let mut output = [0; 5];

    same(&samples, &kernel, &mut output);

    assert_eq!(output, [-2, 1, 4, 4, 1])
}

#[test]
fn same_samples_longer_than_kernel() {
    let samples = vec![-1, -1, 0, 1, 1, 1, 1, 0, -1, -1];
    let kernel = vec![-1, -1, 0, 1, 1];
    let mut output = [0; 10];

    same(&samples, &kernel, &mut output);

    assert_eq!(output, [-1, 2, 4, 3, 1, -1, -3, -4, -2, 1])
}

#[test]
fn valid_samples_and_kernel_valid_length() {
    let samples = vec![-1, -1, 0, 1, 1];
    let kernel = vec![-1, -1, 0, 1, 1];
    let mut output = [0; 1];

    valid(&samples, &kernel, &mut output).unwrap();

    assert_eq!(output, [4])
}

#[test]
fn valid_samples_6_kernel_5() {
    let samples = vec![-1, -1, -1, 1, 1, 1];
    let kernel = vec![-1, -1, 0, 1, 1];
    let mut output = [0; 2];

    valid(&samples, &kernel, &mut output).unwrap();

    assert_eq!(output, [4, 4])
}

#[test]
fn valid_samples_longer_than_kernel() {
    let samples = vec![-1, -1, 0, 1, 1, 1, 1, 0, -1, -1];
    let kernel = vec![-1, -1, 0, 1, 1];
    let mut output = [0; 6];

    valid(&samples, &kernel, &mut output).unwrap();

    assert_eq!(output, [4, 3, 1, -1, -3, -4])
}

#[test]
fn valid_signal_shorter_than_kernel() {
    let samples = vec![1, 2];
    let kernel = vec![1, 1, 1];
    let mut output = [7; 1];
    assert_eq!(valid(&samples, &kernel, &mut output), Err(Error::SignalShorterThanKernel));
    assert_eq!(output, [7]);
}

#[test]
fn valid_wrong_output_size() {
    let samples = vec![1, 2, 3, 4];
    let kernel = vec![1, 1];
    let mut output = [0; 2];
    assert_eq!(valid(&samples, &kernel, &mut output), Err(Error::IncorrectOutputSize));
}

#[test]
fn valid_and_same_output_lengths() {
    assert_eq!(valid_result_length(10, 3), 8);
    assert_eq!(valid_result_length(5, 5), 1);
    let samples = vec![3, 1, 4, 1, 5, 9, 2];
    let kernel = vec![2, -1, 1];
    let mut out_valid = vec![0; valid_result_length(samples.len(), kernel.len())];
    assert_eq!(out_valid.len(), samples.len() - kernel.len() + 1);
    valid(&samples, &kernel, &mut out_valid).unwrap();
    assert_eq!(out_valid, vec![9, -1, 12, 6, 3]);
    let mut out_same = vec![0; samples.len()];
    same(&samples, &kernel, &mut out_same);
    assert_eq!(out_same.len(), samples.len());
    assert_eq!(out_same, vec![-2, 9, -1, 12, 6, 3, 16]);
}

#[test]
fn convolution_of_extreme_values_does_not_wrap() {
    let samples = vec![i32::MIN, i32::MIN, i32::MIN];
    let kernel = vec![i32::MIN, i32::MIN, i32::MIN];
    let mut output = [0i128; 1];
    valid(&samples, &kernel, &mut output).unwrap();
    assert_eq!(output[0], 3 * (1i128 << 62));
}
