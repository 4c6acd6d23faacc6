use stats::{mode, Mode};

#[test]
fn test_mode_positive_integers_none() {
    let result = mode(&[0, 1, 2, 3, 4, 5]);
    assert_eq!(result, Mode::NoMode);
}

#[test]
fn test_mode_none_with_empty_list() {
    let empty_list: Vec<i32> = vec![];
    let result = mode(&empty_list);
    assert_eq!(result, Mode::NoMode);
}

#[test]
fn test_mode_positive_integers_unimodal() {
    let result = mode(&[0, 1, 2, 3, 1]);
    assert_eq!(result, Mode::Unimodal(1));
}

#[test]
fn test_mode_positive_integers_bimodal() {
    let result = mode(&[0, 1, 3, 3, 1]);
    assert_eq!(result, Mode::Bimodal(1, 3));
}

#[test]
fn test_mode_positive_integers_trimodal() {
    let result = mode(&[0, 1, 3, 3, 1, 0]);
    assert_eq!(result, Mode::Trimodal(0, 1, 3));
}

#[test]
fn test_mode_positive_integers_multimodal() {
    let result = mode(&[0, 1, 3, 3, 1, 0, 2, 2]);
    assert_eq!(result, Mode::Multimodal(vec![0, 1, 2, 3]));
}

#[test]
fn test_mode_negative_integers_none() {
    let result = mode(&[0, -1, -2, -3, -4, -5]);
    assert_eq!(result, Mode::NoMode);
}

#[test]
fn test_mode_negative_integers_unimodal() {
    let result = mode(&[0, -1, -2, -3, -1]);
    assert_eq!(result, Mode::Unimodal(-1));
}

#[test]
fn test_mode_negative_integers_bimodal() {
    let result = mode(&[0, -1, -3, -3, -1]);
    assert_eq!(result, Mode::Bimodal(-3, -1));
}

#[test]
fn test_mode_negative_integers_trimodal() {
    let result = mode(&[0, -1, -3, -3, -1, 0]);
    assert_eq!(result, Mode::Trimodal(-3, -1, 0));
}

#[test]
fn test_mode_negative_integers_multimodal() {
    let result = mode(&[-0, -1, -3, -3, -1, 0, -2, -2]);
    assert_eq!(result, Mode::Multimodal(vec![-3, -2, -1, 0]));
}

#[test]
fn test_mode_mixed_integers_unimodal() {
    let result = mode(&[0, -1, 2, 3, -1]);
    assert_eq!(result, Mode::Unimodal(-1));
}

#[test]
fn test_mode_single_repeated_value() {
    let result = mode(&[7, 7]);
    assert_eq!(result, Mode::Unimodal(7));
}

#[test]
fn test_mode_unequal_counts_still_bimodal() {
    // "Appears more than once" is the threshold, not "appears the most":
    // counts (5, 3) still classify as bimodal.
    let result = mode(&[1, 1, 1, 1, 1, 2, 2, 2]);
    assert_eq!(result, Mode::Bimodal(1, 2));
}

#[test]
fn test_mode_multimodal_with_singletons() {
    // Five repeated values and a value that occurs once: the singleton is
    // dropped and all five repeated values are reported.
    let result = mode(&[1, 1, 2, 2, 3, 3, 4, 4, 5, 5, 9]);
    assert_eq!(result, Mode::Multimodal(vec![1, 2, 3, 4, 5]));
}

#[test]
fn test_mode_orders_numerically() {
    // The tally is keyed by the decimal renderings, but the reported
    // order is numeric: 2 comes before 10.
    let result = mode(&[10, 2, 10, 2]);
    assert_eq!(result, Mode::Bimodal(2, 10));
}

#[test]
fn test_mode_u8_values() {
    let result = mode(&[200u8, 200u8, 5u8, 5u8, 7u8]);
    assert_eq!(result, Mode::Bimodal(5u8, 200u8));
}

#[test]
fn test_mode_u16_values() {
    let result = mode(&[1000u16, 3u16, 1000u16]);
    assert_eq!(result, Mode::Unimodal(1000u16));
}

#[test]
fn test_mode_u32_values() {
    let result = mode(&[4294967295u32, 4294967295u32, 0u32, 1u32]);
    assert_eq!(result, Mode::Unimodal(4294967295u32));
}

#[test]
fn test_mode_i8_values() {
    let result = mode(&[-128i8, -128i8, 127i8, 127i8]);
    assert_eq!(result, Mode::Bimodal(-128i8, 127i8));
}

#[test]
fn test_mode_i16_values() {
    let result = mode(&[-300i16, -300i16, 42i16]);
    assert_eq!(result, Mode::Unimodal(-300i16));
}

#[test]
fn test_repeated_keys_sorted_lexicographic() {
    let keys: Vec<Vec<u8>> = vec![
        b"2".to_vec(),
        b"10".to_vec(),
        b"2".to_vec(),
        b"10".to_vec(),
        b"7".to_vec(),
    ];
    let result = stats::repeated_keys_sorted(&keys);
    assert_eq!(result, vec![b"10".to_vec(), b"2".to_vec()]);
}

#[test]
fn test_repeated_keys_sorted_empty() {
    let keys: Vec<Vec<u8>> = vec![];
    let result = stats::repeated_keys_sorted(&keys);
    assert_eq!(result, Vec::<Vec<u8>>::new());
}

#[test]
fn test_repeated_keys_sorted_float_keys_bimodal() {
    // The classifier works on printed keys, so floating-point values go
    // through it as their decimal renderings.
    let data: Vec<f64> = vec![0.0, 1.5, 3.2, 3.2, 1.5];
    let keys: Vec<Vec<u8>> = data.iter().map(|v| format!("{}", v).into_bytes()).collect();
    let result = stats::repeated_keys_sorted(&keys);
    assert_eq!(result, vec![b"1.5".to_vec(), b"3.2".to_vec()]);
    let values: Vec<f64> = result
        .iter()
        .map(|k| String::from_utf8(k.clone()).unwrap().parse::<f64>().unwrap())
        .collect();
    assert_eq!(values, vec![1.5, 3.2]);
}

#[test]
fn test_repeated_keys_sorted_float_keys_unimodal() {
    let data: Vec<f64> = vec![0.0, 1.0, 2.0, 3.0, 1.0];
    let keys: Vec<Vec<u8>> = data.iter().map(|v| format!("{}", v).into_bytes()).collect();
    let result = stats::repeated_keys_sorted(&keys);
    assert_eq!(result, vec![b"1".to_vec()]);
}

#[test]
fn test_repeated_keys_sorted_float_keys_trimodal() {
    let data: Vec<f64> = vec![0.4, 1.1, 3.9, 3.9, 1.1, 0.4];
    let keys: Vec<Vec<u8>> = data.iter().map(|v| format!("{}", v).into_bytes()).collect();
    let result = stats::repeated_keys_sorted(&keys);
    assert_eq!(result, vec![b"0.4".to_vec(), b"1.1".to_vec(), b"3.9".to_vec()]);
}

#[test]
fn test_repeated_keys_sorted_float_keys_multimodal() {
    let data: Vec<f64> = vec![0.3, 1.7, 3.5, 3.5, 1.7, 0.3, 2.6, 2.6];
    let keys: Vec<Vec<u8>> = data.iter().map(|v| format!("{}", v).into_bytes()).collect();
    let result = stats::repeated_keys_sorted(&keys);
    assert_eq!(
        result,
        vec![b"0.3".to_vec(), b"1.7".to_vec(), b"2.6".to_vec(), b"3.5".to_vec()]
    );
}

#[test]
fn test_repeated_keys_sorted_distinct_zero_signs() {
    // "0" and "-0" print differently, so they land in different buckets.
    let keys: Vec<Vec<u8>> = vec![b"0".to_vec(), b"-0".to_vec(), b"0".to_vec()];
    let result = stats::repeated_keys_sorted(&keys);
    assert_eq!(result, vec![b"0".to_vec()]);
}
