use algorithms::peaks::one_d::{find_peak, find_peak_naive};

fn assert_is_peak(input: &[i64], found: Option<usize>) {
    match found {
        None => panic!("failed to find peak in input {:?}", input),
        Some(i) => {
            let n = input.len();
            let x = input[i];
            if i > 0 {
                assert!(x >= input[i - 1])
            }
            if i < n - 1 {
                assert!(x >= input[i + 1])
            }
        }
    }
}

#[test]
fn test_find_peak() {
    assert_eq!(find_peak(&Vec::<i64>::new()), None);
    assert_is_peak(&[1, 1, 1, 1], find_peak(&[1, 1, 1, 1]));
    assert_is_peak(&[1, 2, 3, 4], find_peak(&[1, 2, 3, 4]));
    assert_is_peak(&[1, 2, 1, 4], find_peak(&[1, 2, 1, 4]));
    assert_is_peak(&[5, 2, 1, 4], find_peak(&[5, 2, 1, 4]));
}

#[test]
fn test_find_peak_naive() {
    assert_eq!(find_peak_naive(&Vec::<i64>::new()), None);
    assert_is_peak(&[1, 1, 1, 1], find_peak_naive(&[1, 1, 1, 1]));
    assert_is_peak(&[1, 2, 3, 4], find_peak_naive(&[1, 2, 3, 4]));
    assert_is_peak(&[1, 2, 1, 4], find_peak_naive(&[1, 2, 1, 4]));
    assert_is_peak(&[5, 2, 1, 4], find_peak_naive(&[5, 2, 1, 4]));
}

#[test]
fn bisection_ends_where_the_window_closes() {
    // all tied: the first midpoint already is a peak
    assert_eq!(find_peak(&[1, 1, 1, 1]), Some(1));
    // rising: the window moves right until one index is left
    assert_eq!(find_peak(&[1, 2, 3, 4]), Some(3));
    // falling from the left end: the window moves left
    assert_eq!(find_peak(&[5, 2, 1, 4]), Some(0));
    assert_eq!(find_peak(&[1, 2, 1, 4]), Some(1));
    assert_eq!(find_peak(&[4, 3, 2, 1]), Some(0));
}

#[test]
fn naive_scan_returns_the_first_peak() {
    assert_eq!(find_peak_naive(&[1, 1, 1, 1]), Some(0));
    assert_eq!(find_peak_naive(&[1, 2, 3, 4]), Some(3));
    assert_eq!(find_peak_naive(&[5, 2, 1, 4]), Some(0));
    assert_eq!(find_peak_naive(&[1, 2, 1, 4]), Some(1));
    assert_eq!(find_peak_naive(&[1, 3, 2, 5, 4]), Some(1));
}

#[test]
fn single_element_is_its_own_peak() {
    assert_eq!(find_peak(&[7u8]), Some(0));
    assert_eq!(find_peak_naive(&[7u8]), Some(0));
}

#[test]
fn two_elements() {
    assert_eq!(find_peak(&[1, 2]), Some(1));
    assert_eq!(find_peak(&[2, 1]), Some(0));
    assert_eq!(find_peak(&[2, 2]), Some(0));
    assert_eq!(find_peak_naive(&[1, 2]), Some(1));
    assert_eq!(find_peak_naive(&[2, 1]), Some(0));
    assert_eq!(find_peak_naive(&[2, 2]), Some(0));
}

#[test]
fn both_finders_return_peaks_on_every_short_sequence() {
    // every sequence over {0, 1, 2} of length 1 to 6
    for len in 1..7usize {
        let mut digits = vec![0i64; len];
        loop {
            assert_is_peak(&digits, find_peak(&digits));
            assert_is_peak(&digits, find_peak_naive(&digits));
            let first = find_peak_naive(&digits).unwrap();
            assert!(first <= find_peak(&digits).unwrap());
            let mut k = 0;
            while k < len && digits[k] == 2 {
                digits[k] = 0;
                k += 1;
            }
            if k == len {
                break;
            }
            digits[k] += 1;
        }
    }
}

#[test]
fn repeated_calls_agree() {
    let input = [3, 1, 4, 1, 5, 9, 2, 6, 5, 3];
    let first = find_peak(&input);
    assert_eq!(find_peak(&input), first);
    assert_eq!(find_peak(&input), first);
    let naive = find_peak_naive(&input);
    assert_eq!(find_peak_naive(&input), naive);
}

#[test]
fn works_on_other_ordered_types() {
    let words = ["pear", "plum", "apple"];
    assert_eq!(find_peak(&words), Some(1));
    assert_eq!(find_peak_naive(&words), Some(1));
    let owned = vec![String::from("b"), String::from("a")];
    assert_eq!(find_peak(&owned), Some(0));
}
