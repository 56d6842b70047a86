use radixal::digits::DigitsIterator;
use radixal::digits::RadixError;

#[test]
fn very_small() {
    let mut digits = DigitsIterator::new(8, 10).unwrap();
    assert_eq!(digits.remaining_len(), 1);
    assert_eq!(digits.next(), Some(8));
    assert_eq!(digits.next(), None);
    assert_eq!(digits.next(), None);
}

#[test]
fn test_big_endian_123() {
    let mut digits = DigitsIterator::new(123, 10).unwrap();
    assert_eq!(digits.remaining_len(), 3);

    assert_eq!(digits.next(), Some(1));
    assert_eq!(digits.next(), Some(2));
    assert_eq!(digits.next(), Some(3));
    assert_eq!(digits.next(), None);
}

#[test]
fn test_little_endian_123() {
    let mut digits = DigitsIterator::new(123, 10).unwrap();

    assert_eq!(digits.next_back(), Some(3));
    assert_eq!(digits.next_back(), Some(2));
    assert_eq!(digits.next_back(), Some(1));
    assert_eq!(digits.next_back(), None);
}

#[test]
fn test_reversible_iterator() {
    let mut digits = DigitsIterator::new(123, 10).unwrap();

    assert_eq!(digits.next_back(), Some(3));
    assert_eq!(digits.next_back(), Some(2));
    assert_eq!(digits.next_back(), Some(1));
    assert_eq!(digits.next_back(), None);
}

#[test]
fn test_overflow() {
    let mut digits = DigitsIterator::new(123, 10).unwrap();

    assert_eq!(digits.next(), Some(1));
    assert_eq!(digits.next_back(), Some(3));
    assert_eq!(digits.next(), Some(2));
    assert_eq!(digits.next_back(), None);
}

#[test]
fn test_radix_0() {
    let digits = DigitsIterator::new(123, 0);
    assert_eq!(digits, Err(RadixError::Radix0));
}

#[test]
fn test_radix_1() {
    let digits = DigitsIterator::new(123, 1);
    assert_eq!(digits, Err(RadixError::Radix1));
}

#[test]
fn test_len_does_not_consume_iterator() {
    let digits = DigitsIterator::new(123, 10).unwrap();
    assert_eq!(digits.remaining_len(), 3);
    assert_eq!(digits.remaining_len(), 3);
}

#[test]
fn zero_has_one_digit() {
    let mut digits = DigitsIterator::new(0, 10).unwrap();
    assert_eq!(digits.remaining_len(), 1);
    assert_eq!(digits.next(), Some(0));
    assert_eq!(digits.next(), None);
}

#[test]
fn into_number_round_trips() {
    assert_eq!(DigitsIterator::new(123, 10).unwrap().into_number(), 123);
    assert_eq!(DigitsIterator::new(0, 10).unwrap().into_number(), 0);
    assert_eq!(DigitsIterator::new(u64::MAX, 2).unwrap().into_number(), u64::MAX);
    assert_eq!(DigitsIterator::new(u64::MAX, 10).unwrap().into_number(), u64::MAX);
    assert_eq!(DigitsIterator::new(987654321, 16).unwrap().into_number(), 987654321);
}

#[test]
fn into_number_of_partially_consumed() {
    let mut digits = DigitsIterator::new(123, 10).unwrap();
    assert_eq!(digits.next(), Some(1));
    assert_eq!(digits.into_number(), 23);

    let mut digits = DigitsIterator::new(123, 10).unwrap();
    assert_eq!(digits.next_back(), Some(3));
    assert_eq!(digits.into_number(), 12);
}

#[test]
fn into_reversed_number_small() {
    assert_eq!(DigitsIterator::new(123, 10).unwrap().into_reversed_number(), Some(321));
    assert_eq!(DigitsIterator::new(100, 10).unwrap().into_reversed_number(), Some(1));
    assert_eq!(DigitsIterator::new(0, 10).unwrap().into_reversed_number(), Some(0));
}

#[test]
fn into_reversed_number_overflow() {
    // 20 digits ending in 2: the mirror image starts with 2 and has 20
    // digits, which is beyond 64 bits.
    let digits = DigitsIterator::new(10000000000000000002, 10).unwrap();
    assert_eq!(digits.into_reversed_number(), None);

    // The mirror image of the largest value also overflows.
    let digits = DigitsIterator::new(u64::MAX, 10).unwrap();
    assert_eq!(digits.into_reversed_number(), None);

    // A 20-digit palindrome fits exactly.
    let digits = DigitsIterator::new(10000000000000000001, 10).unwrap();
    assert_eq!(digits.into_reversed_number(), Some(10000000000000000001));
}

#[test]
fn forward_reversed_equals_backward() {
    let mut forward = DigitsIterator::new(9876543210, 10).unwrap();
    let mut backward = DigitsIterator::new(9876543210, 10).unwrap();

    let mut fwd: Vec<u64> = Vec::new();
    while let Some(d) = forward.next() {
        fwd.push(d);
    }
    let mut bwd: Vec<u64> = Vec::new();
    while let Some(d) = backward.next_back() {
        bwd.push(d);
    }
    fwd.reverse();
    assert_eq!(fwd, bwd);
}

#[test]
fn extraction_count_matches_remaining_len() {
    let mut digits = DigitsIterator::new(123456, 10).unwrap();
    let expected = digits.remaining_len();
    let mut extracted = 0;
    loop {
        let got = if extracted % 2 == 0 { digits.next() } else { digits.next_back() };
        match got {
            Some(_) => extracted += 1,
            None => break,
        }
    }
    assert_eq!(extracted, expected);
    assert_eq!(digits.next(), None);
    assert_eq!(digits.next_back(), None);
    assert_eq!(digits.remaining_len(), 0);
}

#[test]
fn binary_digits() {
    let mut digits = DigitsIterator::new(6, 2).unwrap();
    assert_eq!(digits.remaining_len(), 3);
    assert_eq!(digits.next(), Some(1));
    assert_eq!(digits.next(), Some(1));
    assert_eq!(digits.next(), Some(0));
    assert_eq!(digits.next(), None);
}

#[test]
fn size_hint_is_exact() {
    let mut digits = DigitsIterator::new(123, 10).unwrap();
    assert_eq!(digits.size_hint(), (3, Some(3)));
    assert_eq!(digits.next(), Some(1));
    assert_eq!(digits.size_hint(), (2, Some(2)));
}

#[test]
fn count_and_last() {
    assert_eq!(DigitsIterator::new(123, 10).unwrap().count(), 3);
    assert_eq!(DigitsIterator::new(123, 10).unwrap().last(), Some(3));
    let mut exhausted = DigitsIterator::new(8, 10).unwrap();
    assert_eq!(exhausted.next(), Some(8));
    assert_eq!(exhausted.count(), 0);
}
