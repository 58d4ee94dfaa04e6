use golden_ratio::fibonacci;
use golden_ratio::fibonacci::{FibonacciIterator, Ratio};

const PHI: f64 = 1.618_033_988_749_895;

#[test]
fn test_fibonacci_sequence() {
    let fib = fibonacci::sequence(10);
    assert_eq!(fib, vec![1, 1, 2, 3, 5, 8, 13, 21, 34, 55]);
}

#[test]
fn test_fibonacci_nth() {
    assert_eq!(fibonacci::nth(1), 1);
    assert_eq!(fibonacci::nth(10), 55);
    assert_eq!(fibonacci::nth(20), 6765);
}

#[test]
fn test_is_fibonacci() {
    assert!(fibonacci::is_fibonacci(0));
    assert!(fibonacci::is_fibonacci(1));
    assert!(fibonacci::is_fibonacci(13));
    assert!(fibonacci::is_fibonacci(144));
    assert!(!fibonacci::is_fibonacci(4));
    assert!(!fibonacci::is_fibonacci(100));
}

fn quotient(ratio: Ratio) -> f64 {
    match ratio {
        Ratio::NotANumber => f64::NAN,
        Ratio::Infinity => f64::INFINITY,
        Ratio::Quotient { numerator, denominator } => numerator as f64 / denominator as f64,
    }
}

#[test]
fn ratio_at_twenty_is_near_phi() {
    // 6765 / 4181 lies 1 / (sqrt(5) * 4181^2) below phi, about 2.56e-8
    let error = (quotient(fibonacci::ratio_at(20)) - PHI).abs();
    assert!(error < 2.6e-8);
    assert!(error > 2.5e-8);
}

#[test]
fn ratios_close_in_on_phi() {
    let mut last = f64::INFINITY;
    for n in 2..=30u32 {
        let error = (quotient(fibonacci::ratio_at(n)) - PHI).abs();
        assert!(error < last);
        last = error;
    }
    assert!(last < 1e-11);
}

#[test]
fn sequence_of_nothing_is_empty() {
    assert_eq!(fibonacci::sequence(0), Vec::<u64>::new());
}

#[test]
fn sequence_of_one_term() {
    assert_eq!(fibonacci::sequence(1), vec![1]);
}

#[test]
fn sequence_of_two_terms() {
    assert_eq!(fibonacci::sequence(2), vec![1, 1]);
}

#[test]
fn sequence_has_the_length_asked_for() {
    for n in 0..120usize {
        assert_eq!(fibonacci::sequence(n).len(), n);
    }
}

#[test]
fn sequence_follows_the_recurrence() {
    let terms = fibonacci::sequence(93);
    for i in 2..terms.len() {
        assert_eq!(terms[i], terms[i - 1] + terms[i - 2]);
    }
    assert_eq!(terms[92], 12_200_160_415_121_876_738);
}

#[test]
fn sequence_wraps_after_the_last_exact_term() {
    let terms = fibonacci::sequence(95);
    assert_eq!(terms[92], 12_200_160_415_121_876_738);
    assert_eq!(terms[93], 1_293_530_146_158_671_551);
    assert_eq!(terms[94], 13_493_690_561_280_548_289);
}

#[test]
fn sequence_is_nth_shifted_by_one() {
    let terms = fibonacci::sequence(110);
    for (i, term) in terms.iter().enumerate() {
        assert_eq!(*term, fibonacci::nth(i as u32 + 1));
    }
}

#[test]
fn nth_starts_at_zero() {
    assert_eq!(fibonacci::nth(0), 0);
    assert_eq!(fibonacci::nth(2), 1);
    assert_eq!(fibonacci::nth(3), 2);
}

#[test]
fn nth_reaches_the_last_exact_term() {
    assert_eq!(fibonacci::nth(92), 7_540_113_804_746_346_429);
    assert_eq!(fibonacci::nth(93), 12_200_160_415_121_876_738);
}

#[test]
fn nth_wraps_silently() {
    assert_eq!(fibonacci::nth(94), 1_293_530_146_158_671_551);
    assert_eq!(fibonacci::nth(95), 13_493_690_561_280_548_289);
    assert_eq!(fibonacci::nth(200), 17_323_038_258_947_941_269);
}

#[test]
fn nth_twice_gives_the_same() {
    for n in 0..150u32 {
        assert_eq!(fibonacci::nth(n), fibonacci::nth(n));
    }
    assert_eq!(fibonacci::sequence(40), fibonacci::sequence(40));
}

#[test]
fn ratio_at_zero_is_not_a_number() {
    assert_eq!(fibonacci::ratio_at(0), Ratio::NotANumber);
}

#[test]
fn ratio_at_one_is_infinite() {
    assert_eq!(fibonacci::ratio_at(1), Ratio::Infinity);
}

#[test]
fn ratio_at_holds_neighbouring_terms() {
    assert_eq!(fibonacci::ratio_at(2), Ratio::Quotient { numerator: 1, denominator: 1 });
    assert_eq!(fibonacci::ratio_at(3), Ratio::Quotient { numerator: 2, denominator: 1 });
    assert_eq!(fibonacci::ratio_at(20), Ratio::Quotient { numerator: 6765, denominator: 4181 });
    assert_eq!(
        fibonacci::ratio_at(94),
        Ratio::Quotient {
            numerator: 1_293_530_146_158_671_551,
            denominator: 12_200_160_415_121_876_738,
        }
    );
}

#[test]
fn neighbouring_terms_keep_the_quadratic_form() {
    for n in 2..=46u32 {
        match fibonacci::ratio_at(n) {
            Ratio::Quotient { numerator, denominator } => {
                let p = numerator as i128;
                let q = denominator as i128;
                let expected = if n % 2 == 0 { -1 } else { 1 };
                assert_eq!(p * p - p * q - q * q, expected);
            }
            other => panic!("no quotient at index {}: {:?}", n, other),
        }
    }
}

#[test]
fn floor_sqrt_of_small_numbers() {
    assert_eq!(fibonacci::floor_sqrt(0), 0);
    assert_eq!(fibonacci::floor_sqrt(1), 1);
    assert_eq!(fibonacci::floor_sqrt(2), 1);
    assert_eq!(fibonacci::floor_sqrt(3), 1);
    assert_eq!(fibonacci::floor_sqrt(4), 2);
    assert_eq!(fibonacci::floor_sqrt(99), 9);
    assert_eq!(fibonacci::floor_sqrt(100), 10);
}

#[test]
fn floor_sqrt_at_the_top_of_the_range() {
    assert_eq!(fibonacci::floor_sqrt(u64::MAX), 4_294_967_295);
    assert_eq!(fibonacci::floor_sqrt(18_446_744_065_119_617_025), 4_294_967_295);
    assert_eq!(fibonacci::floor_sqrt(18_446_744_065_119_617_024), 4_294_967_294);
}

#[test]
fn floor_sqrt_brackets_its_argument() {
    for n in 0..5000u64 {
        let r = fibonacci::floor_sqrt(n);
        assert!(r * r <= n);
        assert!(n < (r + 1) * (r + 1));
    }
}

#[test]
fn perfect_squares_are_recognised() {
    for r in 0..300u64 {
        assert!(fibonacci::is_perfect_square(r * r));
    }
    assert!(fibonacci::is_perfect_square(18_446_744_065_119_617_025));
}

#[test]
fn other_numbers_are_not_perfect_squares() {
    assert!(!fibonacci::is_perfect_square(2));
    assert!(!fibonacci::is_perfect_square(3));
    assert!(!fibonacci::is_perfect_square(99));
    assert!(!fibonacci::is_perfect_square(u64::MAX));
    assert!(!fibonacci::is_perfect_square(u64::MAX - 3));
    assert!(!fibonacci::is_perfect_square(18_446_744_065_119_617_024));
}

#[test]
fn is_fibonacci_agrees_with_the_sequence() {
    let terms = fibonacci::sequence(30);
    for n in 0..=10_000u64 {
        assert_eq!(fibonacci::is_fibonacci(n), n == 0 || terms.contains(&n));
    }
}

#[test]
fn is_fibonacci_accepts_every_term_below_the_limit() {
    for k in 0..=46u32 {
        assert!(fibonacci::is_fibonacci(fibonacci::nth(k)));
    }
}

#[test]
fn is_fibonacci_at_the_limit() {
    assert!(fibonacci::is_fibonacci(1_836_311_903));
    assert!(!fibonacci::is_fibonacci(1_836_311_904));
    assert!(!fibonacci::is_fibonacci(1_920_767_766));
}

#[test]
fn is_fibonacci_wraps_beyond_the_limit() {
    // 5 * 2^32 * 2^32 wraps to zero, which leaves 4 to be tested
    assert!(fibonacci::is_fibonacci(4_294_967_296));
    // the 47th term is lost to the wrap-around
    assert!(!fibonacci::is_fibonacci(2_971_215_073));
}

#[test]
fn iterator_starts_with_zero() {
    let mut it = FibonacciIterator::new();
    let mut terms = Vec::new();
    for _ in 0..10 {
        terms.push(it.next().unwrap());
    }
    assert_eq!(terms, vec![0, 1, 1, 2, 3, 5, 8, 13, 21, 34]);
}

#[test]
fn iterator_never_ends() {
    let mut it = FibonacciIterator::new();
    for _ in 0..1000 {
        assert!(it.next().is_some());
    }
}

#[test]
fn iterator_hands_out_what_nth_computes() {
    let mut it = FibonacciIterator::new();
    for n in 0..130u32 {
        assert_eq!(it.next(), Some(fibonacci::nth(n)));
    }
}

#[test]
fn iterator_by_default_is_a_new_one() {
    let mut fresh = FibonacciIterator::new();
    let mut by_default = FibonacciIterator::default();
    for _ in 0..100 {
        assert_eq!(fresh.next(), by_default.next());
    }
}

#[test]
fn iterators_do_not_share_state() {
    let mut first = FibonacciIterator::new();
    for _ in 0..7 {
        first.next();
    }
    let mut second = FibonacciIterator::new();
    assert_eq!(second.next(), Some(0));
    assert_eq!(first.next(), Some(13));
    assert_eq!(second.next(), Some(1));
}

#[test]
fn nth_is_zero_at_index_zero_only() {
    assert_eq!(fibonacci::nth(0), 0);
    for n in 1..5000u32 {
        assert!(fibonacci::nth(n) != 0);
    }
}

#[test]
fn twos_in_a_term_follow_the_twos_in_its_index() {
    // two divides the term at index 3 * 2^k exactly k + 2 times
    for k in 1..=20u32 {
        let term = fibonacci::nth(3 << k);
        assert_eq!(term.trailing_zeros(), k + 2);
    }
}

#[test]
fn ratio_is_infinite_at_index_one_only() {
    for n in 2..3000u32 {
        assert!(matches!(fibonacci::ratio_at(n), Ratio::Quotient { .. }));
    }
}
