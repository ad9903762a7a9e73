use algolib::number_theory::sieve_of_eratosthenes::sieve_of_eratosthenes;

#[test]
fn test_sieve_of_eratosthenes_logic() {
    let primes = sieve_of_eratosthenes(10usize.pow(4));
    for p in primes {
        let mut num = 1;
        let mut cnt = 0;
        while num <= p {
            if p % num == 0 {
                cnt += 1;
            }
            num += 1;
        }
        assert_eq!(cnt, 2);
    }
}

#[test]
fn test_sieve_of_eratosthenes_time() {
    let primes = sieve_of_eratosthenes(10usize.pow(8));
    assert_eq!(primes.len(), 5_761_455);
    assert_eq!(primes.last(), Some(&99_999_989));
}

#[test]
fn sieve_lists_every_prime_in_order() {
    assert_eq!(sieve_of_eratosthenes(30), vec![2, 3, 5, 7, 11, 13, 17, 19, 23, 29]);
}

#[test]
fn sieve_smallest_limits() {
    assert_eq!(sieve_of_eratosthenes(1), Vec::<usize>::new());
    assert_eq!(sieve_of_eratosthenes(2), vec![2]);
    assert_eq!(sieve_of_eratosthenes(3), vec![2, 3]);
    assert_eq!(sieve_of_eratosthenes(4), vec![2, 3]);
}

#[test]
fn sieve_limit_is_inclusive_and_squares_are_struck() {
    let primes = sieve_of_eratosthenes(49);
    assert_eq!(primes.last(), Some(&47));
    assert!(!primes.contains(&49));
    assert!(!primes.contains(&25));
    assert_eq!(sieve_of_eratosthenes(47).last(), Some(&47));
    assert_eq!(sieve_of_eratosthenes(100).len(), 25);
}

#[test]
fn main_test_sieve_of_eratosthenes_logic() {
    let primes = sieve_of_eratosthenes(10usize.pow(4));
    for p in primes {
        let mut num = 1;
        let mut cnt = 0;
        while num <= p {
            if p % num == 0 {
                cnt += 1;
            }
            num += 1;
        }
        assert_eq!(cnt, 2);
    }
}

#[test]
fn main_test_sieve_of_eratosthenes_time() {
    let primes = sieve_of_eratosthenes(10usize.pow(8));
    assert!(!primes.is_empty());
}
