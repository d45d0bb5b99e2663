use protohax::primes::large::LARGE_PRIME;
use protohax::primes::primes::{sqrt_sup, Primes};
use protohax::primes::request::{handle, process_request, response, Input, Number, Request};

#[test]
fn test_push_next() {
    let mut p = Primes::default();
    assert_eq!(p.known(), &[2]);

    p.push_next(); // 3
    p.push_next(); // 5
    p.push_next(); // 7
    p.push_next(); // 11
    assert_eq!(p.known(), &[2, 3, 5, 7, 11]);
}

#[test]
fn test_is_prime() {
    let mut p = Primes::default();
    let pvec: Vec<u64> = (0u64..30).filter(|n| p.is_prime(*n)).collect();
    assert_eq!(pvec, vec![2, 3, 5, 7, 11, 13, 17, 19, 23, 29]);
}

#[test]
fn there_is_always_a_next_prime() {
    assert_eq!(LARGE_PRIME, (1 << 32) * ((1 << 32) - 1) + 1);
    let mut p = Primes::default();
    for _ in 0..999 {
        p.push_next();
    }
    assert_eq!(p.known().len(), 1000);
    assert_eq!(p.known()[999], 7919);
    for (a, b) in p.known().iter().zip(p.known().iter().skip(1)) {
        assert!(a < b);
        assert!((a + 1..*b).all(|n| (2..n).any(|d| n % d == 0)));
    }
}

#[test]
fn large_numbers_are_tested() {
    let mut p = Primes::default();
    assert!(p.is_prime(1_000_003));
    assert!(!p.is_prime(1_000_001)); // 101 * 9901
    assert!(!p.is_prime(1_000_003 * 2));
    assert!(!p.is_prime(999_983 * 999_979));
    // What has been found does not change an answer.
    assert!(p.is_prime(2));
    assert!(!p.is_prime(4));
    assert!(p.is_prime(997));
}

#[test]
fn known_primes_only_grow() {
    let mut p = Primes::default();
    assert!(p.is_prime(101));
    let before: Vec<u64> = p.known().to_vec();
    assert!(!p.is_prime(10_403)); // 101 * 103
    assert_eq!(&p.known()[..before.len()], &before[..]);
    assert_eq!(before, vec![2, 3, 5, 7, 11]);
}

#[test]
fn square_roots_are_rounded_up() {
    let roots: Vec<u64> = [0u64, 1, 2, 3, 4, 5, 9, 10, 99, 100, 101].iter().map(|n| sqrt_sup(*n)).collect();
    assert_eq!(roots, vec![0, 1, 2, 2, 2, 3, 3, 4, 10, 10, 11]);
    assert_eq!(sqrt_sup(u64::MAX), 4294967296);
    assert_eq!(sqrt_sup(4294967295 * 4294967295), 4294967295);
    assert_eq!(sqrt_sup(9007199254740994), 94906266);
}

fn ask(method: &str, number: Number) -> Result<Request, String> {
    Ok(Request { method: method.to_string(), number })
}

#[test]
fn requests_are_answered() {
    let mut p = Primes::default();
    assert_eq!(process_request(ask("isPrime", Number::Signed(7)), &mut p), Ok(true));
    assert_eq!(process_request(ask("isPrime", Number::Signed(8)), &mut p), Ok(false));
    assert_eq!(process_request(ask("isPrime", Number::Signed(1)), &mut p), Ok(false));
    assert_eq!(process_request(ask("isPrime", Number::Signed(-7)), &mut p), Ok(false));
    assert_eq!(process_request(ask("isPrime", Number::Signed(0)), &mut p), Ok(false));
    assert_eq!(process_request(ask("isPrime", Number::Other), &mut p), Ok(false));
    assert_eq!(process_request(ask("isPrime", Number::Unsigned(7)), &mut p), Ok(true));
    assert_eq!(process_request(ask("isPrime", Number::Unsigned(1)), &mut p), Ok(false));
    assert_eq!(process_request(ask("isPrime", Number::Unsigned(u64::MAX)), &mut p), Ok(false));
}

#[test]
fn malformed_requests_are_refused() {
    let mut p = Primes::default();
    assert_eq!(
        process_request(Err("EOF while parsing".to_string()), &mut p),
        Err("Unable to deserialize request: EOF while parsing".to_string())
    );
    assert_eq!(
        process_request(ask("is\"Prime", Number::Signed(7)), &mut p),
        Err("Unrecognized method: \"is\\\"Prime\"".to_string())
    );
}

#[test]
fn responses_are_lines() {
    assert_eq!(response(&Ok(true)), "{\"method\":\"isPrime\",\"prime\":true}\n");
    assert_eq!(response(&Ok(false)), "{\"method\":\"isPrime\",\"prime\":false}\n");
    assert_eq!(
        response(&Err("no \"x\"".to_string())),
        "{\"method\":\"isPrime\",\"error\":\"no \\\"x\\\"\"}\n"
    );
}

#[test]
fn prime_connections_end_after_a_malformed_request() {
    let mut p = Primes::default();
    let a = handle(Input::Line(Some(ask("isPrime", Number::Signed(13)))), &mut p);
    assert_eq!(a.write, Some("{\"method\":\"isPrime\",\"prime\":true}\n".to_string()));
    assert!(!a.done);
    let a = handle(Input::Line(Some(Err("what".to_string()))), &mut p);
    assert_eq!(
        a.write,
        Some("{\"method\":\"isPrime\",\"error\":\"Unable to deserialize request: what\"}\n".to_string())
    );
    assert!(a.done);
    let a = handle(Input::Line(None), &mut p);
    assert!(a.write.is_none() && a.done);
    let a = handle(Input::Unread, &mut p);
    assert!(a.write.is_none() && a.done);
}
