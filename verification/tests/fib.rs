use segtrs::FibonacciIterator;

#[test]
fn fibonacci_first_terms() {
    let expected_terms: Vec<u64> = vec![0, 1, 1, 2, 3, 5, 8, 13, 21];
    let mut it = FibonacciIterator::new();
    let mut produced_terms: Vec<u64> = Vec::new();
    for _ in 0..expected_terms.len() {
        produced_terms.push(it.next().unwrap());
    }
    assert_eq!(expected_terms, produced_terms);
}

#[test]
fn fibonacci_stops_on_overflow() {
    let mut it = FibonacciIterator::new();
    let mut last = 0u64;
    let mut count = 0usize;
    while let Some(term) = it.next() {
        last = term;
        count += 1;
        assert!(count < 1000, "the sequence must leave 64 bits eventually");
    }
    // Counting the leading 0, 94 terms fit in 64 bits.
    assert_eq!(94, count);
    assert_eq!(12200160415121876738, last);
    // Once exhausted, the generator stays exhausted.
    assert_eq!(None, it.next());
    assert_eq!(None, it.next());
}
