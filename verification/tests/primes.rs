use rusty_rail::primes::primes;

#[test]
fn examples() {
    assert_eq!(primes(0), vec![]);
    assert_eq!(primes(1), vec![]);
    assert_eq!(primes(2), vec![2]);
    assert_eq!(primes(3), vec![2, 3]);
    assert_eq!(primes(4), vec![2, 3]);
    assert_eq!(primes(5), vec![2, 3, 5]);
}

#[test]
fn table_sizes() {
    // the sieve results the table sizing leans on
    let p100 = primes(100);
    assert_eq!(*p100.last().unwrap(), 97);
    let p300 = primes(300);
    assert_eq!(*p300.last().unwrap(), 293);
}
