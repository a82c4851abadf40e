use rusty_rail::consistenthash::{permutations, permute_backend, Backend, ConsistentHash};

fn table_with_three_live() -> ConsistentHash {
    let tgt = 0x01020304u32; // 1.2.3.4
    let mut c = ConsistentHash::new();
    c.backends.push(Backend::new("server-1", tgt));
    c.backends.push(Backend::new("server-2", tgt));
    c.backends.push(Backend::new("server-3", tgt));
    c.backends.push(Backend::new("server-4", tgt));
    c.backends[3].live = false;
    c.populate();
    c
}

#[test]
fn permutations_examples() {
    assert_eq!(permutations(3, 4, 7), vec![3, 0, 4, 1, 5, 2, 6]);
    assert_eq!(permutations(0, 2, 7), vec![0, 2, 4, 6, 1, 3, 5]);
    assert_eq!(permutations(3, 1, 7), vec![3, 4, 5, 6, 0, 1, 2]);
}

#[test]
fn permute_backend_examples() {
    assert_eq!(permute_backend("fred", 7), vec![1, 0, 6, 5, 4, 3, 2]);
    assert_eq!(permute_backend("ralph", 7), vec![3, 2, 1, 0, 6, 5, 4]);
    assert_eq!(permute_backend("larry", 7), vec![4, 0, 3, 6, 2, 5, 1]);
}

#[test]
fn permute_backend_is_pure() {
    let a = permute_backend("fred", 293);
    let b = permute_backend("fred", 293);
    assert_eq!(a, b);
}

#[test]
fn maglev_fill() {
    let c = table_with_three_live();
    let expected: Vec<u32> = vec![
        2, 1, 1, 0, 1, 2, 0, 1, 2, 1, 2, 0, 2, 2, 0, 2, 1, 0, 2, 1, 2, 2,
        0, 2, 0, 0, 1, 0, 1, 2, 0, 1, 0, 0, 2, 0, 2, 2, 1, 2, 1, 0, 2, 1,
        2, 2, 0, 2, 0, 0, 2, 0, 1, 0, 0, 1, 0, 0, 2, 0, 0, 1, 1, 2, 1, 0,
        2, 1, 0, 1, 0, 2, 0, 0, 2, 0, 0, 0, 0, 1, 0, 0, 1, 1, 0, 1, 1, 2,
        1, 0, 1, 1, 0, 1, 0, 2, 0, 0, 1, 0, 0, 2, 0, 0, 0, 1, 1, 1, 2, 1,
        1, 2, 1, 2, 1, 1, 2, 1, 2, 0, 2, 2, 1, 2, 2, 2, 2, 1, 2, 2, 1, 1,
        2, 1, 1, 0, 1, 2, 1, 1, 2, 1, 2, 0, 2, 2, 0, 2, 0, 2, 2, 1, 2, 2,
        0, 2, 1, 2, 1, 0, 1, 2, 0, 1, 0, 1, 2, 0, 1, 2, 0, 2, 0, 2, 2, 1,
        2, 2, 0, 2, 1, 0, 2, 0, 2, 0, 0, 1, 0, 0, 2, 0, 1, 0, 0, 2, 1, 0,
        2, 1, 2, 1, 0, 2, 1, 0, 2, 0, 2, 0, 0, 1, 0, 0, 0, 0, 1, 1, 1, 2,
        1, 0, 1, 1, 0, 1, 0, 2, 1, 0, 1, 0, 0, 0, 0, 2, 0, 0, 0, 0, 1, 1,
        1, 1, 1, 0, 1, 1, 0, 1, 0, 1, 1, 2, 1, 2, 2, 2, 2, 1, 2, 2, 1, 2,
        1, 1, 1, 0, 1, 2, 1, 1, 2, 1, 2, 0, 1, 2, 1, 2, 0, 2, 2, 0, 2, 2,
        2, 2, 1, 2, 2, 0, 1,
    ];
    assert_eq!(c.lookup, expected);
}

#[test]
fn fill_is_balanced_and_live() {
    let c = table_with_three_live();
    assert_eq!(c.lookup.len(), 293);
    let mut counts = [0usize; 4];
    for &slot in c.lookup.iter() {
        let idx = slot as usize;
        assert!(idx < 3, "every slot must hold a live backend index");
        counts[idx] += 1;
    }
    assert_eq!(counts[3], 0);
    let max = *counts[..3].iter().max().unwrap();
    let min = *counts[..3].iter().min().unwrap();
    assert!(max - min <= 1, "shares differ by at most one");
}

#[test]
fn lookup_is_deterministic() {
    let a = table_with_three_live();
    let b = table_with_three_live();
    assert_eq!(a.lookup, b.lookup);
    let h = 0xDEAD_BEEF_1234_5678u64;
    let slot_a = a.route(h);
    let slot_b = b.route(h);
    assert_eq!(slot_a, slot_b);
    assert_eq!(slot_a, a.lookup[(h % 293) as usize] as usize);
}
