use wordle_solver::bit_set::BitSet32;

/// Collects the elements of the set in ascending order.
fn to_vec(s: BitSet32) -> Vec<u8> {
    let mut it = s.iter();
    let mut v = Vec::new();
    while let Some(x) = it.next() {
        v.push(x);
    }
    v
}

#[test]
fn test_bitset32() {
    let mut s = BitSet32::new();
    assert_eq!(s.0, 0b0);
    assert_eq!(to_vec(s), &[]);
    assert!(!s.contains(1) && !s.contains(3) && !s.contains(0) && !s.contains(2) && !s.contains(25));
    assert!(s.is_empty());
    assert_eq!(s.len(), 0);

    s.insert(0);
    assert_eq!(s.0, 0b1);
    assert_eq!(to_vec(s), &[0]);
    assert!(!s.contains(1) && !s.contains(3) && s.contains(0) && !s.contains(2) && !s.contains(25));
    assert!(!s.is_empty());
    assert_eq!(s.len(), 1);

    s.insert(3);
    assert_eq!(s.0, 0b1001);
    assert_eq!(to_vec(s), &[0, 3]);
    assert!(!s.contains(1) && s.contains(3) && s.contains(0) && !s.contains(2) && !s.contains(25));
    assert!(!s.is_empty());
    assert_eq!(s.len(), 2);

    s.insert(3);
    assert_eq!(s.0, 0b1001);
    assert_eq!(to_vec(s), &[0, 3]);
    assert!(!s.is_empty());
    assert_eq!(s.len(), 2);

    s.insert(1);
    assert_eq!(s.0, 0b1011);
    assert_eq!(to_vec(s), &[0, 1, 3]);
    assert!(s.contains(1) && s.contains(3) && s.contains(0) && !s.contains(2) && !s.contains(25));
    assert!(!s.is_empty());
    assert_eq!(s.len(), 3);

    s.remove(0);
    assert_eq!(s.0, 0b1010);
    assert_eq!(to_vec(s), &[1, 3]);
    assert!(s.contains(1) && s.contains(3) && !s.contains(0));
    assert!(!s.is_empty());
    assert_eq!(s.len(), 2);

    s.remove(0);
    assert_eq!(s.0, 0b1010);
    assert_eq!(to_vec(s), &[1, 3]);
    assert!(!s.is_empty());
    assert_eq!(s.len(), 2);

    s.remove(7);
    assert_eq!(s.0, 0b1010);
    assert_eq!(to_vec(s), &[1, 3]);
    assert!(!s.is_empty());
    assert_eq!(s.len(), 2);

    for i in 0..26 {
        s.insert(i);
    }
    assert_eq!(s.0, (1 << 26) - 1);
    assert_eq!(to_vec(s), (0..26).collect::<Vec<_>>());
    assert!(!s.is_empty());
    assert_eq!(s.len(), 26);

    s.clear();
    assert_eq!(s.0, 0);
    assert_eq!(to_vec(s), &[]);
    assert!(s.is_empty());
    assert_eq!(s.len(), 0);

    assert_eq!(
        to_vec(BitSet32(0b10110111001000101101001110110110)),
        &[1, 2, 4, 5, 7, 8, 9, 12, 14, 15, 17, 21, 24, 25, 26, 28, 29, 31]
    );

    let mut p = BitSet32(0b10110111001000101101001110110110);
    let mut q = BitSet32(0b10110011100101010011010101010011);
    q.intersect_with(&p);
    assert_eq!(p.0, 0b10110111001000101101001110110110);
    assert_eq!(q.0, 0b10110011000000000001000100010010);
    p.intersect_with(&q);
    assert_eq!(p.0, 0b10110011000000000001000100010010);
    assert_eq!(q.0, 0b10110011000000000001000100010010);
    assert_eq!(p.0, q.0);
    assert_eq!(to_vec(p), &[1, 4, 8, 12, 24, 25, 28, 29, 31]);
    assert_eq!(to_vec(q), &[1, 4, 8, 12, 24, 25, 28, 29, 31]);
    assert_eq!(p.len(), 9);
    assert_eq!(q.len(), 9);
}
