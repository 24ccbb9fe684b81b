use lean_to::order::stable_order;

#[test]
fn equal_keys_keep_their_order() {
    assert_eq!(stable_order(&[3, 1, 2, 1, 3]), vec![1, 3, 2, 0, 4]);
    assert_eq!(stable_order(&[]), Vec::<usize>::new());
    assert_eq!(stable_order(&[5]), vec![0]);
}

#[test]
fn order_agrees_with_std() {
    let mut x: u64 = 12345;
    for n in [2usize, 3, 10, 257, 2000] {
        let mut keys = Vec::new();
        for _ in 0..n {
            x = x.wrapping_mul(6364136223846793005).wrapping_add(1442695040888963407);
            keys.push(x >> 58);
        }
        let mut expected: Vec<usize> = (0..n).collect();
        expected.sort_by_key(|i| keys[*i]);
        assert_eq!(stable_order(&keys), expected);
    }
}
