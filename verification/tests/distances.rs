use maroontre::metrics::{had4, sad, sad_u8, satd};

#[test]
fn sad_matches_manual() {
    let s: Vec<u16> = vec![10, 20, 30, 40];
    let p: Vec<i32> = vec![12, 17, 30, 44];
    // |10-12|+|20-17|+|30-30|+|40-44| = 2+3+0+4 = 9
    assert_eq!(sad(&s, 2, &p, 2, 2, 2), 9);
}

#[test]
fn satd_zero_on_equal() {
    let s: Vec<u16> = (0..16).collect();
    let p: Vec<i32> = (0..16).collect();
    assert_eq!(satd(&s, 4, &p, 4, 4, 4), 0);
}

#[test]
fn satd_dc_only() {
    // A constant difference has no AC coefficient, so the sum is the DC one.
    let s = vec![100u16; 16];
    let p = vec![95i32; 16];
    assert_eq!(satd(&s, 4, &p, 4, 4, 4), 5 * 16);
}

#[test]
fn satd_ge_sad_scaled() {
    let s: Vec<u16> = vec![3, 9, 1, 7, 2, 8, 4, 6, 5, 0, 3, 9, 1, 2, 3, 4];
    let p = vec![0i32; 16];
    assert!(satd(&s, 4, &p, 4, 4, 4) > 0);
    assert_eq!(
        sad(&s, 4, &p, 4, 4, 4),
        3 + 9 + 1 + 7 + 2 + 8 + 4 + 6 + 5 + 3 + 9 + 1 + 2 + 3 + 4
    );
}

#[test]
fn hadamard_of_four() {
    assert_eq!(had4(1, 0, 0, 0), [1, 1, 1, 1]);
    let mut sums = had4(1, 2, 3, 4).to_vec();
    sums.sort();
    assert_eq!(sums, vec![-4, -2, 0, 10]);
}

#[test]
fn strides_may_differ() {
    let s: Vec<u16> = vec![1, 2, 99, 3, 4];
    let p: Vec<i32> = vec![0, 0, 1, 1];
    assert_eq!(sad(&s, 3, &p, 2, 2, 2), 1 + 2 + 2 + 3);
    assert_eq!(sad(&s, 3, &p, 2, 0, 0), 0);
}

#[test]
fn bytes_have_a_sum_of_their_own() {
    assert_eq!(sad_u8(&[0, 255, 7], &[255, 0, 7]), 510);
    assert_eq!(sad_u8(&[], &[]), 0);
}
