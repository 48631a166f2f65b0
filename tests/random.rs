use java_utils::{Random, RandomError};

const RANDOMS: [i32; 64] = [
    2992, 3717, 3763, 3320, 3762, 892, 2783, 1165, 321, 2041, 101, 3492, 2864, 3273, 3297, 1097,
    619, 2353, 3787, 1722, 3128, 2937, 13, 2184, 3016, 1476, 3916, 1858, 3373, 529, 772, 2640,
    1335, 1681, 3078, 774, 1148, 1847, 942, 2404, 3308, 3015, 3109, 1705, 3200, 1909, 3658, 1571,
    2146, 3201, 210, 3536, 1420, 508, 1966, 2000, 3713, 742, 2336, 2204, 2284, 3441, 2341, 4063,
];
const RANDOMS2: [i32; 64] = [
    1130, 3485, 662, 3602, 558, 2973, 2899, 3534, 3023, 2378, 1110, 1529, 3209, 1193, 3207, 610,
    3376, 2053, 1746, 3646, 4088, 2404, 138, 712, 2448, 1359, 1469, 744, 3838, 1962, 282, 3748,
    3875, 3080, 2638, 311, 2934, 1084, 2032, 413, 0, 3776, 3639, 2840, 1359, 1152, 763, 2894,
    1316, 3727, 800, 2731, 2211, 2522, 400, 1092, 3237, 2462, 34, 871, 3906, 3476, 802, 2946,
];

#[test]
fn random_ints_with_seed_4() {
    let mut r = Random::new(4);
    for (i, java_r) in RANDOMS.iter().enumerate() {
        let k = r.next_int(4096).unwrap();
        println!("{}", k);
        assert_eq!(k as i32, *java_r, "{}th iteration", i);
    }
}

#[test]
fn random_ints_with_seed_4_non_power_of_two() {
    let mut r = Random::new(4);
    for (i, java_r) in RANDOMS2.iter().enumerate() {
        let k = r.next_int(4097).unwrap();
        println!("{}", k);
        assert_eq!(k as i32, *java_r, "{}th iteration", i);
    }
}

#[test]
fn next_returns_top_bits_of_state() {
    let mut r = Random::new(4);
    assert_eq!(r.next(31), 1_568_971_862);
    let mut r = Random::new(4);
    assert_eq!(r.next(32), 3_137_943_724);
}

#[test]
fn zero_bound_is_refused() {
    let mut r = Random::new(4);
    assert_eq!(r.next_int(0), Err(RandomError::NonPositiveBound));
    // The refused call leaves the state as it was.
    assert_eq!(r.next_int(4096), Ok(2992));
}

#[test]
fn bound_two_to_the_31_takes_one_draw() {
    let mut r = Random::new(4);
    assert_eq!(r.next_int(0x8000_0000), Ok(1_568_971_862));
    assert_eq!(r.next_int(4096), Ok(3717));
}

#[test]
fn bound_beyond_signed_range_is_refused() {
    let mut r = Random::new(4);
    assert_eq!(r.next_int(0x8000_0001), Err(RandomError::NonPositiveBound));
    assert_eq!(r.next_int(u32::MAX), Err(RandomError::NonPositiveBound));
    assert_eq!(r.next_int(0x7FFF_FFFF).is_ok(), true);
}

#[test]
fn same_seed_reproduces_sequence() {
    let mut a = Random::new(12_345);
    let mut b = Random::new(12_345);
    let bounds = [7u32, 1024, 1, 100_000, 3, 0x7FFF_FFFF];
    for bound in bounds.iter() {
        assert_eq!(a.next_int(*bound), b.next_int(*bound));
    }
}

#[test]
fn consecutive_draws_differ() {
    let mut r = Random::new(4);
    let first = r.next_int(4096).unwrap();
    let second = r.next_int(4096).unwrap();
    assert_ne!(first, second);
}

#[test]
fn bound_one_always_gives_zero() {
    let mut r = Random::new(99);
    for _ in 0..10 {
        assert_eq!(r.next_int(1), Ok(0));
    }
}
