use ramu_rs::utils::{clear_lower_bits, set_up_addr, setup_addr_vec, slicing_lower_bits};

#[test]
fn test_addr() {
    let mut addr = 114514;
    let mut addr_vec = vec![0, 0, 0, 0, 0];
    let addr_bits = [2, 3, 4, 5, 6];
    let sequence = [0, 1, 2, 3, 4];
    clear_lower_bits(&mut addr, 6);
    println!("addr: {}", addr);
    setup_addr_vec(addr, &addr_bits, &mut addr_vec, &sequence);
    println!("{:?}", addr_vec);
    let ret_addr = set_up_addr(&addr_vec, &addr_bits, &sequence);
    println!("{:?}", ret_addr);
    assert_eq!(addr, 1789);
    assert_eq!(addr_vec, vec![1, 7, 7, 3, 0]);
    assert_eq!(ret_addr, 1789);
}

#[test]
fn slicing_cuts_off_the_low_bits() {
    let mut addr: u64 = 0b1011_0110;
    let low = slicing_lower_bits(&mut addr, 3);
    assert_eq!(low, 0b110);
    assert_eq!(addr, 0b1_0110);
    let none = slicing_lower_bits(&mut addr, 0);
    assert_eq!(none, 0);
    assert_eq!(addr, 0b1_0110);
    let mut all_ones = u64::MAX;
    let low = slicing_lower_bits(&mut all_ones, 63);
    assert_eq!(low, u64::MAX >> 1);
    assert_eq!(all_ones, 1);
}

#[test]
fn clearing_drops_the_low_bits() {
    let mut addr: u64 = 0xabcd;
    clear_lower_bits(&mut addr, 8);
    assert_eq!(addr, 0xab);
    clear_lower_bits(&mut addr, 0);
    assert_eq!(addr, 0xab);
}

#[test]
fn slices_follow_the_order() {
    // the last level takes the least significant slice
    let addr_bits = [1, 2, 3];
    let sequence = [2, 1, 0];
    let mut addr_vec = vec![9, 9, 9];
    setup_addr_vec(0b1_10_101, &addr_bits, &mut addr_vec, &sequence);
    assert_eq!(addr_vec, vec![1, 0b10, 0b101]);
    assert_eq!(set_up_addr(&addr_vec, &addr_bits, &sequence), 0b1_10_101);
    // the first level takes the least significant slice
    let sequence = [0, 1, 2];
    let mut addr_vec = vec![0, 0, 0];
    setup_addr_vec(0b101_10_1, &addr_bits, &mut addr_vec, &sequence);
    assert_eq!(addr_vec, vec![1, 0b10, 0b101]);
    assert_eq!(set_up_addr(&addr_vec, &addr_bits, &sequence), 0b101_10_1);
}

#[test]
fn slicing_loses_what_the_slices_do_not_cover() {
    let addr_bits = [1, 2, 3];
    let sequence = [2, 1, 0];
    let mut addr_vec = vec![0, 0, 0];
    // bit 6 lies above the six bits that the slices cover
    setup_addr_vec(0b1_0_00_001, &addr_bits, &mut addr_vec, &sequence);
    assert_eq!(addr_vec, vec![0, 0, 1]);
    assert_eq!(set_up_addr(&addr_vec, &addr_bits, &sequence), 1);
}

#[test]
fn round_trip_over_all_covered_addresses() {
    let addr_bits = [2, 1, 3, 2];
    let orders: [[usize; 4]; 3] = [[0, 1, 2, 3], [3, 2, 1, 0], [2, 0, 3, 1]];
    for order in orders.iter() {
        for addr in 0..256u64 {
            let mut addr_vec = vec![0; 4];
            setup_addr_vec(addr, &addr_bits, &mut addr_vec, order);
            for level in 0..4 {
                assert!(addr_vec[level] < (1 << addr_bits[level]));
            }
            assert_eq!(set_up_addr(&addr_vec, &addr_bits, order), addr);
        }
    }
}
