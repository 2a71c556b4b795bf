use density_matrix::binary::{bitwise_bin_vec_to_int, bitwise_int_to_bin_vec, count_ones};
use density_matrix::bits::{bit_at, exponent_of, power_of_two};
use density_matrix::field9::F9;
use density_matrix::positions::{clear_bits, gather_bits, raise_bits};
use density_matrix::tensor::product_of;
use density_matrix::text::decimal_text;
use density_matrix::{Scalar, Tensor};

#[test]
fn binary_digits_and_back() {
    assert_eq!(bitwise_int_to_bin_vec(6, 4), vec![0, 1, 1, 0]);
    assert_eq!(bitwise_int_to_bin_vec(0, 0), Vec::<u8>::new());
    assert_eq!(bitwise_bin_vec_to_int(&vec![0, 1, 1, 0]), 6);
    for x in 0..32 {
        assert_eq!(bitwise_bin_vec_to_int(&bitwise_int_to_bin_vec(x, 5)), x);
    }
}

#[test]
fn ones_are_counted() {
    for x in [0usize, 1, 7, 255, 1 << 40, usize::MAX] {
        assert_eq!(count_ones(x), x.count_ones() as usize);
    }
}

#[test]
fn exponents_of_powers_of_two() {
    assert_eq!(exponent_of(0), None);
    assert_eq!(exponent_of(1), Some(0));
    assert_eq!(exponent_of(12), None);
    assert_eq!(exponent_of(1 << 63), Some(63));
    assert_eq!(power_of_two(10), 1024);
    assert_eq!(bit_at(5, 2), 1);
    assert_eq!(bit_at(5, 1), 0);
}

#[test]
fn digits_at_positions() {
    let pos = vec![3, 0];
    assert_eq!(gather_bits(0b1000, &pos), 0b01);
    assert_eq!(gather_bits(0b0001, &pos), 0b10);
    assert_eq!(clear_bits(0b1111, &pos), 0b0110);
    assert_eq!(raise_bits(0b0110, &pos, 0b01, 4), 0b1110);
    assert_eq!(raise_bits(0b0110, &pos, 0b10, 4), 0b0111);
}

#[test]
fn decimal_numbers() {
    for n in [0usize, 9, 10, 205, 1_000_000, usize::MAX] {
        assert_eq!(decimal_text(n), n.to_string());
    }
}

#[test]
fn tensor_entries_in_row_major_order() {
    let mut t: Tensor<F9> = Tensor::new(&vec![2, 3]);
    assert_eq!(t.data, vec![F9::zero(); 6]);
    t.set(&[1, 2], F9::one());
    assert_eq!(t.data[5], F9::one());
    assert_eq!(*t.get(&[1, 2]), F9::one());
    t.set(&[1, 0], F9::one());
    assert_eq!(t.data[3], F9::one());
    let u = Tensor::from_vec(&t.data, vec![6]);
    assert_eq!(*u.get(&[3]), F9::one());
    assert_eq!(product_of(&vec![2, 3, 4]), 24);
    assert_eq!(product_of(&vec![]), 1);
}
