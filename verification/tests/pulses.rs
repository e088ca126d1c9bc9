//! Numbering pulse vectors, and plans of the transform.

use opus_pure::celt::kiss_fft::{kf_factor, FftPlan};
use opus_pure::celt::pvq::{
    celt_pvq_u_lookup, celt_pvq_v, cwrsi, extract_collapse_mask, icwrs, rotation_stride,
};

#[test]
fn counts_have_their_known_values() {
    assert_eq!(celt_pvq_v(2, 1), 4);
    assert_eq!(celt_pvq_v(3, 2), 18);
    assert_eq!(celt_pvq_v(4, 3), 88);
    assert_eq!(celt_pvq_v(8, 5), 9424);
    assert_eq!(
        celt_pvq_u_lookup(8, 5) + celt_pvq_u_lookup(8, 6),
        celt_pvq_v(8, 5)
    );
}

#[test]
fn every_number_names_one_vector() {
    for i in 0..celt_pvq_v(4, 3) {
        let mut y = [0i32; 4];
        cwrsi(4, 3, i, &mut y);
        assert_eq!(y.iter().map(|v| v.abs()).sum::<i32>(), 3);
        assert_eq!(icwrs(4, 3, &y), i);
    }
}

#[test]
fn a_mask_has_a_bit_for_each_live_block() {
    assert_eq!(extract_collapse_mask(&[0, 0, 1, 0, 0, 0, 0, -1], 8, 4), 0b1010);
    assert_eq!(extract_collapse_mask(&[0; 8], 8, 4), 0);
    assert_eq!(extract_collapse_mask(&[0; 8], 8, 1), 1);
}

#[test]
fn the_second_stride_is_near_the_square_root() {
    assert_eq!(rotation_stride(7, 1), 0);
    assert_eq!(rotation_stride(8, 1), 3);
    assert_eq!(rotation_stride(96, 1), 10);
    assert_eq!(rotation_stride(96, 8), 3);
}

#[test]
fn radices_multiply_to_the_length() {
    for n in [60usize, 120, 240, 480, 16, 25] {
        let factors = kf_factor(n).unwrap();
        let product: usize = factors.iter().map(|&(p, _)| p as usize).product();
        assert_eq!(product, n);
        assert_eq!(factors.last().unwrap().1, 1);
    }
    assert!(kf_factor(14).is_none());
}

#[test]
fn a_plan_needs_a_smooth_length_and_a_fitting_base() {
    assert!(FftPlan::new(77).is_none());
    let base = FftPlan::new(480).unwrap();
    assert_eq!(base.shift(), -1);
    assert!(FftPlan::new_sub(&base, 100).is_none());
    assert_eq!(FftPlan::new_sub(&base, 60).unwrap().shift(), 3);
}

#[test]
fn counts_are_of_vectors() {
    for k in 1..5i32 {
        let mut n = 0;
        for a in -k..=k {
            for b in -k..=k {
                for c in -k..=k {
                    if a.abs() + b.abs() + c.abs() == k {
                        n += 1;
                    }
                }
            }
        }
        assert_eq!(celt_pvq_v(3, k as u32), n);
    }
    assert_eq!(celt_pvq_v(13, 13), 830_764_794);
}
