//! Which blocks of a band collapsed.

use opus_pure::celt::pvq::extract_collapse_mask;

#[test]
fn simd_extract_collapse_mask_matches_the_scalar_definition() {
    for &b in &[1usize, 2, 4, 8] {
        for &n0 in &[1usize, 2, 3, 5, 8, 16] {
            let n = n0 * b;
            for seed in 0..6u32 {
                let mut iy = vec![0i32; n];
                let mut st = (seed | 1).wrapping_mul(2_654_435_761);
                for v in iy.iter_mut() {
                    st = st.wrapping_mul(1_664_525).wrapping_add(1_013_904_223);
                    *v = if st >> 29 == 0 {
                        (st as i32 % 7) - 3
                    } else {
                        0
                    };
                }
                let got = extract_collapse_mask(&iy, n, b);

                let want = if b <= 1 {
                    1
                } else {
                    let mut mask = 0u32;
                    for i in 0..b {
                        let mut tmp = 0i32;
                        for j in 0..n0 {
                            tmp |= iy[i * n0 + j];
                        }
                        if tmp != 0 {
                            mask |= 1 << i;
                        }
                    }
                    mask
                };
                assert_eq!(got, want, "extract_collapse_mask n={n} b={b} seed={seed}");
            }
        }
    }
}
