//! Mid and side brought back to left and right.

use opus_pure::silk::decode_indices::silk_stereo_ms_to_lr;

#[test]
fn ms_to_lr_matches_libopus() {
    let mut pred_prev = [500i32, -300];
    let mut s_mid = [10i16, -20];
    let mut s_side = [5i16, -8];
    let fl = 160usize;
    let fs = 16;
    let mut x1 = [0i16; 164];
    let mut x2 = [0i16; 164];
    for i in 0..fl {
        x1[i + 2] = (37 * (i as i32 + 1) % 1000 - 400) as i16;
        x2[i + 2] = ((i as i32 * 13) % 500 - 250) as i16;
    }
    let pred = [1200i32, -700];
    silk_stereo_ms_to_lr(
        &mut pred_prev,
        &mut s_mid,
        &mut s_side,
        &mut x1,
        &mut x2,
        &pred,
        fs,
        fl,
    );
    let idx = [0usize, 1, 2, 127, 128, 129, 158, 159];
    let l: Vec<i16> = idx.iter().map(|&i| x1[i + 1]).collect();
    let r: Vec<i16> = idx.iter().map(|&i| x2[i + 1]).collect();
    assert_eq!(l, vec![-33, -616, -571, 204, 258, 310, 264, 316]);
    assert_eq!(r, vec![-7, -110, -81, 394, 414, 436, 628, 650]);
    assert_eq!(s_mid, [483, 520]);
    assert_eq!(s_side, [-196, -183]);
}
