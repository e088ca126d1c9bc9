//! Plans of the transform.

use opus_pure::celt::kiss_fft::FftPlan;

#[test]
fn test_kf_factor_60() {
    let st = FftPlan::new(60).unwrap();
    assert!(!st.factors().iter().all(|&f| f == (0, 0)));
    assert_eq!(st.bitrev().len(), 60);
}

#[test]
fn test_kf_factor_240() {
    let st = FftPlan::new(240).unwrap();
    assert!(!st.factors().iter().all(|&f| f == (0, 0)));
    assert_eq!(st.bitrev().len(), 240);
}

#[test]
fn test_bitrev_permutation() {
    for &nfft in &[60, 120, 240, 480] {
        let st = FftPlan::new(nfft).unwrap();
        let mut sorted: Vec<i16> = st.bitrev().clone();
        sorted.sort();
        let expected: Vec<i16> = (0..nfft).map(|x| x as i16).collect();
        assert_eq!(
            sorted,
            expected,
            "bitrev for nfft={} should be a permutation of 0..{}",
            nfft,
            nfft - 1
        );
    }
}

#[test]
fn test_sub_fft() {
    let nfft = 480;
    let base = FftPlan::new(nfft).unwrap();

    for &n in &[60, 120, 240] {
        let sub = FftPlan::new_sub(&base, n).unwrap();
        assert_eq!(sub.nfft(), n);
        assert_eq!(sub.nfft() << sub.shift(), nfft);
    }
}
