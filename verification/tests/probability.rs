use divans::probability::mul_blend;
use divans::probability::simple_rand;
use divans::probability::to_blend;
use divans::probability::to_blend_lut;
use divans::probability::BlendCDF16;
use divans::probability::FrequentistCDF16;
use divans::probability::Prob;
use divans::probability::CDF16;
use divans::probability::CDF2;
use divans::probability::RAND_MAX;

fn float_array<C: CDF16>(c: &C) -> [f32; 16] {
    let mut ret = [0.0f32; 16];
    for i in 0..16 {
        ret[i] = (c.cdf(i as u8) as f32) / (c.max() as f32);
    }
    ret
}

fn test_random_helper(mut rand_table: [u32; 16], num_trials: usize, desired_outcome: [u32; 16]) {
    let mut sum: u32 = 0;
    for i in 0..16 {
        rand_table[i] += sum;
        sum = rand_table[i];
    }
    assert_eq!(sum, RAND_MAX + 1);
    let mut prob_state = BlendCDF16::default();
    let mut seed = 1u64;
    for _ in 0..num_trials {
        let rand_num = simple_rand(&mut seed);
        for j in 0..16 {
            if rand_num < rand_table[j] {
                prob_state.blend(j as u8);
                assert!(prob_state.valid());
                break;
            }
            assert!(j != 15);
        }
    }
    let cdf_fp = float_array(&prob_state);
    for i in 0..16 {
        let expected = (desired_outcome[i] as f32) / (desired_outcome[15] as f32);
        let delta = (expected - cdf_fp[i]).abs() / expected;
        assert!(delta < 0.001f32);
    }
}

fn test_random_cdf<C: CDF16>(
    mut prob_state: C,
    mut rand_table: [u32; 16],
    num_trials: usize,
    desired_outcome: [u32; 16],
) {
    let mut sum: u32 = 0;
    for i in 0..16 {
        rand_table[i] += sum;
        sum = rand_table[i];
    }
    assert_eq!(sum, RAND_MAX + 1);
    let mut seed = 1u64;
    for _ in 0..num_trials {
        let rand_num = simple_rand(&mut seed);
        for j in 0..16 {
            if rand_num < rand_table[j] {
                prob_state.blend(j as u8);
                assert!(prob_state.valid());
                break;
            }
            assert!(j != 15);
        }
    }
    let cdf_fp = float_array(&prob_state);
    for i in 0..16 {
        let expected = (desired_outcome[i] as f32) / (desired_outcome[15] as f32);
        let delta = (expected - cdf_fp[i]).abs() / expected;
        assert!(delta < 0.001f32);
    }
}

#[test]
fn test_blend_lut() {
    for i in 0..16 {
        let a = to_blend(i as u8);
        let b = to_blend_lut(i as u8);
        for j in 0..16 {
            assert_eq!(a[j], b[j]);
        }
    }
}

#[test]
fn test_stationary_probability() {
    let rm = RAND_MAX as u32;
    test_random_helper(
        [0, 0, rm / 16, 0, rm / 32, rm / 32, 0, 0, rm / 8, 0, 0, 0, rm / 5 + 1, rm / 5 + 1, rm / 5 + 1, 3 * rm / 20 + 3],
        1000000,
        [1, 2, 1605, 1606, 2728, 3967, 3968, 3969, 7880, 7881, 7882, 7883, 14150, 20830, 27071, 32768],
    );
}

#[test]
fn test_stationary_probability_blend_cdf() {
    let rm = RAND_MAX as u32;
    test_random_cdf(
        BlendCDF16::default(),
        [0, 0, rm / 16, 0, rm / 32, rm / 32, 0, 0, rm / 8, 0, 0, 0, rm / 5 + 1, rm / 5 + 1, rm / 5 + 1, 3 * rm / 20 + 3],
        1000000,
        [1, 2, 1605, 1606, 2728, 3967, 3968, 3969, 7880, 7881, 7882, 7883, 14150, 20830, 27071, 32768],
    );
}

#[test]
fn test_stationary_probability_frequentist_cdf() {
    let rm = RAND_MAX as u32;
    test_random_cdf(
        FrequentistCDF16::default(),
        [0, 0, rm / 16, 0, rm / 32, rm / 32, 0, 0, rm / 8, 0, 0, 0, rm / 5 + 1, rm / 5 + 1, rm / 5 + 1, 3 * rm / 20 + 3],
        1000000,
        [1, 2, 1175, 1176, 1739, 2296, 2297, 2298, 4592, 4593, 4594, 4595, 8302, 11997, 15658, 18416],
    );
}

#[test]
fn to_blend_raises_from_symbol_on() {
    let t = to_blend(5);
    assert_eq!(t[4], 5);
    assert_eq!(t[5], 6 + 32752);
    assert_eq!(t[14], 15 + 32752);
    assert_eq!(t[15], -32768);
    let beyond = to_blend(200);
    assert_eq!(beyond[15], 16);
    let first = to_blend_lut(0);
    assert_eq!(first[0], 32753);
}

#[test]
fn mul_blend_of_uniform() {
    let base = BlendCDF16::default().cdf;
    let r = mul_blend(base, 0, 128, 0);
    let expected: [Prob; 16] = [
        2167, 4207, 6247, 8287, 10327, 12367, 14407, 16447, 18487, 20527, 22567, 24607, 26647, 28687, 30727, -32768,
    ];
    assert_eq!(r, expected);
    let r5 = mul_blend(base, 5, 128, 0);
    assert_eq!(r5[0], 2040);
    assert_eq!(r5[4], 10200);
    assert_eq!(r5[5], 12367);
}

#[test]
fn mul_blend_rounds_down() {
    let base: [Prob; 16] = [-100; 16];
    let r = mul_blend(base, 15, 0, -1);
    assert_eq!(r[0], -101);
    let r0 = mul_blend(base, 15, 0, 0);
    assert_eq!(r0[3], -100);
    assert_eq!(r0[15], -32768);
}

#[test]
fn blend_cdf16_default_and_queries() {
    let c = BlendCDF16::default();
    assert_eq!(c.cdf[0], 2048);
    assert_eq!(c.cdf[14], 30720);
    assert_eq!(c.cdf[15], -32768);
    assert!(c.valid());
    assert_eq!(c.max(), 32767);
    assert_eq!(c.log_max(), None);
    assert_eq!(c.cdf(15), 32767);
    assert_eq!(c.cdf(3), 8192);
    assert_eq!(c.pdf(0), 2048);
    assert_eq!(c.pdf(3), 2048);
    assert_eq!(c.pdf(15), 32767 - 30720);
}

#[test]
fn blend_cdf16_validity() {
    let mut c = BlendCDF16::default();
    c.cdf[3] = 0;
    assert!(!c.valid());
    c.cdf[3] = -5;
    c.cdf[15] = 7;
    assert!(!c.valid());
    let mut d = BlendCDF16::default();
    d.blend(7);
    assert!(d.valid());
    assert_eq!(d.cdf[15], -32768);
}

#[test]
fn frequentist_blend_counts() {
    let mut c = FrequentistCDF16::default();
    c.blend(3);
    let expected: [Prob; 16] = [1, 2, 3, 5, 6, 7, 8, 9, 10, 11, 12, 13, 14, 15, 16, 17];
    assert_eq!(c.cdf, expected);
    assert_eq!(c.max(), 17);
    assert_eq!(c.log_max(), None);
    assert_eq!(c.pdf(3), 2);
    assert_eq!(c.pdf(0), 1);
    assert!(c.valid());
}

#[test]
fn frequentist_blend_halves_at_limit() {
    let mut c = FrequentistCDF16::default();
    for i in 0..16 {
        c.cdf[i] = 32720 + i as Prob;
    }
    c.blend(15);
    assert_eq!(c.cdf[15], (32736 + 16) / 2);
    assert_eq!(c.cdf[0], (32720 + 1) / 2);
    assert_eq!(c.cdf[14], (32734 + 15) / 2);
    assert!(c.valid());
}

#[test]
fn frequentist_blend_of_symbol_beyond_alphabet_raises_nothing() {
    let mut c = FrequentistCDF16::default();
    c.blend(16);
    assert_eq!(c.cdf, FrequentistCDF16::default().cdf);
    c.blend(255);
    assert_eq!(c.cdf, FrequentistCDF16::default().cdf);
}

#[test]
fn blend_cdf16_blends_any_table() {
    let mut c = BlendCDF16 { cdf: [0; 16] };
    c.blend(2);
    assert_eq!(c.cdf[0], (128 * 1) >> 15);
    assert_eq!(c.cdf[2], ((128 * (3 + 32752)) >> 15) as Prob);
    assert_eq!(c.cdf[15], -32768);
}

#[test]
fn cdf2_log_max_matches_max() {
    let c = CDF2::default();
    assert_eq!(1i64 << c.log_max().unwrap(), c.max());
}

#[test]
fn frequentist_validity() {
    let mut c = FrequentistCDF16::default();
    c.cdf[5] = c.cdf[4];
    assert!(!c.valid());
    let mut z = FrequentistCDF16::default();
    z.cdf[0] = 0;
    assert!(!z.valid());
    let mut last = FrequentistCDF16::default();
    last.cdf[15] = -3;
    assert!(last.valid());
}

#[test]
fn cdf2_blend_probabilities() {
    let mut c = CDF2::default();
    assert_eq!(c.prob, 128);
    assert_eq!(c.max(), 256);
    assert_eq!(c.log_max(), Some(8));
    c.blend(true);
    assert_eq!(c.prob, 85);
    assert_eq!(c.prob(), 85);
    c.blend(false);
    assert_eq!(c.prob, 128);
    c.blend(false);
    assert_eq!(c.prob as u32, 256 * 3 / 5);
}

#[test]
fn cdf2_saturates_when_other_never_seen() {
    let mut c = CDF2::default();
    for _ in 0..254 {
        c.blend(true);
    }
    assert_eq!(c.prob as u32, 256 * 1 / 256);
    c.blend(true);
    assert_eq!(c.prob, 0);
    let mut f = CDF2::default();
    for _ in 0..255 {
        f.blend(false);
    }
    assert_eq!(f.prob, 255);
}

#[test]
fn cdf2_halves_on_overflow() {
    let mut c = CDF2::default();
    c.blend(false);
    for _ in 0..254 {
        c.blend(true);
    }
    c.blend(true);
    assert_eq!(c.prob as u32, 256 * 1 / 130);
}

#[test]
fn simple_rand_sequence() {
    let mut seed = 1u64;
    assert_eq!(simple_rand(&mut seed), 16838);
    assert_eq!(simple_rand(&mut seed), 5758);
    assert_eq!(simple_rand(&mut seed), 10113);
}
