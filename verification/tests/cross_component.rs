use maroontre::mhccp::{
    ceil_log2, clip_pixel_highbd, convolve, derive_params, division_scale_shift, gauss_elimination,
    mul_fixed32_adapt, non_linear, predict_block, MhccpRefBuf, MHCCP_DECIM_BITS,
};

struct Rng(u32);

impl Rng {
    fn next10(&mut self) -> i32 {
        self.0 = self.0.wrapping_mul(1103515245).wrapping_add(12345);
        ((self.0 >> 16) & 0x3ff) as i32
    }
}

fn solve_config(dir: u8, count: usize, rng: &mut Rng, bd: i32) -> [i32; 3] {
    let mid = 1 << (bd - 1);
    let mut a = vec![[0i16; 3]; count];
    let mut y = vec![0i32; count];
    for r in 0..count {
        let lc = rng.next10();
        let lt = rng.next10();
        let ll = rng.next10();
        let chroma = rng.next10();
        let h_tap = match dir {
            1 => lt,
            2 => ll,
            _ => lc,
        };
        a[r] = [h_tap as i16, non_linear(lc, mid, bd) as i16, mid as i16];
        y[r] = chroma;
    }
    fit(&a, &y, bd)
}

fn fit(a: &[[i16; 3]], y: &[i32], bd: i32) -> [i32; 3] {
    let count = a.len();
    let mut ata = [[0i32; 3]; 3];
    let mut ty = [0i32; 3];
    for c0 in 0..3 {
        for c1 in c0..3 {
            let mut acc = 0i32;
            for r in 0..count {
                acc += a[r][c0] as i32 * a[r][c1] as i32;
            }
            ata[c0][c1] = acc;
        }
    }
    for c in 0..3 {
        let mut acc = 0i32;
        for r in 0..count {
            acc += a[r][c] as i32 * y[r];
        }
        ty[c] = acc;
    }
    let ms = (MHCCP_DECIM_BITS + 6) - 2 * bd - ceil_log2(count as i32);
    if ms > 0 {
        for c0 in 0..3 {
            for c1 in c0..3 {
                ata[c0][c1] <<= ms;
            }
        }
        for t in ty.iter_mut() {
            *t <<= ms;
        }
    } else if ms < 0 {
        let m = -ms;
        for c0 in 0..3 {
            for c1 in c0..3 {
                ata[c0][c1] >>= m;
            }
        }
        for t in ty.iter_mut() {
            *t >>= m;
        }
    }
    let mut out = [0i32; 3];
    gauss_elimination(&ata, &ty, bd, &mut out);
    out
}

#[test]
fn golden_vectors() {
    let bd = 10;
    let mid = 1 << (bd - 1);
    let mut rng = Rng(0x1234567);
    let expect_params: [[i32; 3]; 4] = [
        [-55821, 57209, 86247],
        [-855, 14286, 67922],
        [4834, -23298, 73277],
        [-49638, 34766, 96399],
    ];
    let expect_pred: [[i32; 6]; 4] = [
        [533, 461, 462, 465, 534, 461],
        [526, 630, 547, 597, 531, 701],
        [463, 503, 371, 573, 584, 464],
        [685, 496, 477, 477, 604, 482],
    ];
    for cfg in 0..4 {
        let dir = (cfg % 3) as u8;
        let count = 20 + cfg * 7;
        let params = solve_config(dir, count, &mut rng, bd);
        assert_eq!(params, expect_params[cfg], "params cfg {cfg}");
        for t in 0..6 {
            let c = rng.next10();
            let a = rng.next10();
            let l = rng.next10();
            let h_tap = match dir {
                1 => a,
                2 => l,
                _ => c,
            };
            let vector = [h_tap, non_linear(c, mid, bd), mid];
            let pred = clip_pixel_highbd(convolve(&params, &vector), bd);
            assert_eq!(pred, expect_pred[cfg][t], "pred cfg {cfg} t {t}");
        }
    }
}

#[test]
fn small_formulas_of_the_filter() {
    assert_eq!(ceil_log2(1), 0);
    assert_eq!(ceil_log2(2), 1);
    assert_eq!(ceil_log2(20), 5);
    assert_eq!(ceil_log2(32), 5);
    // (v * v + mid) >> bd
    assert_eq!(non_linear(512, 512, 10), 256);
    assert_eq!(non_linear(1023, 512, 10), 1022);
    assert_eq!(clip_pixel_highbd(-3, 10), 0);
    assert_eq!(clip_pixel_highbd(1024, 10), 1023);
    assert_eq!(clip_pixel_highbd(77, 10), 77);
    // one in the fixed point of the filter
    assert_eq!(convolve(&[65536, 0, 0], &[123, 4, 5]), 123);
    assert_eq!(mul_fixed32_adapt(1 << 16, 3, 16), 3);
    let (scale, round, shift) = division_scale_shift(1 << 16);
    // close to one: the reciprocal comes from a table of parabolas
    assert_eq!((scale, round, shift), (65524, 1 << 15, 16));
}

fn filled(rng: &mut Rng, shift: u32, boundary: bool) -> MhccpRefBuf {
    let mut buf = MhccpRefBuf::new(8, 8, 2, 2, 4, 4, boundary);
    for y in 0..8 {
        for x in 0..8 {
            buf.set(x, y, rng.next10() << shift);
        }
    }
    buf
}

#[test]
fn taps_are_fitted_on_the_lines_around_the_block() {
    let bd = 10;
    let mut rng = Rng(99);
    for boundary in [false, true] {
        let l = filled(&mut rng, 3, boundary);
        let c = filled(&mut rng, 0, boundary);
        for dir in 0..3u8 {
            let (mut a, mut y) = (Vec::new(), Vec::new());
            for (i, j) in (1..7).map(|i| (i, 1)).chain((2..7).map(|j| (1, j))) {
                let luma = |x: usize, y: usize| l.data[x + 256 * y] / 8;
                let tap = match dir {
                    1 => luma(i, j - 1),
                    2 => luma(i - 1, j),
                    _ => luma(i, j),
                };
                a.push([tap as i16, non_linear(luma(i, j), 512, bd) as i16, 512]);
                y.push(c.data[i + 256 * j]);
            }
            assert_eq!(derive_params(&l, &c, dir, bd), fit(&a, &y, bd), "direction {dir}");
        }
    }
}

#[test]
fn without_lines_the_prediction_is_the_middle() {
    let mut l = MhccpRefBuf::new(4, 4, 0, 0, 4, 4, false);
    l.set(1, 1, 700 << 3);
    let params = derive_params(&l, &l, 0, 10);
    assert_eq!(params, [0, 0, 1 << 16]);
    let mut out = vec![-1; 17];
    predict_block(&l, &params, 0, false, false, 10, &mut out);
    assert_eq!(out[..16], [512; 16]);
    assert_eq!(out[16], -1);
}

#[test]
fn the_direction_selects_the_luma_tap() {
    let l = filled(&mut Rng(7), 3, false);
    let one = [1 << 16, 0, 0];
    let luma = |x: usize, y: usize| l.data[x + 256 * y] / 8;
    let run = |dir: u8, have: bool| {
        let mut out = vec![0; 16];
        predict_block(&l, &one, dir, have, have, 10, &mut out);
        out
    };
    for j in 0..4 {
        for i in 0..4 {
            let p = j * 4 + i;
            let (x, y) = (i + 2, j + 2);
            assert_eq!(run(0, true)[p], luma(x, y));
            assert_eq!(run(1, true)[p], luma(x, y - 1));
            assert_eq!(run(2, true)[p], luma(x - 1, y));
            assert_eq!(run(1, false)[p], luma(x, if j == 0 { y } else { y - 1 }));
            assert_eq!(run(2, false)[p], luma(if i == 0 { x } else { x - 1 }, y));
        }
    }
}
