use maroontre::contexts::choose_tx16_type;
use maroontre::plane::put_block;
use maroontre::schedule::{chunk_ranges, wavefront_cells};

/// Run the cells front by front. What a cell sees of the others is the state
/// before its front began.
fn run_fronts<F: FnMut(usize, usize, &Vec<bool>)>(
    rows: usize,
    cols: usize,
    above_right: bool,
    mut cell: F,
) -> Vec<bool> {
    let mut done = vec![false; rows * cols];
    for front in wavefront_cells(rows, cols, above_right) {
        for &(r, c) in &front {
            cell(r, c, &done);
        }
        for &(r, c) in &front {
            done[r * cols + c] = true;
        }
    }
    done
}

#[test]
fn wavefront_respects_top_left_deps() {
    for &(rows, cols) in &[(1usize, 1usize), (1, 8), (8, 1), (5, 7), (16, 12), (3, 20)] {
        let mut ok = true;
        let idx = |r: usize, c: usize| r * cols + c;
        let done = run_fronts(rows, cols, false, |r, c, done| {
            if r > 0 && !done[idx(r - 1, c)] {
                ok = false;
            }
            if c > 0 && !done[idx(r, c - 1)] {
                ok = false;
            }
        });
        assert!(ok, "{rows}x{cols}: cell ran before top/left neighbour");
        assert!(
            done.iter().all(|&b| b),
            "{rows}x{cols}: not every cell was visited"
        );
    }
}

#[test]
fn wpp_wavefront_respects_above_right_dep() {
    for &(rows, cols) in &[
        (1usize, 1usize),
        (1, 8),
        (8, 1),
        (5, 7),
        (16, 12),
        (3, 20),
        (12, 3),
        (2, 2),
    ] {
        let mut ok = true;
        let idx = |r: usize, c: usize| r * cols + c;
        let done = run_fronts(rows, cols, true, |r, c, done| {
            let mut check = |rr: i64, cc: i64| {
                if rr >= 0
                    && cc >= 0
                    && (rr as usize) < rows
                    && (cc as usize) < cols
                    && !done[idx(rr as usize, cc as usize)]
                {
                    ok = false;
                }
            };
            let (ri, ci) = (r as i64, c as i64);
            check(ri - 1, ci - 1);
            check(ri - 1, ci);
            check(ri - 1, ci + 1);
            check(ri, ci - 1);
        });
        assert!(
            ok,
            "{rows}x{cols}: cell ran before a causal (incl. above-right) neighbour"
        );
        assert!(
            done.iter().all(|&b| b),
            "{rows}x{cols}: not every cell was visited exactly once"
        );
    }
}

#[test]
fn wavefront_pool_respects_deps_and_runs_each_cell_once() {
    for &(rows, cols) in &[
        (1usize, 1usize),
        (1, 8),
        (8, 1),
        (5, 7),
        (16, 12),
        (3, 20),
        (12, 3),
        (2, 2),
    ] {
        let mut runs = vec![0usize; rows * cols];
        let mut out: Vec<Option<usize>> = vec![None; rows * cols];
        let mut ok = true;
        let idx = |r: usize, c: usize| r * cols + c;
        run_fronts(rows, cols, true, |r, c, done| {
            let mut check = |rr: i64, cc: i64| {
                if rr >= 0
                    && cc >= 0
                    && (rr as usize) < rows
                    && (cc as usize) < cols
                    && !done[idx(rr as usize, cc as usize)]
                {
                    ok = false;
                }
            };
            let (ri, ci) = (r as i64, c as i64);
            check(ri - 1, ci - 1);
            check(ri - 1, ci);
            check(ri - 1, ci + 1);
            check(ri, ci - 1);
            runs[idx(r, c)] += 1;
            out[idx(r, c)] = Some(r * cols + c);
        });
        assert!(
            ok,
            "{rows}x{cols}: cell ran before a causal (incl. above-right) neighbour"
        );
        for r in 0..rows {
            for c in 0..cols {
                assert_eq!(
                    out[idx(r, c)],
                    Some(r * cols + c),
                    "{rows}x{cols}: cell ({r},{c}) missing or produced wrong value"
                );
                assert_eq!(
                    runs[idx(r, c)],
                    1,
                    "{rows}x{cols}: cell ({r},{c}) ran {} times, expected once",
                    runs[idx(r, c)]
                );
            }
        }
    }
}

#[test]
fn wavefront_plane_writer_disjoint_blocks_are_correct() {
    let (rows, cols, bs) = (6usize, 9usize, 4usize);
    let (ph, pw) = (rows * bs, cols * bs);
    let mut plane = vec![-1f32; ph * pw];
    run_fronts(rows, cols, false, |r, c, _| {
        let val = (r * cols + c) as f32;
        let block = vec![val; bs * bs];
        put_block(&mut plane, pw, r * bs, c * bs, bs, &block);
    });
    for r in 0..rows {
        for c in 0..cols {
            let val = (r * cols + c) as f32;
            for yy in 0..bs {
                for xx in 0..bs {
                    assert_eq!(
                        plane[(r * bs + yy) * pw + c * bs + xx],
                        val,
                        "block ({r},{c}) pixel ({yy},{xx}) corrupted"
                    );
                }
            }
        }
    }
}

#[test]
fn tx16_choice_never_spends_distortion_for_proxy_rate() {
    assert_eq!(
        choose_tx16_type(&[100, 90, 80, 70], &[100, 101, 102, 103], &[false; 4]),
        0
    );
    assert_eq!(
        choose_tx16_type(&[100, 95, 90, 92], &[100, 89, 80, 85], &[false; 4]),
        2
    );
}

#[test]
fn flat_blocks_keep_the_cosine_transform() {
    assert_eq!(
        choose_tx16_type(
            &[100, 95, 90, 92],
            &[100, 89, 80, 85],
            &[false, false, true, false]
        ),
        3
    );
    assert_eq!(
        choose_tx16_type(&[100, 1, 1, 1], &[100, 1, 1, 1], &[true; 4]),
        0
    );
}

#[test]
fn fronts_of_a_small_grid() {
    assert_eq!(
        wavefront_cells(2, 2, false),
        vec![vec![(0, 0)], vec![(0, 1), (1, 0)], vec![(1, 1)]]
    );
    assert_eq!(
        wavefront_cells(2, 2, true),
        vec![vec![(0, 0)], vec![(0, 1)], vec![(1, 0)], vec![(1, 1)]]
    );
}

#[test]
fn chunks_split_work_in_order() {
    let chunks = chunk_ranges(10, 4);
    let mut next = 0;
    for &(a, b) in &chunks {
        assert_eq!(a, next);
        assert!(a < b);
        next = b;
    }
    assert_eq!(next, 10);
    assert!(chunks.len() <= 4);
    assert!(chunk_ranges(0, 4).is_empty());
}
