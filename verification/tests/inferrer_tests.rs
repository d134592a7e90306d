use back_projection::image::{max_cell_of, Image, ONE};
use back_projection::inferrer::{ImageInferrer, InferError};
use back_projection::sample::original_image;

fn estimate(inferrer: &ImageInferrer) -> Vec<Vec<u64>> {
    let img: &Image = inferrer.image();
    (0..img.nrows()).map(|i| (0..img.ncols()).map(|j| img.get(i, j)).collect()).collect()
}

fn infer(rows: &[u64], cols: &[u64]) -> ImageInferrer {
    ImageInferrer::infer_by_back_projection(rows.to_vec(), cols.to_vec()).unwrap()
}

fn squared_error(have: &[u64], want: &[u64]) -> u128 {
    have.iter()
        .zip(want.iter())
        .map(|(h, w)| {
            let d = (*h as i128) - (*w as i128);
            (d * d) as u128
        })
        .sum()
}

fn units(values: &[u64]) -> Vec<u64> {
    values.iter().map(|v| v * ONE).collect()
}

#[test]
fn back_projection_rejects_empty_targets() {
    let no_rows = ImageInferrer::infer_by_back_projection(vec![], vec![1, 2]);
    assert_eq!(no_rows.err(), Some(InferError::DimensionMismatch));
    let no_cols = ImageInferrer::infer_by_back_projection(vec![1, 2], vec![]);
    assert_eq!(no_cols.err(), Some(InferError::DimensionMismatch));
    let neither = ImageInferrer::infer_by_back_projection(vec![], vec![]);
    assert_eq!(neither.err(), Some(InferError::DimensionMismatch));
}

#[test]
fn back_projection_rejects_targets_above_the_cell_limit() {
    let top = max_cell_of(2, 2);
    let rows_too_large = ImageInferrer::infer_by_back_projection(vec![top + 1, 0], vec![0, 0]);
    assert_eq!(rows_too_large.err(), Some(InferError::TooLarge));
    let cols_too_large = ImageInferrer::infer_by_back_projection(vec![0, 0], vec![0, u64::MAX]);
    assert_eq!(cols_too_large.err(), Some(InferError::TooLarge));
    assert!(ImageInferrer::infer_by_back_projection(vec![top, 0], vec![0, top]).is_ok());
}

#[test]
fn back_projection_rejects_targets_whose_estimate_passes_the_cell_limit() {
    let top = max_cell_of(1, 1);
    let both = ImageInferrer::infer_by_back_projection(vec![top], vec![top]);
    assert_eq!(both.err(), Some(InferError::TooLarge));
    let room = ImageInferrer::infer_by_back_projection(vec![top - 5], vec![5]).unwrap();
    assert_eq!(estimate(&room), vec![vec![top]]);
    let none = ImageInferrer::infer_by_back_projection(vec![top - 5], vec![6]);
    assert_eq!(none.err(), Some(InferError::TooLarge));
}

#[test]
fn back_projection_spreads_rows_over_columns_and_columns_over_rows() {
    let inferrer = infer(&units(&[6, 12]), &units(&[3, 9, 6]));
    assert_eq!(
        estimate(&inferrer),
        vec![vec![229376, 425984, 327680], vec![360448, 557056, 458752]]
    );
    assert_eq!(inferrer.rows_proj(), &units(&[6, 12]));
    assert_eq!(inferrer.cols_proj(), &units(&[3, 9, 6]));
}

#[test]
fn back_projection_truncates_each_share() {
    let inferrer = infer(&[7, 1], &[2, 9, 4]);
    assert_eq!(estimate(&inferrer), vec![vec![3, 6, 4], vec![1, 4, 2]]);
}

#[test]
fn back_projection_of_whole_shares_holds_both_masses() {
    let rows = units(&[6, 12]);
    let cols = units(&[4, 8, 6]);
    let inferrer = infer(&rows, &cols);
    let mass: u64 = estimate(&inferrer).iter().flatten().sum();
    assert_eq!(mass, rows.iter().sum::<u64>() + cols.iter().sum::<u64>());
}

#[test]
fn adjust_corrects_rows_then_columns() {
    let mut inferrer = infer(&[4, 6], &[3, 7]);
    assert_eq!(estimate(&inferrer), vec![vec![3, 5], vec![4, 6]]);
    inferrer.adjust();
    assert_eq!(estimate(&inferrer), vec![vec![1, 3], vec![2, 4]]);
    assert_eq!(inferrer.image().rows_projection(), vec![4, 6]);
    assert_eq!(inferrer.image().cols_projection(), vec![3, 7]);
}

#[test]
fn adjust_truncates_towards_zero_and_uses_the_rows_it_has_corrected() {
    let mut inferrer = infer(&[7, 1], &[2, 9, 4]);
    inferrer.adjust();
    assert_eq!(estimate(&inferrer), vec![vec![1, 5, 3], vec![0, 3, 1]]);
    inferrer.adjust();
    assert_eq!(estimate(&inferrer), vec![vec![1, 6, 3], vec![0, 3, 0]]);
}

#[test]
fn adjust_stops_each_cell_at_zero_by_itself() {
    let mut inferrer = infer(&[0], &[10, 0]);
    assert_eq!(estimate(&inferrer), vec![vec![10, 0]]);
    inferrer.adjust();
    assert_eq!(estimate(&inferrer), vec![vec![10, 0]]);
}

#[test]
fn adjust_keeps_the_targets() {
    let mut inferrer = infer(&[4, 6], &[3, 7]);
    inferrer.adjust();
    inferrer.adjust();
    assert_eq!(inferrer.rows_proj(), &vec![4, 6]);
    assert_eq!(inferrer.cols_proj(), &vec![3, 7]);
}

#[test]
fn adjust_at_the_cell_limit_stays_in_range() {
    let top = max_cell_of(2, 1);
    let mut inferrer = infer(&[top, 0], &[0]);
    assert_eq!(estimate(&inferrer), vec![vec![top], vec![0]]);
    assert_eq!(inferrer.image().cols_projection(), vec![top]);
    inferrer.adjust();
    assert_eq!(estimate(&inferrer), vec![vec![top / 2], vec![0]]);
    inferrer.adjust();
    assert_eq!(estimate(&inferrer), vec![vec![top / 2], vec![0]]);
}

#[test]
fn sweep_is_adjust_repeated() {
    let mut by_sweep = infer(&units(&[0, 10, 30, 30, 0]), &units(&[0, 20, 30, 20, 0]));
    let mut by_hand = infer(&units(&[0, 10, 30, 30, 0]), &units(&[0, 20, 30, 20, 0]));
    by_sweep.sweep(7);
    for _ in 0..7 {
        by_hand.adjust();
    }
    assert_eq!(estimate(&by_sweep), estimate(&by_hand));
    by_sweep.sweep(0);
    assert_eq!(estimate(&by_sweep), estimate(&by_hand));
}

#[test]
fn same_targets_give_the_same_estimates_sweep_after_sweep() {
    let rows = units(&[3, 0, 41, 7]);
    let cols = units(&[20, 1, 30]);
    let mut first = infer(&rows, &cols);
    let mut second = infer(&rows, &cols);
    assert_eq!(estimate(&first), estimate(&second));
    for _ in 0..25 {
        first.adjust();
        second.adjust();
        assert_eq!(estimate(&first), estimate(&second));
    }
}

#[test]
fn an_estimate_that_meets_its_targets_is_a_fixed_point() {
    let mut inferrer = infer(&[7 * ONE], &[7 * ONE]);
    assert_eq!(estimate(&inferrer), vec![vec![14 * ONE]]);
    inferrer.adjust();
    assert_eq!(estimate(&inferrer), vec![vec![7 * ONE]]);
    assert_eq!(&inferrer.image().rows_projection(), inferrer.rows_proj());
    assert_eq!(&inferrer.image().cols_projection(), inferrer.cols_proj());
    inferrer.adjust();
    assert_eq!(estimate(&inferrer), vec![vec![7 * ONE]]);

    let mut met = infer(&[4, 6], &[3, 7]);
    met.adjust();
    let before = estimate(&met);
    assert_eq!(&met.image().rows_projection(), met.rows_proj());
    assert_eq!(&met.image().cols_projection(), met.cols_proj());
    met.adjust();
    assert_eq!(estimate(&met), before);

    let mut blank = infer(&[0, 0], &[0, 0, 0]);
    blank.adjust();
    assert_eq!(estimate(&blank), vec![vec![0; 3]; 2]);
}

#[test]
fn the_pattern_is_back_projected_and_improved() {
    let original = original_image();
    let rows = original.rows_projection();
    let cols = original.cols_projection();
    assert_eq!(rows, units(&[0, 10, 30, 30, 0]));
    assert_eq!(cols, units(&[0, 20, 30, 20, 0]));

    let mut inferrer = ImageInferrer::infer_by_back_projection(rows.clone(), cols.clone()).unwrap();
    let first = estimate(&inferrer);
    assert_eq!(first[0][0], 0);
    assert_eq!(first[2][2], 12 * ONE);
    let mass: u64 = first.iter().flatten().sum();
    assert_eq!(mass, 140 * ONE);

    let before = squared_error(&inferrer.image().rows_projection(), &rows);
    inferrer.adjust();
    let after = squared_error(&inferrer.image().rows_projection(), &rows);
    assert_eq!(before, 4209067950080);
    assert_eq!(after, 336671695280);
    assert!(after <= before);
    assert_eq!(
        estimate(&inferrer),
        vec![
            vec![0, 78644, 209716, 78644, 0],
            vec![0, 209716, 340788, 209716, 0],
            vec![125830, 471860, 602932, 471860, 125830],
            vec![125830, 471860, 602932, 471860, 125830],
            vec![0, 78644, 209716, 78644, 0],
        ]
    );
}

#[test]
fn no_cell_is_negative_or_above_the_limit_after_any_sweep() {
    let rows = units(&[0, 90, 0, 5]);
    let cols = units(&[95, 0, 0]);
    let mut inferrer = infer(&rows, &cols);
    let top = inferrer.image().max_cell();
    for _ in 0..40 {
        for row in estimate(&inferrer) {
            for v in row {
                assert!(v <= top);
            }
        }
        inferrer.adjust();
    }
}

#[test]
fn anchoring_again_on_the_improved_projections_does_not_drift_away() {
    let original = original_image();
    let rows = original.rows_projection();
    let cols = original.cols_projection();
    let mut inferrer = ImageInferrer::infer_by_back_projection(rows, cols).unwrap();
    inferrer.sweep(100);
    let rows = inferrer.image().rows_projection();
    let cols = inferrer.image().cols_projection();

    let mut again = ImageInferrer::infer_by_back_projection(rows.clone(), cols.clone()).unwrap();
    let fresh = squared_error(&again.image().rows_projection(), &rows)
        + squared_error(&again.image().cols_projection(), &cols);
    again.adjust();
    let swept = squared_error(&again.image().rows_projection(), &rows)
        + squared_error(&again.image().cols_projection(), &cols);
    assert_eq!(fresh, 8418073510020);
    assert_eq!(swept, 463330621396);
    assert!(swept <= fresh);
}

#[test]
fn a_hundred_sweeps_bring_the_pattern_close_to_its_projections() {
    let original = original_image();
    let rows = original.rows_projection();
    let cols = original.cols_projection();
    let mut inferrer = ImageInferrer::infer_by_back_projection(rows.clone(), cols.clone()).unwrap();
    inferrer.sweep(100);
    assert_eq!(squared_error(&inferrer.image().rows_projection(), &rows), 38);
    assert_eq!(squared_error(&inferrer.image().cols_projection(), &cols), 80);
    let rounded = inferrer.image().round();
    let shown: Vec<Vec<u64>> =
        (0..5).map(|i| (0..5).map(|j| rounded.get(i, j) / ONE).collect()).collect();
    assert_eq!(
        shown,
        vec![
            vec![0, 0, 0, 0, 0],
            vec![0, 2, 6, 2, 0],
            vec![0, 9, 12, 9, 0],
            vec![0, 9, 12, 9, 0],
            vec![0, 0, 0, 0, 0],
        ]
    );
}

fn truncated(diff: i128, n: i128) -> i128 {
    if diff >= 0 {
        diff / n
    } else {
        -((-diff) / n)
    }
}

fn expected_first(rows: &[u64], cols: &[u64]) -> Vec<Vec<i128>> {
    let nrows = rows.len() as i128;
    let ncols = cols.len() as i128;
    rows.iter()
        .map(|r| cols.iter().map(|c| (*r as i128) / ncols + (*c as i128) / nrows).collect())
        .collect()
}

fn expected_sweep(grid: &mut Vec<Vec<i128>>, rows: &[u64], cols: &[u64]) {
    let nrows = grid.len();
    let ncols = grid[0].len();
    for i in 0..nrows {
        let have: i128 = grid[i].iter().sum();
        let delta = truncated(rows[i] as i128 - have, ncols as i128);
        for j in 0..ncols {
            grid[i][j] = (grid[i][j] + delta).max(0);
        }
    }
    for j in 0..ncols {
        let have: i128 = (0..nrows).map(|i| grid[i][j]).sum();
        let delta = truncated(cols[j] as i128 - have, nrows as i128);
        for i in 0..nrows {
            grid[i][j] = (grid[i][j] + delta).max(0);
        }
    }
}

fn widened(cells: Vec<Vec<u64>>) -> Vec<Vec<i128>> {
    cells.into_iter().map(|r| r.into_iter().map(|v| v as i128).collect()).collect()
}

#[test]
fn sweeps_follow_the_formulas_on_many_targets() {
    let mut state: u64 = 0x2545_f491_4f6c_dd1d;
    let mut next = move |below: u64| {
        state = state.wrapping_mul(6364136223846793005).wrapping_add(1442695040888963407);
        (state >> 33) % below
    };
    for case in 0..60 {
        let nrows = 1 + (case % 5) as usize;
        let ncols = 1 + ((case / 5) % 4) as usize;
        let rows: Vec<u64> =
            (0..nrows).map(|_| if next(3) == 0 { 0 } else { next(1000 * ONE) }).collect();
        let cols: Vec<u64> =
            (0..ncols).map(|_| if next(3) == 0 { 0 } else { next(1000 * ONE) }).collect();
        let mut inferrer = infer(&rows, &cols);
        let mut expected = expected_first(&rows, &cols);
        assert_eq!(widened(estimate(&inferrer)), expected);
        for _ in 0..12 {
            inferrer.adjust();
            expected_sweep(&mut expected, &rows, &cols);
            assert_eq!(widened(estimate(&inferrer)), expected);
        }
    }
}

#[test]
fn a_single_row_and_a_single_column_are_swept_too() {
    let mut row = infer(&[16], &[5, 9, 2]);
    assert_eq!(estimate(&row), vec![vec![10, 14, 7]]);
    row.adjust();
    assert_eq!(estimate(&row), vec![vec![5, 9, 2]]);

    let mut column = infer(&[5, 9, 2], &[16]);
    assert_eq!(estimate(&column), vec![vec![10], vec![14], vec![7]]);
    column.adjust();
    assert_eq!(estimate(&column), vec![vec![5], vec![9], vec![2]]);
}

#[test]
fn projections_of_every_estimate_add_up_to_its_mass() {
    let mut inferrer = infer(&units(&[3, 0, 41, 7]), &units(&[20, 1, 30]));
    for _ in 0..10 {
        let mass: u64 = estimate(&inferrer).iter().flatten().sum();
        assert_eq!(inferrer.image().rows_projection().iter().sum::<u64>(), mass);
        assert_eq!(inferrer.image().cols_projection().iter().sum::<u64>(), mass);
        inferrer.adjust();
    }
}
