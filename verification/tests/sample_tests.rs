use back_projection::image::{max_cell_of, Image, ONE};
use back_projection::sample::{
    original_image, random_image, sparse_random_image, sparsify, LIT, RANDOM_BOUND, SPARSE_CUT,
};

fn cells(img: &Image) -> Vec<Vec<u64>> {
    (0..img.nrows()).map(|i| (0..img.ncols()).map(|j| img.get(i, j)).collect()).collect()
}

#[test]
fn the_pattern_has_seven_lit_cells() {
    let img = original_image();
    let o = 0;
    let x = 10 * ONE;
    assert_eq!(LIT, x);
    assert_eq!(
        cells(&img),
        vec![
            vec![o, o, o, o, o],
            vec![o, o, x, o, o],
            vec![o, x, x, x, o],
            vec![o, x, x, x, o],
            vec![o, o, o, o, o],
        ]
    );
}

#[test]
fn random_cells_are_whole_numbers_below_the_bound() {
    let img = random_image(6, 9).unwrap();
    assert_eq!(img.nrows(), 6);
    assert_eq!(img.ncols(), 9);
    for row in cells(&img) {
        for v in row {
            assert_eq!(v % ONE, 0);
            assert!(v / ONE < RANDOM_BOUND);
        }
    }
}

#[test]
fn random_images_differ_from_cell_to_cell() {
    let img = random_image(20, 20).unwrap();
    let all = cells(&img);
    let first = all[0][0];
    assert!(all.iter().flatten().any(|v| *v != first));
}

#[test]
fn random_image_refuses_a_shape_that_cannot_be_stored() {
    assert!(random_image(usize::MAX, 3).is_none());
    assert!(sparse_random_image(3, usize::MAX).is_none());
}

#[test]
fn random_image_of_an_empty_shape_is_empty() {
    let img = random_image(0, 4).unwrap();
    assert_eq!(img.nrows(), 0);
    assert_eq!(img.ncols(), 4);
    assert!(max_cell_of(0, 4) >= (RANDOM_BOUND - 1) * ONE);
}

#[test]
fn sparsify_blanks_what_does_not_exceed_the_cut() {
    let mut img = Image::zeros(2, 3).unwrap();
    img.set(0, 0, 69 * ONE);
    img.set(0, 1, 70 * ONE);
    img.set(0, 2, 70 * ONE + 1);
    img.set(1, 0, 71 * ONE);
    img.set(1, 2, 99 * ONE);
    sparsify(&mut img, SPARSE_CUT * ONE);
    assert_eq!(cells(&img), vec![vec![0, 0, 70 * ONE + 1], vec![71 * ONE, 0, 99 * ONE]]);
}

#[test]
fn sparse_random_cells_are_blank_or_above_the_cut() {
    let img = sparse_random_image(12, 12).unwrap();
    assert_eq!(img.nrows(), 12);
    assert_eq!(img.ncols(), 12);
    for row in cells(&img) {
        for v in row {
            assert_eq!(v % ONE, 0);
            assert!(v == 0 || (v / ONE > SPARSE_CUT && v / ONE < RANDOM_BOUND));
        }
    }
}
