//! Sample images to reconstruct: a fixed pattern, and random images with
//! most of their cells blanked.
use vstd::prelude::*;
use crate::image::{can_store, cell_limit, max_cell_of, Image, ONE};
use crate::matrix::storable;

verus! {

/// The value of the lit cells of the fixed pattern: ten units.
pub const LIT: u64 = 10 * ONE;

/// One more than the largest number of units that a cell of a random image
/// holds.
pub const RANDOM_BOUND: u64 = 100;

/// The number of units that a cell of a random image must exceed to stay in
/// a sparse one.
pub const SPARSE_CUT: u64 = 70;

/// The fixed pattern: five rows of five cells, zero but for seven lit
/// cells around the middle.
pub open spec fn pattern() -> Seq<Seq<int>> {
    let o = 0int;
    let x = LIT as int;
    seq![
        seq![o, o, o, o, o],
        seq![o, o, x, o, o],
        seq![o, x, x, x, o],
        seq![o, x, x, x, o],
        seq![o, o, o, o, o],
    ]
}

/// The image that holds the fixed pattern.
pub fn original_image() -> (img: Image)
    ensures
        img.wf(),
        img.width() == 5,
        img@ == pattern(),
{
    assert(storable(5, 5)) by {
        assert(5int * 5int * 8 <= isize::MAX);
    }
    assert(cell_limit(5, 5) >= LIT) by {
        assert(crate::image::longer_side(5, 5) == 5);
    }
    let mut img = Image::zeros(5, 5).unwrap();
    img.set(1, 2, LIT);
    img.set(2, 1, LIT);
    img.set(2, 2, LIT);
    img.set(2, 3, LIT);
    img.set(3, 1, LIT);
    img.set(3, 2, LIT);
    img.set(3, 3, LIT);
    proof {
        assert forall|i: int| 0 <= i < 5 implies #[trigger] img@[i] =~= pattern()[i] by {
            assert forall|j: int| 0 <= j < 5 implies img@[i][j] == pattern()[i][j] by {}
        }
        assert(img@ =~= pattern());
    }
    img
}

/// Whether `v` is a whole number of units, at least `low` and below `high`.
pub open spec fn whole_between(v: int, low: int, high: int) -> bool {
    v % (ONE as int) == 0 && low <= v / (ONE as int) < high
}

/// `rand::random_range` on a half-open range of `u64`: some value of the
/// range, drawn from the thread's generator. The empty range, on which
/// `rand` panics, is left out.
#[verifier::external_body]
fn random_in(low: u64, high: u64) -> (v: u64)
    requires
        low < high,
    ensures
        low <= v < high,
{
    rand::random_range(low..high)
}

/// Whether a random image of this shape can be made: the shape can be
/// stored and its cell limit admits every value that may be drawn.
pub open spec fn drawable(nrows: nat, ncols: nat) -> bool {
    storable(nrows, ncols) && (RANDOM_BOUND - 1) * ONE <= cell_limit(nrows, ncols)
}

/// An image of the given shape in which every cell holds a whole number of
/// units, drawn at random below [`RANDOM_BOUND`]; `None` where no such
/// image can be made.
pub fn random_image(nrows: usize, ncols: usize) -> (r: Option<Image>)
    ensures
        r is Some <==> drawable(nrows as nat, ncols as nat),
        r matches Some(img) ==> {
            &&& img.wf()
            &&& img.height() == nrows
            &&& img.width() == ncols
            &&& forall|i: int, j: int|
                0 <= i < nrows && 0 <= j < ncols ==> whole_between(
                    #[trigger] img@[i][j],
                    0,
                    RANDOM_BOUND as int,
                )
        },
{
    if !can_store(nrows, ncols) || max_cell_of(nrows, ncols) < (RANDOM_BOUND - 1) * ONE {
        return None;
    }
    let draw = |i: usize, j: usize| -> (v: u64)
        ensures
            whole_between(v as int, 0, RANDOM_BOUND as int),
        { random_in(0, RANDOM_BOUND) * ONE };
    let data = crate::matrix::from_fn(nrows, ncols, draw);
    let img = Image::new(data);
    Some(img)
}

/// A cell of a sparse image: the value where it exceeds `cut`, else zero.
pub open spec fn kept(v: int, cut: int) -> int {
    if v > cut {
        v
    } else {
        0
    }
}

/// A grid with every cell that does not exceed `cut` blanked.
pub open spec fn sparse_grid(g: Seq<Seq<int>>, cut: int) -> Seq<Seq<int>> {
    Seq::new(g.len(), |i: int| Seq::new(g[i].len(), |j: int| kept(g[i][j], cut)))
}

/// Blanks every cell of the image that does not exceed `cut`.
pub fn sparsify(image: &mut Image, cut: u64)
    requires
        old(image).wf(),
    ensures
        final(image).wf(),
        final(image).width() == old(image).width(),
        final(image)@ == sparse_grid(old(image)@, cut as int),
{
    let keep = |v: u64| -> (w: u64)
        ensures
            w == kept(v as int, cut as int),
        { if v > cut { v } else { 0 } };
    image.apply(keep);
    proof {
        let expected = sparse_grid(old(image)@, cut as int);
        assert forall|i: int| 0 <= i < image@.len() implies #[trigger] image@[i]
            =~= expected[i] by {
            assert forall|j: int| 0 <= j < image@[i].len() implies image@[i][j]
                == expected[i][j] by {
                assert(call_ensures(keep, (old(image)@[i][j] as u64,), image@[i][j] as u64));
            }
        }
        assert(image@ =~= expected);
    }
}

/// A random image in which only the cells above [`SPARSE_CUT`] units are
/// left, the others blanked; `None` where no random image of this shape
/// can be made.
pub fn sparse_random_image(nrows: usize, ncols: usize) -> (r: Option<Image>)
    ensures
        r is Some <==> drawable(nrows as nat, ncols as nat),
        r matches Some(img) ==> {
            &&& img.wf()
            &&& img.height() == nrows
            &&& img.width() == ncols
            &&& forall|i: int, j: int|
                0 <= i < nrows && 0 <= j < ncols ==> (#[trigger] img@[i][j]) == 0 || whole_between(
                    img@[i][j],
                    SPARSE_CUT + 1,
                    RANDOM_BOUND as int,
                )
        },
{
    match random_image(nrows, ncols) {
        None => None,
        Some(mut img) => {
            let ghost drawn = img@;
            sparsify(&mut img, SPARSE_CUT * ONE);
            proof {
                assert forall|i: int, j: int| 0 <= i < nrows && 0 <= j < ncols implies (
                #[trigger] img@[i][j]) == 0 || whole_between(
                    img@[i][j],
                    SPARSE_CUT + 1,
                    RANDOM_BOUND as int,
                ) by {
                    assert(whole_between(drawn[i][j], 0, RANDOM_BOUND as int));
                    assert(img@[i][j] == kept(drawn[i][j], (SPARSE_CUT * ONE) as int));
                }
            }
            Some(img)
        },
    }
}

} // verus!
