//! The escape-time field: per-pixel classification results arranged in a
//! row-major buffer, filled by a caller-supplied per-pixel evaluator.

use vstd::arithmetic::div_mod::lemma_fundamental_div_mod;
use vstd::arithmetic::div_mod::lemma_mod_division_less_than_divisor;
use vstd::arithmetic::div_mod::lemma_multiply_divide_lt;
use vstd::arithmetic::div_mod::lemma_div_pos_is_pos;
use vstd::prelude::*;

verus! {

/// Outcome of the escape-time test for one complex point: either the orbit
/// left the bailout circle after `count` iterations, or it stayed inside for
/// the whole iteration budget and the point is presumed a set member.
#[derive(Clone, Copy, PartialEq, Eq, Debug)]
pub enum IterationResult {
    Diverged(usize),
    BoundedWithinLimit,
}

/// Width and height of the pixel grid, in pixels.
#[derive(Clone, Copy, PartialEq, Eq, Debug)]
pub struct ImageDimensions {
    pub width: usize,
    pub height: usize,
}

impl ImageDimensions {
    /// A usable grid: both sides positive, and the cell count representable.
    pub open spec fn wf(self) -> bool {
        &&& self.width > 0
        &&& self.height > 0
        &&& self.width * self.height <= usize::MAX
    }
}

/// The entry of a row-major buffer of the given width at `(col, row)`.
pub open spec fn cell(field: Seq<IterationResult>, width: int, row: int, col: int) -> IterationResult {
    field[row * width + col]
}

/// `band` is a row-major buffer of exactly the rows `row_start..row_end` of
/// the grid, each entry a possible outcome of `eval` at its own coordinate.
pub open spec fn band_covers<F: Fn(usize, usize) -> IterationResult>(
    eval: F,
    band: Seq<IterationResult>,
    dims: ImageDimensions,
    row_start: int,
    row_end: int,
) -> bool {
    &&& band.len() == (row_end - row_start) * dims.width
    &&& forall|rr: int, c: int|
        0 <= c < dims.width && 0 <= rr < row_end - row_start ==> call_ensures(
            eval,
            ((c as usize), ((row_start + rr) as usize)),
            #[trigger] cell(band, dims.width as int, rr, c),
        )
}

/// Every cell of `field` is the value of the pure per-pixel function `model`
/// at its own coordinate, and the buffer covers the grid exactly.
pub open spec fn field_matches(
    field: Seq<IterationResult>,
    dims: ImageDimensions,
    model: spec_fn(int, int) -> IterationResult,
) -> bool {
    &&& field.len() == dims.width * dims.height
    &&& forall|col: int, row: int|
        0 <= col < dims.width && 0 <= row < dims.height ==> #[trigger] cell(
            field,
            dims.width as int,
            row,
            col,
        ) == model(col, row)
}

/// Classify the pixels of the rows `row_start..row_end`, in row-major order,
/// by the caller-supplied per-pixel evaluator. The band stands on its own, so
/// disjoint bands may be computed by independent workers and concatenated.
pub fn compute_band<F: Fn(usize, usize) -> IterationResult>(
    dims: ImageDimensions,
    row_start: usize,
    row_end: usize,
    eval: F,
) -> (band: Vec<IterationResult>)
    requires
        dims.wf(),
        row_start <= row_end <= dims.height,
        forall|c: usize, r: usize|
            c < dims.width && row_start <= r < row_end ==> #[trigger] call_requires(eval, (c, r)),
    ensures
        band_covers(eval, band@, dims, row_start as int, row_end as int),
{
    let width = dims.width;
    let mut band: Vec<IterationResult> = Vec::new();
    let mut row: usize = row_start;
    while row < row_end
        invariant
            dims.wf(),
            width == dims.width,
            row_start <= row <= row_end <= dims.height,
            forall|c: usize, r: usize|
                c < dims.width && row_start <= r < row_end ==> #[trigger] call_requires(
                    eval,
                    (c, r),
                ),
            band_covers(eval, band@, dims, row_start as int, row as int),
        decreases row_end - row,
    {
        let mut col: usize = 0;
        while col < width
            invariant
                dims.wf(),
                width == dims.width,
                row_start <= row < row_end <= dims.height,
                col <= width,
                forall|c: usize, r: usize|
                    c < dims.width && row_start <= r < row_end ==> #[trigger] call_requires(
                        eval,
                        (c, r),
                    ),
                band@.len() == (row - row_start) * width + col,
                forall|rr: int, c: int|
                    0 <= c < width && 0 <= rr < row - row_start ==> call_ensures(
                        eval,
                        ((c as usize), ((row_start + rr) as usize)),
                        #[trigger] cell(band@, width as int, rr, c),
                    ),
                forall|c: int|
                    0 <= c < col ==> call_ensures(
                        eval,
                        ((c as usize), row),
                        #[trigger] cell(band@, width as int, row - row_start, c),
                    ),
            decreases width - col,
        {
            let v = eval(col, row);
            let ghost pre = band@;
            band.push(v);
            proof {
                assert forall|rr: int, c: int| 0 <= c < width && 0 <= rr < row - row_start implies
                call_ensures(
                    eval,
                    ((c as usize), ((row_start + rr) as usize)),
                    #[trigger] cell(band@, width as int, rr, c),
                ) by {
                    assert(0 <= rr * (width as int) + c < (row as int - row_start as int) * (
                    width as int)) by (nonlinear_arith)
                        requires
                            0 <= c < width as int,
                            0 <= rr < row as int - row_start as int,
                    ;
                    assert(cell(band@, width as int, rr, c) == cell(pre, width as int, rr, c));
                }
                assert forall|c: int| 0 <= c <= col implies call_ensures(
                    eval,
                    ((c as usize), row),
                    #[trigger] cell(band@, width as int, row - row_start, c),
                ) by {
                    if c < col {
                        assert(cell(band@, width as int, row - row_start, c) == cell(
                            pre,
                            width as int,
                            row - row_start,
                            c,
                        ));
                    } else {
                        assert(cell(band@, width as int, row - row_start, c) == v);
                    }
                }
            }
            col += 1;
        }
        proof {
            assert((row as int + 1 - row_start as int) * (width as int) == (row as int
                - row_start as int) * (width as int) + width as int) by (nonlinear_arith);
            assert forall|rr: int, c: int| 0 <= c < width && 0 <= rr < row + 1 - row_start implies
            call_ensures(
                eval,
                ((c as usize), ((row_start + rr) as usize)),
                #[trigger] cell(band@, width as int, rr, c),
            ) by {
                if rr == row - row_start {
                    assert((row_start + rr) as usize == row);
                }
            }
        }
        row += 1;
    }
    band
}

/// Classify every pixel of the grid, in row-major order, by the
/// caller-supplied per-pixel evaluator: the cell at `(col, row)` lies at
/// offset `row * width + col` and holds an outcome of `eval` on `(col, row)`.
pub fn compute_field<F: Fn(usize, usize) -> IterationResult>(
    dims: ImageDimensions,
    eval: F,
) -> (field: Vec<IterationResult>)
    requires
        dims.wf(),
        forall|c: usize, r: usize|
            c < dims.width && r < dims.height ==> #[trigger] call_requires(eval, (c, r)),
    ensures
        band_covers(eval, field@, dims, 0, dims.height as int),
        field@.len() == dims.width * dims.height,
        forall|col: int, row: int|
            0 <= col < dims.width && 0 <= row < dims.height ==> call_ensures(
                eval,
                ((col as usize), (row as usize)),
                #[trigger] cell(field@, dims.width as int, row, col),
            ),
{
    let field = compute_band(dims, 0, dims.height, eval);
    proof {
        assert(field@.len() == dims.height * dims.width);
        assert(dims.height * dims.width == dims.width * dims.height) by (nonlinear_arith);
        assert forall|col: int, row: int| 0 <= col < dims.width && 0 <= row < dims.height implies
        call_ensures(
            eval,
            ((col as usize), (row as usize)),
            #[trigger] cell(field@, dims.width as int, row, col),
        ) by {
            assert(call_ensures(
                eval,
                ((col as usize), ((0 + row) as usize)),
                cell(field@, dims.width as int, row, col),
            ));
        }
    }
    field
}

/// Two adjacent bands concatenated in row order cover their united row range:
/// a partition of the grid into contiguous bands, computed in any manner and
/// joined in order, covers the same grid as one uninterrupted computation.
pub proof fn lemma_band_concat<F: Fn(usize, usize) -> IterationResult>(
    eval: F,
    a: Seq<IterationResult>,
    b: Seq<IterationResult>,
    dims: ImageDimensions,
    row_start: int,
    row_mid: int,
    row_end: int,
)
    requires
        dims.wf(),
        row_start <= row_mid <= row_end,
        band_covers(eval, a, dims, row_start, row_mid),
        band_covers(eval, b, dims, row_mid, row_end),
    ensures
        band_covers(eval, a + b, dims, row_start, row_end),
{
    let w = dims.width as int;
    assert((row_end - row_start) * w == (row_mid - row_start) * w + (row_end - row_mid) * w)
        by (nonlinear_arith);
    assert forall|rr: int, c: int| 0 <= c < dims.width && 0 <= rr < row_end - row_start implies
    call_ensures(
        eval,
        ((c as usize), ((row_start + rr) as usize)),
        #[trigger] cell(a + b, w, rr, c),
    ) by {
        if rr < row_mid - row_start {
            assert(0 <= rr * w + c < (row_mid - row_start) * w) by (nonlinear_arith)
                requires
                    0 <= c < w,
                    0 <= rr < row_mid - row_start,
            ;
            assert((a + b)[rr * w + c] == a[rr * w + c]);
            assert(cell(a + b, w, rr, c) == cell(a, w, rr, c));
        } else {
            let rb = rr - (row_mid - row_start);
            assert(0 <= rb * w + c < (row_end - row_mid) * w) by (nonlinear_arith)
                requires
                    0 <= c < w,
                    0 <= rb < row_end - row_mid,
            ;
            assert(rr * w + c == (row_mid - row_start) * w + (rb * w + c)) by (nonlinear_arith)
                requires
                    rr == rb + (row_mid - row_start),
            ;
            assert((a + b)[rr * w + c] == b[rb * w + c]);
            assert(cell(a + b, w, rr, c) == cell(b, w, rb, c));
            assert(call_ensures(
                eval,
                ((c as usize), ((row_mid + rb) as usize)),
                cell(b, w, rb, c),
            ));
            assert(row_mid + rb == row_start + rr);
        }
    }
}

/// If every possible outcome of the evaluator at a coordinate equals the pure
/// per-pixel function `model` there, a buffer that covers the whole grid with
/// outcomes of the evaluator matches `model` exactly.
pub proof fn lemma_eval_pins_field<F: Fn(usize, usize) -> IterationResult>(
    eval: F,
    field: Seq<IterationResult>,
    dims: ImageDimensions,
    model: spec_fn(int, int) -> IterationResult,
)
    requires
        dims.wf(),
        band_covers(eval, field, dims, 0, dims.height as int),
        forall|c: usize, r: usize, y: IterationResult|
            #[trigger] call_ensures(eval, (c, r), y) && c < dims.width && r < dims.height ==> y
                == model(c as int, r as int),
    ensures
        field_matches(field, dims, model),
{
    assert(dims.height * dims.width == dims.width * dims.height) by (nonlinear_arith);
    assert forall|col: int, row: int| 0 <= col < dims.width && 0 <= row < dims.height implies #[trigger] cell(
        field,
        dims.width as int,
        row,
        col,
    ) == model(col, row) by {
        assert(call_ensures(
            eval,
            ((col as usize), ((0 + row) as usize)),
            cell(field, dims.width as int, row, col),
        ));
        assert((0 + row) as usize == row as usize);
    }
}

/// Determinism of the field: two buffers whose cells both equal the same pure
/// per-pixel function are identical, however each of them was put together.
pub proof fn lemma_field_deterministic(
    a: Seq<IterationResult>,
    b: Seq<IterationResult>,
    dims: ImageDimensions,
    model: spec_fn(int, int) -> IterationResult,
)
    requires
        dims.wf(),
        field_matches(a, dims, model),
        field_matches(b, dims, model),
    ensures
        a == b,
{
    let w = dims.width as int;
    let h = dims.height as int;
    assert forall|k: int| 0 <= k < a.len() implies a[k] == b[k] by {
        let row = k / w;
        let col = k % w;
        lemma_fundamental_div_mod(k, w);
        lemma_mod_division_less_than_divisor(k, w);
        lemma_div_pos_is_pos(k, w);
        assert(w * h == dims.width * dims.height) by (nonlinear_arith)
            requires
                w == dims.width as int,
                h == dims.height as int,
        ;
        lemma_multiply_divide_lt(k, w, h);
        assert(row * w + col == k) by (nonlinear_arith)
            requires
                k == w * (k / w) + (k % w),
                row == k / w,
                col == k % w,
        ;
        assert(cell(a, w, row, col) == model(col, row));
        assert(cell(b, w, row, col) == model(col, row));
    }
    assert(a =~= b);
}

} // verus!
