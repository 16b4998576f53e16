use mandelbrot::compute_band;
use mandelbrot::compute_field;
use mandelbrot::ImageDimensions;
use mandelbrot::IterationResult;

fn eval_diag(c: usize, r: usize) -> IterationResult {
    if c == r {
        IterationResult::BoundedWithinLimit
    } else {
        IterationResult::Diverged(c + r)
    }
}

#[test]
fn test_compute_field_row_major_cells() {
    let dims = ImageDimensions {
        width: 3,
        height: 2,
    };
    let field = compute_field(dims, eval_diag);
    assert_eq!(field.len(), 6);
    assert_eq!(field[0], IterationResult::BoundedWithinLimit); // (col 0, row 0)
    assert_eq!(field[1], IterationResult::Diverged(1)); // (col 1, row 0)
    assert_eq!(field[2], IterationResult::Diverged(2)); // (col 2, row 0)
    assert_eq!(field[3], IterationResult::Diverged(1)); // (col 0, row 1)
    assert_eq!(field[4], IterationResult::BoundedWithinLimit); // (col 1, row 1)
    assert_eq!(field[5], IterationResult::Diverged(3)); // (col 2, row 1)
}

#[test]
fn test_compute_field_deterministic_across_partitions() {
    let dims = ImageDimensions {
        width: 7,
        height: 5,
    };
    let a = compute_field(dims, eval_diag);
    let b = compute_field(dims, eval_diag);
    assert_eq!(a, b);

    let mut c: Vec<IterationResult> = Vec::new();
    c.extend(compute_band(dims, 0, 2, eval_diag));
    c.extend(compute_band(dims, 2, 3, eval_diag));
    c.extend(compute_band(dims, 3, 5, eval_diag));
    assert_eq!(a, c);

    let mut d: Vec<IterationResult> = Vec::new();
    for r in 0..5 {
        d.extend(compute_band(dims, r, r + 1, eval_diag));
    }
    assert_eq!(a, d);
}

#[test]
fn test_compute_band_middle_rows() {
    let dims = ImageDimensions {
        width: 2,
        height: 4,
    };
    let band = compute_band(dims, 1, 3, eval_diag);
    assert_eq!(band.len(), 4);
    assert_eq!(band[0], IterationResult::Diverged(1)); // (col 0, row 1)
    assert_eq!(band[1], IterationResult::BoundedWithinLimit); // (col 1, row 1)
    assert_eq!(band[2], IterationResult::Diverged(2)); // (col 0, row 2)
    assert_eq!(band[3], IterationResult::Diverged(3)); // (col 1, row 2)
}

#[test]
fn test_compute_band_empty_range() {
    let dims = ImageDimensions {
        width: 9,
        height: 9,
    };
    let band = compute_band(dims, 4, 4, eval_diag);
    assert_eq!(band.len(), 0);
}

#[test]
fn test_compute_field_single_pixel() {
    let dims = ImageDimensions {
        width: 1,
        height: 1,
    };
    let field = compute_field(dims, eval_diag);
    assert_eq!(field, vec![IterationResult::BoundedWithinLimit]);
}
