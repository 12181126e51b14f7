use arbor::density::fade;
use arbor::density::from_noise;
use arbor::density::DensityField;
use arbor::density::FADE_ONE;

/// The two-level cumulative walk lands where the ticket falls.
#[test]
fn sample_walks_cumulative_sums() {
    let field = DensityField::from_cells(vec![vec![1, 2], vec![3, 4]]);
    assert_eq!(field.total, 10);
    assert_eq!(field.cols, vec![3, 7]);
    assert_eq!(field.sample(0), (0, 0));
    assert_eq!(field.sample(1), (0, 1));
    assert_eq!(field.sample(2), (0, 1));
    assert_eq!(field.sample(3), (1, 0));
    assert_eq!(field.sample(5), (1, 0));
    assert_eq!(field.sample(6), (1, 1));
    assert_eq!(field.sample(9), (1, 1));
}

/// Determinism under a point mass: with all density in one cell, every
/// ticket in range returns that cell.
#[test]
fn sample_point_mass_deterministic() {
    let mut cells = vec![vec![0u64; 5]; 4];
    cells[2][3] = 17;
    let field = DensityField::from_cells(cells);
    assert_eq!(field.total, 17);
    for t in 0..17 {
        assert_eq!(field.sample(t), (2, 3));
    }
}

/// A zero-density cell is never selected: the walk skips it.
#[test]
fn sample_skips_zero_cells() {
    let field = DensityField::from_cells(vec![vec![0, 0, 5], vec![0, 1, 0]]);
    assert_eq!(field.total, 6);
    for t in 0..5 {
        assert_eq!(field.sample(t), (0, 2));
    }
    assert_eq!(field.sample(5), (1, 1));
}

/// The fade is full near the center, zero at the canvas edge, and never
/// increases outward.
#[test]
fn fade_profile() {
    let w = 100;
    let h = 100;
    assert_eq!(fade(50, 50, w, h), FADE_ONE);
    assert_eq!(fade(0, 0, w, h), 0);
    assert_eq!(fade(99, 99, w, h), 0);
    let mut prev = fade(50, 50, w, h);
    for y in 51..100 {
        let f = fade(50, y, w, h);
        assert!(f <= prev);
        prev = f;
    }
    // one exact value on the linear ramp between the inner and outer disc
    assert_eq!(fade(50, 95, w, h), 527);
}

/// Building from noise scales each cell's noise by the fade: edge cells get
/// zero density, center cells keep their full noise magnitude.
#[test]
fn from_noise_applies_fade() {
    let noise = vec![vec![1000u64; 9]; 9];
    let field = from_noise(&noise);
    assert_eq!(field.cells[0][0], 0);
    assert_eq!(field.cells[4][4], 1000);
    assert!(field.total > 0);
}
