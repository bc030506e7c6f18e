use pathtracer::binary32::Binary32;
use pathtracer::mat::Matrix44f32;

fn b(x: f32) -> Binary32 {
    Binary32::from_bits(x.to_bits())
}

fn f(x: Binary32) -> f32 {
    f32::from_bits(x.to_bits())
}

fn matrix(m: [f32; 16]) -> Matrix44f32 {
    Matrix44f32::new(m.map(b))
}

fn plain(m: &Matrix44f32) -> [f32; 16] {
    m.data.map(f)
}

fn bits(m: [f32; 16]) -> [u32; 16] {
    m.map(|x| if x.is_nan() { 0x7fc0_0000 } else { x.to_bits() })
}

fn noise(seed: u32) -> [f32; 16] {
    let mut state = seed;
    let mut out = [0.0f32; 16];
    let mut i = 0;
    while i < 16 {
        state = state.wrapping_mul(1664525).wrapping_add(1013904223);
        out[i] = ((state >> 8) as f32 / 16777216.0 - 0.5) * 6.0;
        i += 1;
    }
    out
}

/// The inverse by cofactors, each entry written out with the machine's own
/// arithmetic.
fn reference_inverse(d: [f32; 16]) -> [f32; 16] {
    let mut inv = [0.0f32; 16];
    inv[0] = d[5] * d[10] * d[15] - d[5] * d[11] * d[14] - d[9] * d[6] * d[15]
        + d[9] * d[7] * d[14]
        + d[13] * d[6] * d[11]
        - d[13] * d[7] * d[10];
    inv[4] = -d[4] * d[10] * d[15] + d[4] * d[11] * d[14] + d[8] * d[6] * d[15]
        - d[8] * d[7] * d[14]
        - d[12] * d[6] * d[11]
        + d[12] * d[7] * d[10];
    inv[8] = d[4] * d[9] * d[15] - d[4] * d[11] * d[13] - d[8] * d[5] * d[15]
        + d[8] * d[7] * d[13]
        + d[12] * d[5] * d[11]
        - d[12] * d[7] * d[9];
    inv[12] = -d[4] * d[9] * d[14] + d[4] * d[10] * d[13] + d[8] * d[5] * d[14]
        - d[8] * d[6] * d[13]
        - d[12] * d[5] * d[10]
        + d[12] * d[6] * d[9];
    inv[1] = -d[1] * d[10] * d[15] + d[1] * d[11] * d[14] + d[9] * d[2] * d[15]
        - d[9] * d[3] * d[14]
        - d[13] * d[2] * d[11]
        + d[13] * d[3] * d[10];
    inv[5] = d[0] * d[10] * d[15] - d[0] * d[11] * d[14] - d[8] * d[2] * d[15]
        + d[8] * d[3] * d[14]
        + d[12] * d[2] * d[11]
        - d[12] * d[3] * d[10];
    inv[9] = -d[0] * d[9] * d[15] + d[0] * d[11] * d[13] + d[8] * d[1] * d[15]
        - d[8] * d[3] * d[13]
        - d[12] * d[1] * d[11]
        + d[12] * d[3] * d[9];
    inv[13] = d[0] * d[9] * d[14] - d[0] * d[10] * d[13] - d[8] * d[1] * d[14]
        + d[8] * d[2] * d[13]
        + d[12] * d[1] * d[10]
        - d[12] * d[2] * d[9];
    inv[2] = d[1] * d[6] * d[15] - d[1] * d[7] * d[14] - d[5] * d[2] * d[15]
        + d[5] * d[3] * d[14]
        + d[13] * d[2] * d[7]
        - d[13] * d[3] * d[6];
    inv[6] = -d[0] * d[6] * d[15] + d[0] * d[7] * d[14] + d[4] * d[2] * d[15]
        - d[4] * d[3] * d[14]
        - d[12] * d[2] * d[7]
        + d[12] * d[3] * d[6];
    inv[10] = d[0] * d[5] * d[15] - d[0] * d[7] * d[13] - d[4] * d[1] * d[15]
        + d[4] * d[3] * d[13]
        + d[12] * d[1] * d[7]
        - d[12] * d[3] * d[5];
    inv[14] = -d[0] * d[5] * d[14] + d[0] * d[6] * d[13] + d[4] * d[1] * d[14]
        - d[4] * d[2] * d[13]
        - d[12] * d[1] * d[6]
        + d[12] * d[2] * d[5];
    inv[3] = -d[1] * d[6] * d[11] + d[1] * d[7] * d[10] + d[5] * d[2] * d[11]
        - d[5] * d[3] * d[10]
        - d[9] * d[2] * d[7]
        + d[9] * d[3] * d[6];
    inv[7] = d[0] * d[6] * d[11] - d[0] * d[7] * d[10] - d[4] * d[2] * d[11]
        + d[4] * d[3] * d[10]
        + d[8] * d[2] * d[7]
        - d[8] * d[3] * d[6];
    inv[11] = -d[0] * d[5] * d[11] + d[0] * d[7] * d[9] + d[4] * d[1] * d[11]
        - d[4] * d[3] * d[9]
        - d[8] * d[1] * d[7]
        + d[8] * d[3] * d[5];
    inv[15] = d[0] * d[5] * d[10] - d[0] * d[6] * d[9] - d[4] * d[1] * d[10]
        + d[4] * d[2] * d[9]
        + d[8] * d[1] * d[6]
        - d[8] * d[2] * d[5];
    let mut det = d[0] * inv[0] + d[1] * inv[4] + d[2] * inv[8] + d[3] * inv[12];
    if det == 0.0 {
        inv = [0.0f32; 16];
    } else {
        det = 1.0 / det;
        for x in &mut inv {
            *x *= det;
        }
    }
    inv
}

#[test]
fn identity_has_ones_on_the_diagonal() {
    let m = Matrix44f32::identity();
    let expected: [f32; 16] =
        [1.0, 0.0, 0.0, 0.0, 0.0, 1.0, 0.0, 0.0, 0.0, 0.0, 1.0, 0.0, 0.0, 0.0, 0.0, 1.0];
    assert_eq!(bits(plain(&m)), bits(expected));
}

#[test]
fn zeroes_has_zeros_everywhere() {
    assert_eq!(bits(plain(&Matrix44f32::zeroes())), [0u32; 16]);
}

#[test]
fn new_keeps_the_entries_row_by_row() {
    let m = matrix(noise(1));
    assert_eq!(plain(&m), noise(1));
    assert_eq!(f(m.get(2, 1)), noise(1)[9]);
    assert_eq!(m.row(3).map(f), [noise(1)[12], noise(1)[13], noise(1)[14], noise(1)[15]]);
}

#[test]
fn transpose_swaps_rows_and_columns() {
    let m = matrix(noise(2));
    let t = m.transpose();
    for i in 0..4 {
        for j in 0..4 {
            assert_eq!(t.get(i, j), m.get(j, i));
        }
    }
    assert_eq!(plain(&t.transpose()), plain(&m));
}

#[test]
fn product_sums_along_rows_and_columns() {
    for seed in 1..40u32 {
        let a = noise(seed);
        let c = noise(seed + 1000);
        let ours = matrix(a).product(&matrix(c));
        let mut expected = [0.0f32; 16];
        for i in 0..4 {
            for j in 0..4 {
                expected[4 * i + j] = a[4 * i] * c[j]
                    + a[4 * i + 1] * c[4 + j]
                    + a[4 * i + 2] * c[8 + j]
                    + a[4 * i + 3] * c[12 + j];
            }
        }
        assert_eq!(bits(plain(&ours)), bits(expected));
    }
    let m = matrix(noise(5));
    assert_eq!(plain(&m.product(&Matrix44f32::identity())), plain(&m));
    assert_eq!(plain(&Matrix44f32::identity().product(&m)), plain(&m));
}

#[test]
fn inverse_matches_the_cofactor_formulas() {
    for seed in 1..200u32 {
        let a = noise(seed);
        let ours = matrix(a).inverse();
        assert_eq!(bits(plain(&ours)), bits(reference_inverse(a)), "seed {}", seed);
    }
}

#[test]
fn inverse_undoes_the_matrix() {
    let a: [f32; 16] =
        [2.0, 0.0, 0.0, 1.0, 0.0, 4.0, 0.0, 0.0, 0.0, 0.0, 0.5, 0.0, 0.0, 0.0, 0.0, 1.0];
    let inv = matrix(a).inverse();
    let expected: [f32; 16] =
        [0.5, 0.0, 0.0, -0.5, 0.0, 0.25, 0.0, 0.0, 0.0, 0.0, 2.0, 0.0, 0.0, 0.0, 0.0, 1.0];
    let ours = plain(&inv);
    for k in 0..16 {
        assert!(ours[k] == expected[k], "entry {}: {} and {}", k, ours[k], expected[k]);
    }
    let back = plain(&matrix(a).product(&inv));
    let id = plain(&Matrix44f32::identity());
    for k in 0..16 {
        assert!((back[k] - id[k]).abs() < 1.0e-6);
    }
}

#[test]
fn inverse_of_a_singular_matrix_is_zero() {
    let a: [f32; 16] =
        [1.0, 2.0, 3.0, 4.0, 2.0, 4.0, 6.0, 8.0, 0.0, 1.0, 0.0, 1.0, 5.0, 5.0, 5.0, 5.0];
    assert_eq!(bits(plain(&matrix(a).inverse())), [0u32; 16]);
    assert_eq!(bits(plain(&Matrix44f32::zeroes().inverse())), [0u32; 16]);
    assert_eq!(f(matrix(a).determinant()), 0.0);
}

#[test]
fn determinant_of_a_diagonal_matrix_is_the_product() {
    let a: [f32; 16] =
        [2.0, 0.0, 0.0, 0.0, 0.0, 3.0, 0.0, 0.0, 0.0, 0.0, 5.0, 0.0, 0.0, 0.0, 0.0, 7.0];
    assert_eq!(f(matrix(a).determinant()), 210.0);
    assert_eq!(f(matrix(a).adjugate_entry(0, 0)), 105.0);
}

#[test]
fn set_changes_one_entry() {
    let mut m = Matrix44f32::zeroes();
    m.set(1, 2, b(7.5));
    let mut expected = [0.0f32; 16];
    expected[6] = 7.5;
    assert_eq!(plain(&m), expected);
    assert_eq!(f(m.get(1, 2)), 7.5);
}

#[test]
fn matrices_are_equal_by_value() {
    let a = matrix(noise(3));
    let again = matrix(noise(3));
    assert!(a == again);
    assert!(a != matrix(noise(4)));
    // the two zeros are equal, and a NaN equals nothing
    let mut plus = [0.0f32; 16];
    let mut minus = [0.0f32; 16];
    minus[5] = -0.0;
    assert!(matrix(plus) == matrix(minus));
    plus[0] = f32::NAN;
    assert!(matrix(plus) != matrix(plus));
}
