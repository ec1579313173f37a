use ragbooster::fixed::{Fixed, SCALE};
use ragbooster::mle::tensors::{DenseMatrix, DenseTensor};

fn fx(units: i64, thousandths: i64) -> Fixed {
    Fixed::from_raw(units * SCALE + thousandths * (SCALE / 1000))
}

fn close(value: Fixed, expected: f64) -> bool {
    let real = value.raw() as f64 / SCALE as f64;
    (real - expected).abs() < 0.00000001
}

#[test]
fn basic() {
    let mut m = DenseMatrix::new(50, 100);

    assert_eq!(Fixed::zero(), m.get(0, 0));
    assert_eq!(Fixed::zero(), m.get(49, 99));

    m.set(0, 5, fx(3, 0));
    assert_eq!(fx(3, 0), m.get(0, 5));
}

#[test]
fn with_reuse() {
    let mut m = DenseMatrix::allocate_with_capacity(10, 100, 10000);

    m.set(0, 0, fx(5, 0));
    assert_eq!(fx(5, 0), m.get(0, 0));

    m.reuse_as(50, 200);

    m.set(49, 199, fx(3, 0));
    assert_eq!(fx(3, 0), m.get(49, 199));
}

#[test]
fn set_y_to_x1_a1_plus_x2_a2() {
    let mut m = DenseTensor::new(20, 10, 5);

    m.set(0, 0, 0, fx(1, 0));
    m.set(0, 0, 1, fx(2, 0));
    m.set(0, 0, 2, fx(3, 0));
    m.set(0, 0, 3, fx(4, 0));
    m.set(0, 0, 4, fx(5, 0));

    m.set(3, 2, 0, fx(1, 0));
    m.set(3, 2, 1, fx(2, 0));
    m.set(3, 2, 2, fx(3, 0));
    m.set(3, 2, 3, fx(4, 0));
    m.set(3, 2, 4, fx(5, 0));

    m.set(19, 9, 0, fx(1, 0));
    m.set(19, 9, 1, fx(2, 0));
    m.set(19, 9, 2, fx(3, 0));
    m.set(19, 9, 3, fx(4, 0));
    m.set(19, 9, 4, fx(5, 0));

    m.set_y_to_x1_a1_plus_x2_a2([0, 0], [3, 2], fx(0, 100), [19, 9], fx(0, 200));

    assert!(close(m.get(0, 0, 0), 0.3));
    assert!(close(m.get(0, 0, 1), 0.6));
    assert!(close(m.get(0, 0, 2), 0.9));
    assert!(close(m.get(0, 0, 3), 1.2));
    assert!(close(m.get(0, 0, 4), 1.5));
}

#[test]
fn fused_kernel_walks_blocks_and_rest() {
    for width in 0..10usize {
        let mut t = DenseTensor::new(3, 2, width);
        for e in 0..width {
            t.set(1, 0, e, fx(e as i64 + 1, 0));
            t.set(2, 1, e, fx(10 * (e as i64 + 1), 0));
            t.set(0, 1, e, fx(7, 0));
        }
        t.set_y_to_x1_a1_plus_x2_a2([0, 0], [1, 0], fx(0, 500), [2, 1], fx(2, 0));
        for e in 0..width {
            // half of e + 1 and twice ten times e + 1
            let expected = fx(0, 500 * (e as i64 + 1)).plus(fx(20 * (e as i64 + 1), 0));
            assert_eq!(t.get(0, 0, e), expected);
            assert_eq!(t.get(1, 0, e), fx(e as i64 + 1, 0));
            assert_eq!(t.get(2, 1, e), fx(10 * (e as i64 + 1), 0));
            assert_eq!(t.get(0, 1, e), fx(7, 0));
            assert_eq!(t.get(1, 1, e), Fixed::zero());
        }
        assert_eq!(t.view_buffer().len(), 6 * width);
    }
}

#[test]
fn fused_kernel_may_overwrite_a_source_row() {
    let mut t = DenseTensor::new(2, 1, 6);
    for e in 0..6 {
        t.set(0, 0, e, fx(e as i64, 0));
        t.set(1, 0, e, fx(1, 0));
    }
    t.set_y_to_x1_a1_plus_x2_a2([0, 0], [0, 0], fx(3, 0), [1, 0], fx(0, 250));
    for e in 0..6 {
        assert_eq!(t.get(0, 0, e), fx(3 * e as i64, 250));
        assert_eq!(t.get(1, 0, e), fx(1, 0));
    }
}

#[test]
fn a_tensor_keeps_its_buffer_when_it_is_reshaped() {
    let mut t = DenseTensor::new(2, 3, 4);
    t.set(1, 2, 3, fx(9, 0));
    t.set(0, 1, 2, fx(4, 0));
    t.reuse_as(4, 3, 2);
    assert_eq!(t.view_buffer().len(), 24);
    // place 23 is the last cell of either shape, place 6 is cell (0, 1, 2) or (1, 0, 0)
    assert_eq!(t.get(3, 2, 1), fx(9, 0));
    assert_eq!(t.get(1, 0, 0), fx(4, 0));
    t.reuse_as(1, 1, 1);
    assert_eq!(t.view_buffer()[23], fx(9, 0));
    assert_eq!(t.get(0, 0, 0), Fixed::zero());
}

#[test]
fn a_matrix_is_stored_row_after_row() {
    let mut m = DenseMatrix::new(3, 4);
    m.set(2, 1, fx(1, 0));
    m.set(0, 3, fx(2, 0));
    assert_eq!(m.view_buffer()[9], fx(1, 0));
    assert_eq!(m.view_buffer()[3], fx(2, 0));
    assert_eq!(m.view_buffer().len(), 12);
    let spare = DenseMatrix::allocate_with_capacity(2, 2, 9);
    assert_eq!(spare.view_buffer().len(), 9);
    assert!(spare.view_buffer().iter().all(|x| *x == Fixed::zero()));
}
