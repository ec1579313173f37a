use ragbooster::fixed::{Fixed, SCALE};
use ragbooster::mle::prob::{
    compute_boundary_set_prob_any_loss_from_tensor_predicated_simd,
    compute_prob_from_tensors,
};
use ragbooster::mle::tensors::{DenseMatrix, DenseTensor};

fn as_float(value: Fixed) -> f64 {
    value.raw() as f64 / SCALE as f64
}

fn as_fixed(value: f64) -> Fixed {
    Fixed::from_raw((value * SCALE as f64).round() as i64)
}

fn float_prefix(p: &[f64], k_max: usize) -> Vec<Vec<f64>> {
    let m = p.len();
    let mut ip = vec![vec![0.0; m + 2]; k_max + 1];
    ip[0][0] = 1.0;
    for j in 1..m + 1 {
        ip[0][j] = ip[0][j - 1] * (1.0 - p[j - 1]);
        for k in 1..k_max + 1 {
            ip[k][j] = ip[k][j - 1] * (1.0 - p[j - 1]) + ip[k - 1][j - 1] * p[j - 1];
        }
    }
    ip
}

fn float_suffix(p: &[f64], k_max: usize) -> Vec<Vec<f64>> {
    let m = p.len();
    let mut rp = vec![vec![0.0; m + 2]; k_max + 1];
    rp[0][m + 1] = 1.0;
    for j in (1..m + 1).rev() {
        rp[0][j] = rp[0][j + 1] * (1.0 - p[j - 1]);
        for k in 1..k_max + 1 {
            rp[k][j] = rp[k][j + 1] * (1.0 - p[j - 1]) + rp[k - 1][j + 1] * p[j - 1];
        }
    }
    rp
}

fn float_boundary(u: &[f64], d: &[f64], p: &[f64], k_max: usize) -> Vec<Vec<Vec<f64>>> {
    let m = p.len();
    let mut b = vec![vec![vec![0.0; d.len()]; m + 2]; k_max + 1];
    for i in (1..m + 1).rev() {
        for k in 1..k_max + 1 {
            for e in 0..d.len() {
                b[k][i][e] = b[k][i + 1][e] * (1.0 - p[i - 1]) + b[k - 1][i + 1][e] * p[i - 1];
                if k == 1 && d[e] == u[i - 1] {
                    b[k][i][e] += p[i - 1];
                }
            }
        }
    }
    b
}

fn check_prefix_and_suffix(p: &[f64], k_max: usize) {
    let m = p.len();
    let p_fixed: Vec<Fixed> = p.iter().map(|x| as_fixed(*x)).collect();
    let mut ip = DenseMatrix::new(k_max + 1, m + 2);
    let mut rp = DenseMatrix::new(k_max + 1, m + 2);
    compute_prob_from_tensors(&p_fixed, k_max, m, &mut ip, &mut rp);

    let ip_float = float_prefix(p, k_max);
    let rp_float = float_suffix(p, k_max);
    assert_eq!(ip.view_buffer().len(), (k_max + 1) * (m + 2));
    assert_eq!(rp.view_buffer().len(), (k_max + 1) * (m + 2));
    for k in 0..k_max + 1 {
        for j in 0..m + 2 {
            assert!((as_float(ip.get(k, j)) - ip_float[k][j]).abs() < 0.00000001);
            assert!((as_float(rp.get(k, j)) - rp_float[k][j]).abs() < 0.00000001);
        }
    }
}

fn check_boundary(u: &[f64], d: &[f64], p: &[f64], k_max: usize) {
    let m = p.len();
    let u_fixed: Vec<Fixed> = u.iter().map(|x| as_fixed(*x)).collect();
    let d_fixed: Vec<Fixed> = d.iter().map(|x| as_fixed(*x)).collect();
    let p_fixed: Vec<Fixed> = p.iter().map(|x| as_fixed(*x)).collect();
    let mut b = DenseTensor::new(k_max + 1, m + 2, d.len());
    compute_boundary_set_prob_any_loss_from_tensor_predicated_simd(
        &u_fixed, &d_fixed, &p_fixed, k_max, m, &mut b,
    );
    let b_float = float_boundary(u, d, p, k_max);
    assert_eq!(b.view_buffer().len(), (k_max + 1) * (m + 2) * d.len());
    for k in 0..k_max + 1 {
        for i in 0..m + 2 {
            for e in 0..d.len() {
                assert!((as_float(b.get(k, i, e)) - b_float[k][i][e]).abs() < 0.00000001);
            }
        }
    }
}

#[allow(non_snake_case)]
#[test]
fn compare_IPRP_to_python() {
    let M = 10;
    let K = 3;

    let p = vec![0.5; M];
    check_prefix_and_suffix(&p, K);

    let p: Vec<f64> = (0..M).map(|i| 0.25 + (i % 2) as f64 * 0.5).collect();
    check_prefix_and_suffix(&p, K);
}

#[allow(non_snake_case)]
#[test]
fn compare_B_to_python() {
    let M = 10;
    let K = 3;
    let retrieved_costs: Vec<f64> = vec![1.0; M];
    let distinct_costs: Vec<f64> = vec![0.0, 1.0];

    let p = vec![0.5; M];
    check_boundary(&retrieved_costs, &distinct_costs, &p, K);

    let p: Vec<f64> = (0..M).map(|i| 0.25 + (i % 2) as f64 * 0.5).collect();
    check_boundary(&retrieved_costs, &distinct_costs, &p, K);
}

#[allow(non_snake_case)]
#[test]
fn iprp_can_reuse_matrices() {
    let M = 10;
    let K = 3;
    let p = vec![Fixed::half(); M];

    let mut IP = DenseMatrix::new(K + 1, M + 2);
    let mut RP = DenseMatrix::new(K + 1, M + 2);

    compute_prob_from_tensors(&p, K, M, &mut IP, &mut RP);

    let mut IP_clone = IP.clone();
    let mut RP_clone = RP.clone();

    compute_prob_from_tensors(&p, K, M, &mut IP_clone, &mut RP_clone);

    let norm_of_IP_difference = IP
        .view_buffer()
        .iter()
        .zip(IP_clone.view_buffer().iter())
        .take((K + 1) * (M + 2))
        .fold(0.0, |acc, (orig, clone)| {
            acc + (as_float(*orig) - as_float(*clone)) * (as_float(*orig) - as_float(*clone))
        })
        .sqrt();

    assert!(norm_of_IP_difference < 0.0000001);

    let norm_of_RP_difference = RP
        .view_buffer()
        .iter()
        .zip(RP_clone.view_buffer().iter())
        .take((K + 1) * (M + 2))
        .fold(0.0, |acc, (orig, clone)| {
            acc + (as_float(*orig) - as_float(*clone)) * (as_float(*orig) - as_float(*clone))
        })
        .sqrt();

    assert!(norm_of_RP_difference < 0.0000001);

    assert_eq!(IP.view_buffer(), IP_clone.view_buffer());
    assert_eq!(RP.view_buffer(), RP_clone.view_buffer());
}

#[test]
fn refilling_after_a_larger_query_leaves_no_residue() {
    let k = 2;
    let long = vec![as_fixed(0.3); 7];
    let short = vec![as_fixed(0.6), as_fixed(0.1)];

    let mut ip = DenseMatrix::new(k + 1, 9);
    let mut rp = DenseMatrix::new(k + 1, 9);
    compute_prob_from_tensors(&long, k, 7, &mut ip, &mut rp);
    ip.reuse_as(k + 1, 4);
    rp.reuse_as(k + 1, 4);
    compute_prob_from_tensors(&short, k, 2, &mut ip, &mut rp);

    let mut fresh_ip = DenseMatrix::new(k + 1, 4);
    let mut fresh_rp = DenseMatrix::new(k + 1, 4);
    compute_prob_from_tensors(&short, k, 2, &mut fresh_ip, &mut fresh_rp);

    for row in 0..k + 1 {
        for column in 0..3 {
            assert_eq!(ip.get(row, column), fresh_ip.get(row, column));
            assert_eq!(rp.get(row, column + 1), fresh_rp.get(row, column + 1));
        }
    }

    let utilities = vec![Fixed::one(), Fixed::zero()];
    let distinct = vec![Fixed::one(), Fixed::zero()];
    let mut b = DenseTensor::new(k + 1, 9, 2);
    let long_utilities = vec![Fixed::one(); 7];
    compute_boundary_set_prob_any_loss_from_tensor_predicated_simd(
        &long_utilities, &distinct, &long, k, 7, &mut b,
    );
    b.reuse_as(k + 1, 4, 2);
    compute_boundary_set_prob_any_loss_from_tensor_predicated_simd(
        &utilities, &distinct, &short, k, 2, &mut b,
    );
    let mut fresh_b = DenseTensor::new(k + 1, 4, 2);
    compute_boundary_set_prob_any_loss_from_tensor_predicated_simd(
        &utilities, &distinct, &short, k, 2, &mut fresh_b,
    );
    for row in 0..k + 1 {
        for column in 1..4 {
            for e in 0..2 {
                assert_eq!(b.get(row, column, e), fresh_b.get(row, column, e));
            }
        }
    }
}

#[test]
fn tables_of_two_fair_items() {
    let p = vec![Fixed::half(), Fixed::half()];
    let mut ip = DenseMatrix::new(2, 4);
    let mut rp = DenseMatrix::new(2, 4);
    compute_prob_from_tensors(&p, 1, 2, &mut ip, &mut rp);

    assert_eq!(ip.get(0, 0).raw(), SCALE);
    assert_eq!(ip.get(1, 0).raw(), 0);
    assert_eq!(ip.get(0, 1).raw(), SCALE / 2);
    assert_eq!(ip.get(1, 1).raw(), SCALE / 2);
    assert_eq!(ip.get(0, 2).raw(), SCALE / 4);
    assert_eq!(ip.get(1, 2).raw(), SCALE / 2);

    assert_eq!(rp.get(0, 3).raw(), SCALE);
    assert_eq!(rp.get(1, 3).raw(), 0);
    assert_eq!(rp.get(0, 2).raw(), SCALE / 2);
    assert_eq!(rp.get(1, 2).raw(), SCALE / 2);
    assert_eq!(rp.get(0, 1).raw(), SCALE / 4);
    assert_eq!(rp.get(1, 1).raw(), SCALE / 2);

    let utilities = vec![Fixed::one(), Fixed::zero()];
    let distinct = vec![Fixed::one(), Fixed::zero()];
    let mut b = DenseTensor::new(2, 4, 2);
    compute_boundary_set_prob_any_loss_from_tensor_predicated_simd(
        &utilities, &distinct, &p, 1, 2, &mut b,
    );
    // from position 2 on, the first present item is the second one, of utility zero
    assert_eq!(b.get(1, 2, 0).raw(), 0);
    assert_eq!(b.get(1, 2, 1).raw(), SCALE / 2);
    // from position 1 on, it is the first item with one half, the second with a quarter
    assert_eq!(b.get(1, 1, 0).raw(), SCALE / 2);
    assert_eq!(b.get(1, 1, 1).raw(), SCALE / 4);
    assert_eq!(b.get(0, 1, 0).raw(), 0);
    assert_eq!(b.get(1, 3, 1).raw(), 0);
}

#[test]
fn columns_of_the_prefix_table_sum_to_at_most_one() {
    let k = 3;
    let m = 12;
    let p: Vec<Fixed> = (0..m).map(|i| Fixed::from_raw(SCALE / 3 + (i as i64) * (SCALE / 17))).collect();
    let mut ip = DenseMatrix::new(m + 1, m + 2);
    let mut rp = DenseMatrix::new(m + 1, m + 2);
    compute_prob_from_tensors(&p, m, m, &mut ip, &mut rp);
    for j in 0..m + 1 {
        let mut upto_k: i64 = 0;
        let mut all: i64 = 0;
        for row in 0..m + 1 {
            let cell = ip.get(row, j).raw();
            assert!(0 <= cell && cell <= SCALE);
            assert!(0 <= rp.get(row, j + 1).raw() && rp.get(row, j + 1).raw() <= SCALE);
            if row <= k {
                upto_k += cell;
            }
            all += cell;
        }
        let tail = all - upto_k;
        assert!(0 <= upto_k);
        assert!(upto_k <= SCALE - tail);
        // each of the j steps loses less than two units in each of the j + 1 rows
        assert!(all >= SCALE - 2 * (j as i64) * (j as i64 + 1));
        assert!(upto_k >= SCALE - tail - 2 * (j as i64) * (j as i64 + 1));
    }
    let mut first_column: i64 = 0;
    for row in 0..m + 1 {
        first_column += ip.get(row, 0).raw();
    }
    assert_eq!(first_column, SCALE);
}

#[test]
fn rounding_takes_mass_from_a_column() {
    let third = Fixed::from_raw(333_333_333_333_333);
    let p = vec![third, third];
    let mut ip = DenseMatrix::new(3, 4);
    let mut rp = DenseMatrix::new(3, 4);
    compute_prob_from_tensors(&p, 2, 2, &mut ip, &mut rp);
    let sum = ip.get(0, 2).raw() + ip.get(1, 2).raw() + ip.get(2, 2).raw();
    assert!(sum < SCALE);
    assert!(sum > SCALE - 4);
}

#[test]
fn no_place_in_the_top_k_uses_the_first_row_only() {
    let p = vec![Fixed::from_raw(SCALE / 4), Fixed::from_raw(SCALE / 2)];
    let mut ip = DenseMatrix::new(1, 4);
    let mut rp = DenseMatrix::new(1, 4);
    compute_prob_from_tensors(&p, 0, 2, &mut ip, &mut rp);
    assert_eq!(ip.get(0, 0).raw(), SCALE);
    assert_eq!(ip.get(0, 1).raw(), 3 * (SCALE / 4));
    assert_eq!(ip.get(0, 2).raw(), 3 * (SCALE / 8));
    assert_eq!(rp.get(0, 3).raw(), SCALE);
    assert_eq!(rp.get(0, 2).raw(), SCALE / 2);
    assert_eq!(rp.get(0, 1).raw(), 3 * (SCALE / 8));

    let utilities = vec![Fixed::one(), Fixed::one()];
    let distinct = vec![Fixed::one()];
    let mut b = DenseTensor::new(1, 4, 1);
    b.set(0, 1, 0, Fixed::one());
    b.set(0, 3, 0, Fixed::one());
    compute_boundary_set_prob_any_loss_from_tensor_predicated_simd(
        &utilities, &distinct, &p, 0, 2, &mut b,
    );
    assert_eq!(b.get(0, 1, 0), Fixed::zero());
    assert_eq!(b.get(0, 2, 0), Fixed::zero());
    assert_eq!(b.get(0, 3, 0), Fixed::zero());
}

#[test]
fn an_empty_query_has_tables_of_two_columns() {
    let p: Vec<Fixed> = vec![];
    let mut ip = DenseMatrix::new(3, 2);
    let mut rp = DenseMatrix::new(3, 2);
    ip.set(1, 0, Fixed::one());
    rp.set(2, 1, Fixed::one());
    compute_prob_from_tensors(&p, 2, 0, &mut ip, &mut rp);
    assert_eq!(ip.get(0, 0), Fixed::one());
    assert_eq!(ip.get(1, 0), Fixed::zero());
    assert_eq!(ip.get(2, 0), Fixed::zero());
    assert_eq!(rp.get(0, 1), Fixed::one());
    assert_eq!(rp.get(1, 1), Fixed::zero());
    assert_eq!(rp.get(2, 1), Fixed::zero());
}
