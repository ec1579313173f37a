use ragbooster::fixed::{Fixed, SCALE};
use ragbooster::mle::gradient::{
    additive_any_loss_mle_gradient,
    distinct_utilities,
    gradient_for_distinct,
};
use ragbooster::mle::reduction::{
    accumulate_gradient,
    mle_importance_gradient,
    mle_importance_gradient_parallel,
};
use ragbooster::mle::tensors::{DenseMatrix, DenseTensor};
use ragbooster::mle::types::Retrieval;
use ragbooster::mle::{max_distinct_retrieved, max_distinct_utility_contributions};

fn units(value: f64) -> Fixed {
    Fixed::from_raw((value * SCALE as f64).round() as i64)
}

fn pseudo_random(state: &mut u64) -> u64 {
    *state = state.wrapping_mul(6364136223846793005).wrapping_add(1442695040888963407);
    *state >> 33
}

fn synthetic_queries(count: usize, corpus_size: usize, d: usize, seed: u64) -> Vec<Retrieval> {
    let mut state = seed;
    let mut queries = Vec::with_capacity(count);
    for _ in 0..count {
        let mut retrieved: Vec<usize> = Vec::with_capacity(d);
        while retrieved.len() < d {
            let id = (pseudo_random(&mut state) as usize) % corpus_size;
            if !retrieved.contains(&id) {
                retrieved.push(id);
            }
        }
        let utilities: Vec<Fixed> = (0..d)
            .map(|_| if pseudo_random(&mut state) % 4 == 0 { Fixed::one() } else { Fixed::zero() })
            .collect();
        queries.push(Retrieval::new(retrieved, utilities));
    }
    queries
}

#[test]
fn distinct_utilities_keep_the_order_of_first_appearance() {
    let utilities = vec![units(0.5), units(1.0), units(0.5), units(0.0), units(1.0), units(0.25)];
    let distinct = distinct_utilities(&utilities);
    assert_eq!(distinct, vec![units(0.5), units(1.0), units(0.0), units(0.25)]);
    assert_eq!(distinct_utilities(&[]), vec![]);
}

#[test]
fn gradient_of_a_single_item() {
    let utilities = vec![Fixed::one()];
    let p = vec![Fixed::half()];
    let mut ip = DenseMatrix::new(2, 3);
    let mut rp = DenseMatrix::new(2, 3);
    let mut b = DenseTensor::new(2, 3, 1);
    let s = additive_any_loss_mle_gradient(&utilities, &p, 1, 1, &mut ip, &mut rp, &mut b);
    assert_eq!(s, vec![Fixed::one()]);

    let s = additive_any_loss_mle_gradient(&utilities, &p, 1, 2, &mut ip, &mut rp, &mut b);
    assert_eq!(s, vec![Fixed::half()]);
}

#[test]
fn gradient_of_a_right_and_a_wrong_item() {
    // top-1 over a right answer followed by a wrong one, both present with one half:
    // the first item gains its own utility where nothing stands before it, and what
    // it takes from the wrong item behind it; the second item, of utility zero,
    // gains nothing and has nothing behind it to displace.
    let utilities = vec![Fixed::one(), Fixed::zero()];
    let p = vec![Fixed::half(), Fixed::half()];
    let mut ip = DenseMatrix::new(2, 4);
    let mut rp = DenseMatrix::new(2, 4);
    let mut b = DenseTensor::new(2, 4, 2);
    let s = additive_any_loss_mle_gradient(&utilities, &p, 1, 1, &mut ip, &mut rp, &mut b);
    assert_eq!(s, vec![Fixed::one(), Fixed::zero()]);

    // the wrong item first: it loses what it takes from the right item behind it
    let utilities = vec![Fixed::zero(), Fixed::one()];
    let s = additive_any_loss_mle_gradient(&utilities, &p, 1, 1, &mut ip, &mut rp, &mut b);
    assert_eq!(s, vec![Fixed::from_raw(-SCALE / 2), Fixed::half()]);
}

#[test]
fn gradient_is_shared_among_places_and_queries() {
    let utilities = vec![Fixed::one(), Fixed::zero(), Fixed::one()];
    let p = vec![units(0.5), units(0.25), units(0.75)];
    let mut ip = DenseMatrix::new(3, 5);
    let mut rp = DenseMatrix::new(3, 5);
    let mut b = DenseTensor::new(3, 5, 2);
    let s = additive_any_loss_mle_gradient(&utilities, &p, 2, 4, &mut ip, &mut rp, &mut b);
    // by hand: mu = 1 / (2 * 4) = 0.125
    // position 1: own 0.125 * (RP[0][2] + RP[1][2]) with RP[0][2] = 0.1875 and
    //   RP[1][2] = 0.625; displaced by utility zero 0.125 * B[2][2][zero]
    //   with B[2][2][zero] = 0
    // position 2: displaced by utility one -0.125 * (IP[0][1] * B[2][3] + IP[1][1] * B[1][3])
    //   with B[1][3][one] = 0.75 and B[2][3][one] = 0
    // position 3: own 0.125 * (IP[0][2] + IP[1][2]) with IP[0][2] = 0.375
    //   and IP[1][2] = 0.5; nothing behind it
    assert_eq!(s.len(), 3);
    assert_eq!(s[0].raw(), 101_562_500_000_000);
    assert_eq!(s[1].raw(), -46_875_000_000_000);
    assert_eq!(s[2].raw(), 109_375_000_000_000);
}

#[test]
fn no_place_in_the_top_k_gives_no_gradient() {
    let utilities = vec![Fixed::one(), Fixed::zero()];
    let p = vec![Fixed::half(), Fixed::half()];
    let mut ip = DenseMatrix::new(1, 4);
    let mut rp = DenseMatrix::new(1, 4);
    let mut b = DenseTensor::new(1, 4, 2);
    let s = additive_any_loss_mle_gradient(&utilities, &p, 0, 3, &mut ip, &mut rp, &mut b);
    assert_eq!(s, vec![Fixed::zero(), Fixed::zero()]);
    assert_eq!(ip.get(0, 2).raw(), SCALE / 4);
}

#[test]
fn an_empty_query_has_an_empty_gradient() {
    let utilities: Vec<Fixed> = vec![];
    let p: Vec<Fixed> = vec![];
    let mut ip = DenseMatrix::new(4, 2);
    let mut rp = DenseMatrix::new(4, 2);
    let mut b = DenseTensor::new(4, 2, 0);
    let s = additive_any_loss_mle_gradient(&utilities, &p, 3, 1, &mut ip, &mut rp, &mut b);
    assert!(s.is_empty());
}

#[test]
fn the_kernel_reuses_larger_tables() {
    let utilities = vec![Fixed::one(), Fixed::zero()];
    let p = vec![Fixed::half(), Fixed::half()];
    let mut ip = DenseMatrix::new(4, 12);
    let mut rp = DenseMatrix::new(4, 12);
    let mut b = DenseTensor::new(4, 12, 3);
    let long_utilities = vec![units(1.0), units(0.0), units(0.5), units(1.0), units(0.5)];
    let long_p = vec![units(0.9), units(0.8), units(0.7), units(0.6), units(0.5)];
    let _ = additive_any_loss_mle_gradient(&long_utilities, &long_p, 3, 1, &mut ip, &mut rp, &mut b);
    let s = additive_any_loss_mle_gradient(&utilities, &p, 1, 1, &mut ip, &mut rp, &mut b);
    assert_eq!(s, vec![Fixed::one(), Fixed::zero()]);

    let distinct = distinct_utilities(&utilities);
    let again = gradient_for_distinct(&utilities, &distinct, &p, 1, 1, &mut ip, &mut rp, &mut b);
    assert_eq!(again, s);
}

#[test]
fn contributions_to_one_item_add_up() {
    // the same item retrieved at both positions of a query, and once more by a second query
    let first = Retrieval::new(vec![1, 1], vec![Fixed::one(), Fixed::zero()]);
    let second = Retrieval::new(vec![1], vec![Fixed::one()]);
    let queries = vec![first, second];
    let v = vec![Fixed::half(); 3];
    let sums = accumulate_gradient(&queries, &v, 1, 2, 2, 2);
    // first query: (1 + 0) / 2 queries; second query: 1 / 2 queries
    assert_eq!(sums, vec![0, SCALE as i128, 0]);
    let g = mle_importance_gradient(&queries, &v, 1, 2, 2, 2);
    assert_eq!(g, vec![Fixed::zero(), Fixed::one(), Fixed::zero()]);
}

#[test]
fn a_query_with_more_utilities_than_foreseen_is_served() {
    // three utilities that differ by less than a hundredth count as one beforehand
    let utilities = vec![units(0.251), units(0.252), units(0.253)];
    let queries = vec![Retrieval::new(vec![0, 1, 2], utilities.clone())];
    assert_eq!(max_distinct_utility_contributions(&queries), 1);
    assert_eq!(max_distinct_retrieved(&queries), 3);
    let v = vec![Fixed::half(); 3];
    let g = mle_importance_gradient(&queries, &v, 2, 3, 1, 1);

    let p = vec![Fixed::half(); 3];
    let mut ip = DenseMatrix::new(3, 5);
    let mut rp = DenseMatrix::new(3, 5);
    let mut b = DenseTensor::new(3, 5, 3);
    let s = additive_any_loss_mle_gradient(&utilities, &p, 2, 1, &mut ip, &mut rp, &mut b);
    assert_eq!(g, s);
}

#[test]
fn gradient_of_no_queries_is_zero() {
    let queries: Vec<Retrieval> = vec![];
    let v = vec![Fixed::half(); 4];
    assert_eq!(mle_importance_gradient(&queries, &v, 3, 0, 0, 0), vec![Fixed::zero(); 4]);
    assert_eq!(mle_importance_gradient_parallel(&queries, &v, 3, 0, 0, 0, 4), vec![Fixed::zero(); 4]);
}

#[test]
fn chunks_give_the_gradient_of_the_whole() {
    let corpus_size = 40;
    let queries = synthetic_queries(23, corpus_size, 8, 7);
    let v: Vec<Fixed> = (0..corpus_size).map(|i| Fixed::from_raw((i as i64 + 1) * (SCALE / 41))).collect();
    let m_max = max_distinct_retrieved(&queries);
    let e_max = max_distinct_utility_contributions(&queries);
    assert_eq!(m_max, 8);
    assert_eq!(e_max, 2);
    let sequential = mle_importance_gradient(&queries, &v, 3, m_max, e_max, queries.len());
    assert!(sequential.iter().any(|g| g.raw() != 0));
    for n_jobs in [1, 2, 3, 4, 5, 23, 24, 100] {
        let parallel =
            mle_importance_gradient_parallel(&queries, &v, 3, m_max, e_max, queries.len(), n_jobs);
        assert_eq!(parallel, sequential);
    }
}

#[test]
fn a_chunk_list_in_another_order_would_be_noticed() {
    // two queries that contribute to different items: the sums of the chunks must
    // land on the items of the whole list
    let queries = vec![
        Retrieval::new(vec![0], vec![Fixed::one()]),
        Retrieval::new(vec![1], vec![Fixed::zero()]),
    ];
    let v = vec![Fixed::half(); 2];
    let g = mle_importance_gradient_parallel(&queries, &v, 1, 1, 1, 2, 2);
    assert_eq!(g, vec![Fixed::half(), Fixed::zero()]);
}

#[test]
fn the_largest_counts_are_taken_over_all_queries() {
    let queries = vec![
        Retrieval::new(vec![0, 1], vec![units(1.0), units(1.0)]),
        Retrieval::new(vec![0, 1, 2, 3], vec![units(0.0), units(1.0), units(0.5), units(0.504)]),
        Retrieval::new(vec![], vec![]),
    ];
    assert_eq!(max_distinct_retrieved(&queries), 4);
    // 0, 100 and 50 hundredths; 0.504 falls onto 0.5
    assert_eq!(max_distinct_utility_contributions(&queries), 3);
    let none: Vec<Retrieval> = vec![];
    assert_eq!(max_distinct_retrieved(&none), 0);
    assert_eq!(max_distinct_utility_contributions(&none), 0);
}
