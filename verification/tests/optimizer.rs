use ragbooster::fixed::{Fixed, SCALE};
use ragbooster::learn_importance;
use ragbooster::mle::types::{Grouping, Retrieval};
use ragbooster::mle::{adjust_for_groups, ascend, mle_importance, v_grouped};
use ragbooster::{decode_n_jobs, largest_retrieved};

fn parts(value: f64) -> Fixed {
    Fixed::from_raw((value * SCALE as f64).round() as i64)
}

fn next_number(state: &mut u64) -> u64 {
    *state = state.wrapping_mul(6364136223846793005).wrapping_add(1442695040888963407);
    *state >> 33
}

fn drawn_queries(count: usize, corpus_size: usize, d: usize, seed: u64) -> Vec<Retrieval> {
    let mut state = seed;
    let mut queries = Vec::with_capacity(count);
    for _ in 0..count {
        let mut retrieved: Vec<usize> = Vec::with_capacity(d);
        while retrieved.len() < d {
            let id = (next_number(&mut state) as usize) % corpus_size;
            if !retrieved.contains(&id) {
                retrieved.push(id);
            }
        }
        let utilities: Vec<Fixed> = (0..d)
            .map(|_| if next_number(&mut state) % 4 == 0 { Fixed::one() } else { Fixed::zero() })
            .collect();
        queries.push(Retrieval::new(retrieved, utilities));
    }
    queries
}

#[test]
fn a_step_moves_along_the_gradient_and_clips() {
    let mut v = vec![parts(0.5), parts(0.95), parts(0.05), parts(0.5)];
    let g = vec![parts(1.0), parts(1.0), parts(-1.0), parts(0.0)];
    ascend(&mut v, &g, parts(0.1));
    assert_eq!(v, vec![parts(0.6), parts(1.0), parts(0.0), parts(0.5)]);
}

#[test]
fn group_means_round_toward_zero() {
    let v = vec![parts(0.2), parts(0.4), parts(1.0), parts(0.5), parts(0.0)];
    let grouping = Grouping::new(4, vec![0, 0, 2, 2, 2]);
    let means = v_grouped(&v, &grouping);
    assert_eq!(means, vec![parts(0.3), Fixed::zero(), parts(0.5), Fixed::zero()]);

    let thirds = vec![Fixed::one(), Fixed::zero(), Fixed::zero()];
    let one_group = Grouping::new(1, vec![0, 0, 0]);
    assert_eq!(v_grouped(&thirds, &one_group), vec![Fixed::from_raw(333_333_333_333_333)]);
}

#[test]
fn projection_gives_each_item_the_mean_of_its_group() {
    let mut v = vec![parts(0.2), parts(0.4), parts(1.0), parts(0.5), parts(0.0)];
    let grouping = Grouping::new(3, vec![0, 1, 0, 1, 2]);
    assert_eq!(grouping.group_assignments(), &[0, 1, 0, 1, 2]);
    adjust_for_groups(&mut v, &grouping);
    assert_eq!(v, vec![parts(0.6), parts(0.45), parts(0.6), parts(0.45), parts(0.0)]);
}

#[test]
fn without_epochs_every_item_keeps_one_half() {
    let queries = vec![Retrieval::new(vec![0, 2], vec![Fixed::one(), Fixed::zero()])];
    let v = mle_importance(queries, 4, None, 1, parts(0.1), 0, 1);
    assert_eq!(v, vec![Fixed::half(); 4]);
}

#[test]
fn one_epoch_by_hand() {
    // top-1, one query, a right answer before a wrong one: the gradient is (1, 0)
    let queries = vec![Retrieval::new(vec![2, 0], vec![Fixed::one(), Fixed::zero()])];
    let v = mle_importance(queries, 3, None, 1, parts(0.1), 1, 1);
    assert_eq!(v, vec![parts(0.5), parts(0.5), parts(0.6)]);

    // the wrong answer first: the gradient is (-0.5, 0.5)
    let queries = vec![Retrieval::new(vec![2, 0], vec![Fixed::zero(), Fixed::one()])];
    let v = mle_importance(queries, 3, None, 1, parts(0.2), 1, 1);
    assert_eq!(v, vec![parts(0.6), parts(0.5), parts(0.4)]);
}

#[test]
fn an_empty_retrieval_leaves_the_weights_alone() {
    let alone = vec![Retrieval::new(vec![], vec![])];
    let v = mle_importance(alone, 5, None, 3, parts(0.1), 4, 1);
    assert_eq!(v, vec![Fixed::half(); 5]);

    // next to another query it changes nothing but the number of queries
    let with_empty = vec![
        Retrieval::new(vec![1, 3], vec![Fixed::one(), Fixed::zero()]),
        Retrieval::new(vec![], vec![]),
    ];
    let v = mle_importance(with_empty, 5, None, 1, parts(0.1), 1, 1);
    assert_eq!(v, vec![parts(0.5), parts(0.55), parts(0.5), parts(0.5), parts(0.5)]);
}

#[test]
fn no_queries_leave_the_weights_alone() {
    let v = mle_importance(vec![], 3, None, 2, parts(0.1), 5, 1);
    assert_eq!(v, vec![Fixed::half(); 3]);
    let v = mle_importance(vec![], 3, None, 2, parts(0.1), 5, 4);
    assert_eq!(v, vec![Fixed::half(); 3]);
}

#[test]
fn weights_stay_probabilities_and_do_not_depend_on_the_workers() {
    let corpus_size = 200;
    let queries = drawn_queries(120, corpus_size, 20, 11);
    let rate = parts(0.1);
    let single = mle_importance(queries.clone(), corpus_size, None, 5, rate, 4, 1);
    assert_eq!(single.len(), corpus_size);
    assert!(single.iter().all(|x| 0 <= x.raw() && x.raw() <= SCALE));
    assert!(single.iter().any(|x| x.raw() != SCALE / 2));
    for n_jobs in [2, 4] {
        let several = mle_importance(queries.clone(), corpus_size, None, 5, rate, 4, n_jobs);
        let squared: f64 = single
            .iter()
            .zip(several.iter())
            .map(|(a, b)| {
                let difference = (a.raw() - b.raw()) as f64 / SCALE as f64;
                difference * difference
            })
            .sum();
        assert!(squared.sqrt() < 0.0000001);
        assert_eq!(several, single);
    }
}

#[test]
fn a_large_rate_is_clipped() {
    let queries = vec![Retrieval::new(vec![0, 1], vec![Fixed::zero(), Fixed::one()])];
    let v = mle_importance(queries, 2, None, 1, parts(1000.0), 3, 1);
    assert!(v.iter().all(|x| 0 <= x.raw() && x.raw() <= SCALE));
    assert_eq!(v[0], Fixed::zero());
    assert_eq!(v[1], Fixed::one());
}

#[test]
fn groups_share_one_weight_after_every_run() {
    let corpus_size = 60;
    let queries = drawn_queries(40, corpus_size, 10, 3);
    let assignments: Vec<usize> = (0..corpus_size).map(|i| i % 7).collect();
    let grouping = Grouping::new(7, assignments.clone());
    for epochs in [1, 2, 5] {
        let v = mle_importance(queries.clone(), corpus_size, Some(&grouping), 3, parts(0.1), epochs, 2);
        assert!(v.iter().all(|x| 0 <= x.raw() && x.raw() <= SCALE));
        for i in 0..corpus_size {
            assert_eq!(v[i], v[assignments[i]]);
        }
    }
}

#[test]
fn the_number_of_workers_is_decoded() {
    assert_eq!(decode_n_jobs(None, 8), 1);
    assert_eq!(decode_n_jobs(Some(3), 8), 3);
    assert_eq!(decode_n_jobs(Some(1), 8), 1);
    assert_eq!(decode_n_jobs(Some(0), 8), 8);
    assert_eq!(decode_n_jobs(Some(-1), 8), 8);
}

#[test]
fn the_corpus_reaches_up_to_the_largest_id() {
    let queries = vec![
        Retrieval::new(vec![3, 0], vec![Fixed::one(), Fixed::zero()]),
        Retrieval::new(vec![], vec![]),
        Retrieval::new(vec![1, 5, 2], vec![Fixed::zero(), Fixed::one(), Fixed::zero()]),
    ];
    assert_eq!(largest_retrieved(&queries), 5);
    assert_eq!(largest_retrieved(&vec![]), 0);

    let learned = learn_importance(queries.clone(), 2, parts(0.1), 3, None, None);
    assert_eq!(learned, mle_importance(queries.clone(), 6, None, 2, parts(0.1), 3, 1));
    let with_workers = learn_importance(queries.clone(), 2, parts(0.1), 3, Some(-1), None);
    assert_eq!(with_workers, learned);
    let with_two = learn_importance(queries, 2, parts(0.1), 3, Some(2), None);
    assert_eq!(with_two, learned);
}

#[test]
fn groups_are_counted_from_their_ids() {
    let queries = vec![
        Retrieval::new(vec![3, 0], vec![Fixed::one(), Fixed::zero()]),
        Retrieval::new(vec![1, 2], vec![Fixed::zero(), Fixed::one()]),
    ];
    let assignments = vec![0, 1, 1, 2];
    let learned = learn_importance(queries.clone(), 2, parts(0.1), 2, Some(1), Some(assignments.clone()));
    let grouping = Grouping::new(3, assignments);
    assert_eq!(learned, mle_importance(queries, 4, Some(&grouping), 2, parts(0.1), 2, 1));
    assert_eq!(learned[1], learned[2]);
}
