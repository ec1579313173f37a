use ragbooster::fixed::{Fixed, SCALE};
use ragbooster::mle::mle_importance;
use ragbooster::mle::types::Retrieval;

fn draw(state: &mut u64) -> u64 {
    *state = state.wrapping_mul(6364136223846793005).wrapping_add(1442695040888963407);
    *state >> 33
}

fn bernoulli_queries(count: usize, corpus_size: usize, d: usize, seed: u64) -> Vec<Retrieval> {
    let mut state = seed;
    let mut queries = Vec::with_capacity(count);
    for _ in 0..count {
        let mut retrieved: Vec<usize> = Vec::with_capacity(d);
        while retrieved.len() < d {
            let id = (draw(&mut state) as usize) % corpus_size;
            if !retrieved.contains(&id) {
                retrieved.push(id);
            }
        }
        // right with probability one quarter
        let utilities: Vec<Fixed> = (0..d)
            .map(|_| if draw(&mut state) % 4 == 0 { Fixed::one() } else { Fixed::zero() })
            .collect();
        queries.push(Retrieval::new(retrieved, utilities));
    }
    queries
}

fn distance(a: &[Fixed], b: &[Fixed]) -> f64 {
    let squared: f64 = a
        .iter()
        .zip(b.iter())
        .map(|(x, y)| {
            let difference = (x.raw() - y.raw()) as f64 / SCALE as f64;
            difference * difference
        })
        .sum();
    squared.sqrt()
}

fn run_with(n_jobs: usize) -> Vec<Fixed> {
    let corpus_size = 1000;
    let queries = bernoulli_queries(1000, corpus_size, 50, 2024);
    mle_importance(queries, corpus_size, None, 10, Fixed::from_raw(SCALE / 10), 10, n_jobs)
}

#[test]
fn a_thousand_queries_with_two_workers() {
    let single = run_with(1);
    let double = run_with(2);
    assert_eq!(single.len(), 1000);
    assert!(single.iter().all(|x| 0 <= x.raw() && x.raw() <= SCALE));
    assert!(single.iter().any(|x| x.raw() > SCALE / 2));
    assert!(single.iter().any(|x| x.raw() < SCALE / 2));
    assert!(distance(&single, &double) < 0.0000001);
    assert_eq!(single, double);
}

#[test]
fn a_thousand_queries_with_four_workers() {
    let single = run_with(1);
    let fourfold = run_with(4);
    assert!(distance(&single, &fourfold) < 0.0000001);
    assert_eq!(single, fourfold);
}

#[test]
fn many_queries_over_a_large_corpus() {
    let corpus_size = 100_000;
    let queries = bernoulli_queries(50_000, corpus_size, 50, 99);
    let v = mle_importance(queries, corpus_size, None, 10, Fixed::from_raw(SCALE / 10), 1, 4);
    assert_eq!(v.len(), corpus_size);
    assert!(v.iter().all(|x| 0 <= x.raw() && x.raw() <= SCALE));
    assert!(v.iter().any(|x| x.raw() != SCALE / 2));
}
