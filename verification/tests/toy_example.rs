use ragbooster::fixed::{Fixed, SCALE};
use ragbooster::mle::types::{Grouping, Retrieval};
use ragbooster::mle::{mle_importance, v_grouped};

const HALF: i64 = SCALE / 2;

fn toy_retrievals() -> Vec<Retrieval> {
    // Wikipedia, Bing, Fakepedia, Google, DuckduckGo, Liepedia; the answers of
    // Fakepedia and Liepedia are wrong.
    let retrieved: Vec<usize> = vec![0, 1, 2, 3, 4, 5];
    let utilities: Vec<Fixed> = vec![
        Fixed::one(),
        Fixed::one(),
        Fixed::zero(),
        Fixed::one(),
        Fixed::one(),
        Fixed::zero(),
    ];
    vec![Retrieval::new(retrieved, utilities)]
}

fn tenth() -> Fixed {
    Fixed::from_raw(SCALE / 10)
}

#[test]
fn toy_example() {
    let corpus_size = 6;
    let v = mle_importance(toy_retrievals(), corpus_size, None, 3, tenth(), 3, 1);

    assert_eq!(v.len(), corpus_size);
    assert!(v[0].raw() > HALF);
    assert!(v[1].raw() > HALF);
    assert!(v[2].raw() < HALF); // Fakepedia gives the wrong answer
    assert!(v[3].raw() > HALF);
    assert!(v[4].raw() > HALF);
    assert!(v[5].raw() <= HALF); // Liepedia gives the wrong answer, but does not get updated here
}

#[test]
fn toy_example_with_groups() {
    let corpus_size = 6;

    let group_assignments = vec![
        0, // Wikipedia
        1, // Bing
        2, // Fakepedia
        1, // Google
        0, // DuckduckGo
        2, // Liepedia
    ];

    let grouping = Grouping::new(3, group_assignments);

    let v = mle_importance(toy_retrievals(), corpus_size, Some(&grouping), 3, tenth(), 3, 1);

    assert_eq!(v.len(), corpus_size);
    assert!(v[0].raw() > HALF);
    assert!(v[1].raw() > HALF);
    assert!(v[2].raw() < HALF); // Fakepedia gives the wrong answer
    assert!(v[3].raw() > HALF);
    assert!(v[4].raw() > HALF);
    assert!(v[5].raw() < HALF); // Liepedia gives the wrong answer

    let v_grouped = v_grouped(&v, &grouping);

    assert_eq!(v_grouped.len(), 3);
    assert!(v_grouped[0].raw() > HALF);
    assert!(v_grouped[1].raw() > HALF);
    assert!(v_grouped[2].raw() < HALF);

    for (item, group) in grouping.group_assignments().iter().enumerate() {
        assert_eq!(v[item], v_grouped[*group]);
    }
}
