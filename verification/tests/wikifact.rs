use ragbooster::adapters::{assign_groups, index_questions, Group, QuestionAnswering};
use ragbooster::fixed::{Fixed, SCALE};
use ragbooster::mle::{mle_importance, v_grouped};

const K: usize = 10;
const NUM_STEPS: usize = 100;

fn learning_rate() -> Fixed {
    Fixed::from_raw(SCALE / 10)
}

fn strings(values: &[&str]) -> Vec<String> {
    values.iter().map(|value| value.to_string()).collect()
}

fn question(correct: &[&str], retrieved: &[(&str, &str)]) -> QuestionAnswering {
    QuestionAnswering {
        question: format!("who wrote {}", correct[0]),
        correct_answers: strings(correct),
        retrieved_websites: retrieved.iter().map(|(website, _)| website.to_string()).collect(),
        retrieved_answers: retrieved.iter().map(|(_, answer)| answer.to_string()).collect(),
    }
}

fn author_questions() -> Vec<QuestionAnswering> {
    vec![
        question(
            &["Jane Austen"],
            &[
                ("en.wikipedia.org/emma", "Jane Austen"),
                ("books.example.com/emma", "Jane Austen"),
                ("forum.example.net/t/12", "Emily Bronte"),
                ("de.wikipedia.org/emma", "Jane Austen"),
            ],
        ),
        question(
            &["Franz Kafka", "Kafka"],
            &[
                ("forum.example.net/t/7", "Max Brod"),
                ("de.wikipedia.org/prozess", "Franz Kafka"),
                ("books.example.com/trial", "Kafka"),
            ],
        ),
        question(
            &["Homer"],
            &[
                ("quiz.example.org/odyssey", "Virgil"),
                ("en.wikipedia.org/odyssey", "Homer"),
                ("forum.example.net/t/12", "Virgil"),
                ("books.example.com/odyssey", "Homer"),
                ("quiz.example.org/iliad", "Homer"),
            ],
        ),
        question(
            &["Mary Shelley"],
            &[
                ("books.example.com/frankenstein", "Mary Shelley"),
                ("quiz.example.org/odyssey", "Percy Shelley"),
                ("en.wikipedia.org/frankenstein", "Mary Shelley"),
            ],
        ),
        question(
            &["Dante"],
            &[
                ("forum.example.net/t/7", "Petrarch"),
                ("quiz.example.org/iliad", "Dante"),
                ("en.wikipedia.org/emma", "Dante"),
                ("de.wikipedia.org/prozess", "Dante"),
                ("forum.example.net/t/12", "Boccaccio"),
                ("books.example.com/emma", "Dante"),
            ],
        ),
    ]
}

fn domain_groups() -> Vec<Group> {
    vec![
        Group {
            name: "wikipedia.org".to_string(),
            elements: strings(&[
                "en.wikipedia.org/emma",
                "de.wikipedia.org/emma",
                "de.wikipedia.org/prozess",
                "en.wikipedia.org/odyssey",
                "en.wikipedia.org/frankenstein",
            ]),
        },
        Group {
            name: "example.com".to_string(),
            elements: strings(&[
                "books.example.com/emma",
                "books.example.com/trial",
                "books.example.com/odyssey",
                "books.example.com/frankenstein",
            ]),
        },
        Group {
            name: "example.net".to_string(),
            elements: strings(&["forum.example.net/t/12", "forum.example.net/t/7"]),
        },
        Group {
            name: "example.org".to_string(),
            elements: strings(&["quiz.example.org/odyssey", "quiz.example.org/iliad"]),
        },
    ]
}

fn wikifact(n_jobs: usize) -> Vec<Fixed> {
    let (all_retrieved, website_indexer) = index_questions(&author_questions());
    let corpus_size = website_indexer.num_observed_strings();
    let v = mle_importance(all_retrieved, corpus_size, None, K, learning_rate(), NUM_STEPS, n_jobs);

    let index_to_website = website_indexer.create_reverse_index();
    assert_eq!(index_to_website.len(), v.len());
    v
}

fn wikifact_grouped(n_jobs: usize, rate: Fixed, num_steps: usize) -> Vec<Fixed> {
    let (all_retrieved, website_indexer) = index_questions(&author_questions());
    let corpus_size = website_indexer.num_observed_strings();
    let website_to_id = website_indexer.create_index();
    let (grouping, group_indexer) = assign_groups(&domain_groups(), &website_to_id);

    let v = mle_importance(all_retrieved, corpus_size, Some(&grouping), K, rate, num_steps, n_jobs);

    let means = v_grouped(&v, &grouping);
    let index_to_group = group_indexer.create_reverse_index();
    assert_eq!(index_to_group.len(), means.len());
    v
}

fn norm_of_difference(a: &[Fixed], b: &[Fixed]) -> f64 {
    a.iter()
        .zip(b.iter())
        .fold(0.0, |acc, (vs, vp)| {
            let difference = (vs.raw() - vp.raw()) as f64 / SCALE as f64;
            acc + difference * difference
        })
        .sqrt()
}

#[test]
fn parallelism() {
    let v_single_threaded = wikifact(1);
    let v_parallel = wikifact(num_cpus::get());

    assert_eq!(v_single_threaded.len(), 13);
    assert!(norm_of_difference(&v_single_threaded, &v_parallel) < 0.0000001);

    let v_four = wikifact(4);
    assert!(norm_of_difference(&v_single_threaded, &v_four) < 0.0000001);
    assert_eq!(v_single_threaded, v_four);
}

#[test]
fn wikifact_grouped_author_no_nan() {
    let v = wikifact_grouped(num_cpus::get(), Fixed::from_raw(SCALE / 10 * 9), 1000);

    for v_i in &v {
        assert!(0 <= v_i.raw() && v_i.raw() <= SCALE);
    }
}

#[test]
fn parallelism_grouped() {
    let v_single_threaded = wikifact_grouped(1, learning_rate(), NUM_STEPS);
    let v_parallel = wikifact_grouped(num_cpus::get(), learning_rate(), NUM_STEPS);

    assert!(norm_of_difference(&v_single_threaded, &v_parallel) < 0.0000001);

    let v_four = wikifact_grouped(4, learning_rate(), NUM_STEPS);
    assert_eq!(v_single_threaded, v_four);
}

#[test]
fn websites_that_answer_wrongly_lose_weight() {
    // with room for two answers only, a wrong answer takes the place of a right one
    let (all_retrieved, website_indexer) = index_questions(&author_questions());
    let corpus_size = website_indexer.num_observed_strings();
    let index = website_indexer.create_index();
    let (grouping, _) = assign_groups(&domain_groups(), &index);
    let half = SCALE / 2;

    let v = mle_importance(all_retrieved.clone(), corpus_size, None, 2, learning_rate(), 20, 1);
    assert!(v[index.get("forum.example.net/t/12").unwrap()].raw() < half);
    assert!(v[index.get("forum.example.net/t/7").unwrap()].raw() < half);
    assert!(v[index.get("books.example.com/emma").unwrap()].raw() > half);
    assert!(v[index.get("en.wikipedia.org/odyssey").unwrap()].raw() > half);

    let grouped =
        mle_importance(all_retrieved, corpus_size, Some(&grouping), 2, learning_rate(), 20, 1);
    assert!(grouped[index.get("forum.example.net/t/12").unwrap()].raw() < half);
    assert_eq!(
        grouped[index.get("forum.example.net/t/12").unwrap()],
        grouped[index.get("forum.example.net/t/7").unwrap()]
    );
    assert!(grouped[index.get("de.wikipedia.org/emma").unwrap()].raw() > half);
}
