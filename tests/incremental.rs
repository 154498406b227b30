use rand::distributions::{Alphanumeric, DistString};
use rand::rngs::StdRng;
use rand::{Rng, SeedableRng};
use simple_search::levenshtein::base::{levenshtein_matrix, levenshtein_similarity, weighted_edit};
use simple_search::levenshtein::incremental::IncrementalLevenshtein;
use simple_search::search_engine::SearchEngine;
use std::collections::HashMap;

fn key(x: f64) -> u64 {
    let bits = x.to_bits();
    if bits >> 63 == 1 {
        !bits
    } else {
        bits | (1 << 63)
    }
}

fn weighted(w: &simple_search::levenshtein::base::WeightedEdit) -> f64 {
    if w.longest == 0 {
        return 0.0;
    }
    let cost: f64 = w.runs.iter().map(|&n| (n as f64).ln_1p()).sum();
    (w.longest as f64 - cost) / w.longest as f64
}

fn print_matrix(matrix: &Vec<Vec<usize>>) {
    for row in matrix {
        println!("{:?}", row);
    }
}

#[test]
fn typing_one_character_at_a_time() {
    let mut inc = IncrementalLevenshtein::new("", "hello");
    for q in ["h", "he", "hel"] {
        let r = inc.similarity(q);
        let s = levenshtein_similarity(q, "hello");
        assert_eq!((r.numerator, r.denominator), (s.numerator, s.denominator));
        assert_eq!(inc.matrix(), &levenshtein_matrix(q, "hello"));
    }
}

#[test]
fn shorter_replaced_and_longer_queries() {
    let mut inc = IncrementalLevenshtein::new("", "kitten");
    for q in ["", "sit", "sitting", "sitt", "kit", "mittens", "", "k", "kitten", "x"] {
        let r = inc.similarity(q);
        let s = levenshtein_similarity(q, "kitten");
        assert_eq!((r.numerator, r.denominator), (s.numerator, s.denominator));
        assert_eq!(inc.matrix(), &levenshtein_matrix(q, "kitten"));
        let w = inc.weighted_edit(q);
        let scratch = weighted_edit(q, "kitten");
        assert_eq!(w.runs, scratch.runs);
        assert_eq!(w.longest, scratch.longest);
    }
}

#[test]
fn several_characters_appended_at_once() {
    let mut inc = IncrementalLevenshtein::new("he", "hello");
    inc.update("help me");
    assert_eq!(inc.matrix(), &levenshtein_matrix("help me", "hello"));
    let r = inc.similarity("héllo");
    assert_eq!((r.numerator, r.denominator), (4, 5));
}

#[test]
fn test_incremental() {
    let mut rng = StdRng::seed_from_u64(42);

    let num_entries = rng.gen_range(1000..=2000);
    let data: Vec<_> = (0..num_entries)
        .map(|_| {
            let str_len = rng.gen_range(10..=100);
            Alphanumeric.sample_string(&mut rng, str_len)
        })
        .collect();

    let mut regular = SearchEngine::new(
        |_: &String| (),
        |s: (), v: &String, q: &str| (s, vec![key(weighted(&weighted_edit(q, v)))]),
    )
    .with_values(data.clone());

    let mut incremental = SearchEngine::new(
        |v: &String| IncrementalLevenshtein::new("", v),
        |mut s: IncrementalLevenshtein, _: &String, q: &str| {
            let w = s.weighted_edit(q);
            (s, vec![key(weighted(&w))])
        },
    )
    .with_values(data.clone());

    let mut query = Alphanumeric.sample_string(&mut rng, 16);

    for _ in 0..20 {
        let addition = Alphanumeric.sample_string(&mut rng, 1);

        let index = rng.gen_range(0..=query.len());
        query.insert_str(index, &addition);

        let mut regular_similarities = HashMap::new();
        regular.similarities(&query).into_iter().for_each(|(v, s)| {
            regular_similarities.insert(v.to_string(), s);
        });

        let mut incremental_similarities = HashMap::new();
        incremental
            .similarities(&query)
            .into_iter()
            .for_each(|(v, s)| {
                incremental_similarities.insert(v.to_string(), s);
            });

        assert_eq!(regular_similarities.len(), incremental_similarities.len());

        for key in regular_similarities.keys() {
            let regular_similarity = regular_similarities.get(key).unwrap().clone();
            let incremental_similarity = incremental_similarities.get(key).unwrap().clone();

            if regular_similarity != incremental_similarity {
                println!("Key: {}", key);
                println!("Query: {}", query);
                println!(
                    "Granular: {}, Incremental: {}",
                    regular_similarity, incremental_similarity
                );

                let regular_matrix = levenshtein_matrix(&query, key);
                let position = incremental.values().iter().position(|v| v == key).unwrap();
                let incremental_matrix = incremental.states()[position].matrix();

                if incremental_matrix != &regular_matrix {
                    println!("Regular matrix and incremental matrix do not match");

                    println!("Regular Matrix:");
                    print_matrix(&regular_matrix);
                    println!("Incremental Matrix:");
                    print_matrix(incremental_matrix);
                }
                panic!("Regular and incremental similarities do not match");
            }
        }
    }
}
