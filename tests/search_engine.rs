use simple_search::levenshtein::base::{levenshtein_similarity, weighted_edit, WeightedEdit};
use simple_search::levenshtein::incremental::IncrementalLevenshtein;
use simple_search::search_engine::{combined_score, sort_by_score, SearchEngine};

fn key(x: f64) -> u64 {
    let bits = x.to_bits();
    if bits >> 63 == 1 {
        !bits
    } else {
        bits | (1 << 63)
    }
}

fn value(k: u64) -> f64 {
    if k >> 63 == 1 {
        f64::from_bits(k & !(1 << 63))
    } else {
        f64::from_bits(!k)
    }
}

fn weighted(w: &WeightedEdit) -> f64 {
    if w.longest == 0 {
        return 0.0;
    }
    let cost: f64 = w.runs.iter().map(|&n| (n as f64).ln_1p()).sum();
    (w.longest as f64 - cost) / w.longest as f64
}

fn plain(a: &str, b: &str) -> f64 {
    let r = levenshtein_similarity(a, b);
    r.numerator as f64 / r.denominator as f64
}

#[test]
fn combined_score_is_largest() {
    assert_eq!(combined_score(&vec![3, 9, 4]), 9);
    assert_eq!(combined_score(&vec![7]), 7);
    assert_eq!(combined_score(&vec![]), 0);
    assert_eq!(value(combined_score(&vec![key(0.25), key(-1.5), key(0.75)])), 0.75);
}

#[test]
fn sort_orders_ascending_and_keeps_entries() {
    let sorted = sort_by_score(vec![("c", 5), ("a", 1), ("d", 9), ("b", 1), ("e", 3)]);
    let scores: Vec<u64> = sorted.iter().map(|e| e.1).collect();
    assert_eq!(scores, vec![1, 1, 3, 5, 9]);
    let mut items: Vec<&str> = sorted.iter().map(|e| e.0).collect();
    items.sort();
    assert_eq!(items, vec!["a", "b", "c", "d", "e"]);
    assert!(sort_by_score(Vec::<((), u64)>::new()).is_empty());
}

#[test]
fn two_functions_combine_to_the_larger_weighted_score() {
    let (w1, w2) = (1.0, 0.5);
    let mut engine = SearchEngine::new(
        |_: &(String, String)| (),
        move |s: (), v: &(String, String), q: &str| {
            (s, vec![key(w1 * plain(&v.0, q)), key(w2 * plain(&v.1, q))])
        },
    )
    .with_values(vec![
        ("apple".to_string(), "banana".to_string()),
        ("grape".to_string(), "apple".to_string()),
        ("melon".to_string(), "lemon".to_string()),
    ]);
    let query = "apple";
    for (v, s) in engine.similarities(query) {
        let expected = f64::max(w1 * plain(&v.0, query), w2 * plain(&v.1, query));
        assert_eq!(value(s), expected);
    }
}

#[test]
fn ranking_lists_every_item_once() {
    let items = vec!["hello", "world", "foo", "bar", "hallo", "foo"];
    let mut engine = SearchEngine::new(
        |_: &&str| (),
        |s: (), v: &&str, q: &str| (s, vec![key(plain(v, q))]),
    )
    .with_values(items.clone());
    for query in ["", "hallo", "xyz", "foo"] {
        let ranked = engine.similarities(query);
        assert_eq!(ranked.len(), items.len());
        let mut got: Vec<&str> = ranked.iter().map(|e| *e.0).collect();
        let mut want = items.clone();
        got.sort();
        want.sort();
        assert_eq!(got, want);
        assert!(ranked.windows(2).all(|w| w[0].1 <= w[1].1));
    }
    assert_eq!(engine.values(), &items);
}

#[test]
fn hell_ranks_above_welt_and_world_for_hallo() {
    let engine = SearchEngine::new(
        |_: &&str| (),
        |s: (), v: &&str, q: &str| (s, vec![key(weighted(&weighted_edit(v, q)))]),
    )
    .with_values(vec!["hell", "world", "welt"]);
    let ranked = engine.into_similarities("hallo");
    let score = |name: &str| value(ranked.iter().find(|e| e.0 == name).unwrap().1);
    assert!(score("hell") > score("welt"));
    assert!(score("hell") > score("world"));
    assert_eq!(ranked.last().unwrap().0, "hell");
}

#[test]
fn empty_engine_ranks_nothing() {
    let mut engine = SearchEngine::new(
        |_: &String| (),
        |s: (), v: &String, q: &str| (s, vec![key(plain(v, q))]),
    );
    assert!(engine.similarities("anything").is_empty());
    assert!(engine.search("").is_empty());
    assert_eq!(engine.len(), 0);
    assert!(engine.into_search("query").is_empty());
}

#[test]
fn registration_keeps_order_and_makes_states() {
    let mut engine = SearchEngine::new(
        |v: &String| IncrementalLevenshtein::new("", v),
        |mut s: IncrementalLevenshtein, _: &String, q: &str| {
            let w = s.weighted_edit(q);
            (s, vec![key(weighted(&w))])
        },
    );
    engine.add_value("one".to_string());
    engine.add_values(vec!["two".to_string(), "three".to_string()]);
    let engine = engine.with_value("four".to_string());
    assert_eq!(engine.values(), &vec!["one", "two", "three", "four"]);
    assert_eq!(engine.states().len(), 4);
    assert_eq!(engine.states()[2].matrix().len(), 1);
    assert_eq!(engine.states()[2].matrix()[0].len(), 6);
}

#[test]
fn scoring_advances_states_and_new_scoring_rebuilds_them() {
    let mut engine = SearchEngine::new(
        |v: &String| IncrementalLevenshtein::new("", v),
        |mut s: IncrementalLevenshtein, _: &String, q: &str| {
            let r = s.similarity(q);
            (s, vec![key(r.numerator as f64 / r.denominator as f64)])
        },
    )
    .with_values(vec!["hello".to_string(), "help".to_string()]);
    let found: Vec<String> = engine.search("hel").into_iter().cloned().collect();
    assert_eq!(found.len(), 2);
    assert_eq!(engine.states()[0].matrix().len(), 4);

    let mut rebuilt = engine.with_scoring(
        |v: &String| v.len(),
        |n: usize, _: &String, q: &str| (n, vec![(n as u64).abs_diff(q.len() as u64)]),
    );
    assert_eq!(rebuilt.states(), &vec![5, 4]);
    let ranked = rebuilt.similarities("abcde");
    assert_eq!(*ranked[0].0, "hello");
    assert_eq!(ranked[0].1, 0);
    assert_eq!(ranked[1].1, 1);
}

#[test]
fn into_search_orders_by_score() {
    let engine = SearchEngine::new(
        |_: &u32| (),
        |s: (), v: &u32, _: &str| (s, vec![*v as u64 % 7, *v as u64 % 5]),
    )
    .with_values(vec![10, 3, 6, 14]);
    // combined scores: 10 -> 3, 3 -> 3, 6 -> 6, 14 -> 4
    let found = engine.into_search("");
    assert_eq!(found.len(), 4);
    assert_eq!(found[2], 14);
    assert_eq!(found[3], 6);
}
