use simple_search::levenshtein::base::{
    chars_of, common_prefix, edit_operations, levenshtein_distance, levenshtein_matrix,
    levenshtein_similarity, matrix_of, weighted_edit, EditOperation, Ratio, WeightedEdit,
};

fn ratio(r: &Ratio) -> f64 {
    r.numerator as f64 / r.denominator as f64
}

fn weighted(w: &WeightedEdit) -> f64 {
    if w.longest == 0 {
        return 0.0;
    }
    let cost: f64 = w.runs.iter().map(|&n| (n as f64).ln_1p()).sum();
    (w.longest as f64 - cost) / w.longest as f64
}

fn ops(a: &str, b: &str) -> Vec<EditOperation> {
    let a = chars_of(a);
    let b = chars_of(b);
    let m = matrix_of(&a, &b);
    edit_operations(&m, &a, &b)
}

#[test]
fn distance_examples() {
    assert_eq!(levenshtein_distance("kitten", "sitting"), 3);
    assert_eq!(levenshtein_distance("flaw", "lawn"), 2);
    assert_eq!(levenshtein_distance("", ""), 0);
    assert_eq!(levenshtein_distance("abc", ""), 3);
    assert_eq!(levenshtein_distance("", "abcd"), 4);
}

#[test]
fn distance_counts_characters_not_bytes() {
    assert_eq!(levenshtein_distance("héllo", "hello"), 1);
    assert_eq!(levenshtein_distance("日本語", "日本"), 1);
    assert_eq!(levenshtein_matrix("日本", "本").len(), 3);
}

#[test]
fn distance_is_symmetric_and_zero_on_equal_strings() {
    let words = ["", "a", "hello", "hallo", "world", "welt", "ab€cd"];
    for a in words {
        assert_eq!(levenshtein_distance(a, a), 0);
        for b in words {
            assert_eq!(levenshtein_distance(a, b), levenshtein_distance(b, a));
        }
    }
}

#[test]
fn similarity_lies_between_zero_and_one() {
    let words = ["", "a", "hello", "hallo", "world", "kitten", "sitting"];
    for a in words {
        for b in words {
            let s = ratio(&levenshtein_similarity(a, b));
            assert!((0.0..=1.0).contains(&s));
        }
        if !a.is_empty() {
            assert_eq!(ratio(&levenshtein_similarity(a, a)), 1.0);
        }
    }
}

#[test]
fn similarity_values() {
    let r = levenshtein_similarity("kitten", "sitting");
    assert_eq!((r.numerator, r.denominator), (4, 7));
    let r = levenshtein_similarity("", "");
    assert_eq!((r.numerator, r.denominator), (0, 1));
    assert_eq!(ratio(&r), 0.0);
    let r = levenshtein_similarity("abc", "xyz");
    assert_eq!((r.numerator, r.denominator), (0, 3));
}

#[test]
fn matrix_cells() {
    let m = levenshtein_matrix("ab", "ac");
    assert_eq!(m, vec![vec![0, 1, 2], vec![1, 0, 1], vec![2, 1, 1]]);
    let m = levenshtein_matrix("", "xyz");
    assert_eq!(m, vec![vec![0, 1, 2, 3]]);
    let m = levenshtein_matrix("xy", "");
    assert_eq!(m, vec![vec![0], vec![1], vec![2]]);
}

#[test]
fn common_prefix_lengths() {
    assert_eq!(common_prefix("hello", "help"), 3);
    assert_eq!(common_prefix("", "abc"), 0);
    assert_eq!(common_prefix("same", "same"), 4);
    assert_eq!(common_prefix("abc", "xbc"), 0);
    assert_eq!(common_prefix("日本語", "日本人"), 2);
}

#[test]
fn edit_operations_runs() {
    assert_eq!(ops("abc", "abc"), vec![]);
    assert_eq!(ops("abc", "axc"), vec![EditOperation::Substitute(1, 1)]);
    assert_eq!(ops("", "abc"), vec![EditOperation::Insert(3)]);
    assert_eq!(ops("abc", ""), vec![EditOperation::Delete(3)]);
    assert_eq!(ops("abcd", "ad"), vec![EditOperation::Delete(2)]);
    assert_eq!(ops("ad", "abcd"), vec![EditOperation::Insert(2)]);
    assert_eq!(
        ops("xabc", "abcy"),
        vec![EditOperation::Delete(1), EditOperation::Insert(1)]
    );
}

#[test]
fn weighted_edit_values() {
    let w = weighted_edit("abc", "axc");
    assert_eq!(w.runs, vec![1, 1]);
    assert_eq!(w.longest, 3);
    let expected = (3.0 - 2.0 * 2f64.ln()) / 3.0;
    assert!((weighted(&w) - expected).abs() < 1e-12);

    let w = weighted_edit("hello", "hello world");
    assert_eq!(w.runs, vec![6]);
    assert_eq!(w.longest, 11);
    let expected = (11.0 - 7f64.ln()) / 11.0;
    assert!((weighted(&w) - expected).abs() < 1e-12);

    let w = weighted_edit("", "");
    assert!(w.runs.is_empty());
    assert_eq!(weighted(&w), 0.0);
}

#[test]
fn one_run_costs_less_than_scattered_edits() {
    let run = weighted(&weighted_edit("abcdefgh", "abcdefghxyz"));
    let scattered = weighted(&weighted_edit("abcdefgh", "axbcydefzgh"));
    assert!(run > scattered);
}
