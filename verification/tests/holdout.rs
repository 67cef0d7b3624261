use knn_classifier::holdout::count_correct;
use knn_classifier::{KnnClassifier, KnnItem};

fn numbered(n: u64) -> KnnClassifier {
    let mut c = KnnClassifier::new(7);
    for i in 0..n {
        c.fit_one(&[i, i * i], &format!("label {}", i % 3));
    }
    c
}

fn contents(c: &KnnClassifier) -> Vec<(String, Vec<u64>)> {
    c.items.iter().map(|it| (it.label.clone(), it.data.clone())).collect()
}

#[test]
fn shuffle_keeps_the_points_and_the_neighbour_count() {
    for n in [0u64, 1, 2, 3, 10, 150] {
        let mut c = numbered(n);
        let before = contents(&c);
        c.shuffle();
        let after = contents(&c);
        assert_eq!(c.k, 7);
        assert_eq!(after.len(), before.len());
        let mut sorted = after.clone();
        sorted.sort();
        let mut expected = before.clone();
        expected.sort();
        assert_eq!(sorted, expected);
    }
}

#[test]
fn shuffle_changes_the_order() {
    let mut c = numbered(150);
    let before = contents(&c);
    c.shuffle();
    assert_ne!(contents(&c), before);
    let mut two = numbered(2);
    two.shuffle();
    assert_eq!(two.items[0].data, vec![1, 1]);
    assert_eq!(two.items[1].data, vec![0, 0]);
}

fn item(label: &str) -> KnnItem {
    KnnItem { label: label.to_string(), data: vec![] }
}

#[test]
fn correct_predictions_are_counted() {
    let expected = vec![item("a"), item("b"), item("c"), item("a")];
    let labels = |l: &[&str]| -> Vec<String> { l.iter().map(|s| s.to_string()).collect() };
    assert_eq!(count_correct(&labels(&["a", "b", "c", "a"]), &expected), 4);
    assert_eq!(count_correct(&labels(&["a", "x", "c", "b"]), &expected), 2);
    assert_eq!(count_correct(&labels(&["b", "c", "a", "b"]), &expected), 0);
    assert_eq!(count_correct(&labels(&["a", "b"]), &expected), 2);
    assert_eq!(count_correct(&labels(&["a", "b", "c", "a", "a", "a"]), &expected), 4);
    assert_eq!(count_correct(&labels(&[]), &expected), 0);
    assert_eq!(count_correct(&labels(&["a"]), &[]), 0);
}
