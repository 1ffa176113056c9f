use flattener::flatten;
use flattener::Flatten;

#[test]
fn empty() {
    assert_eq!(flatten(Vec::<Vec<()>>::new()).collect_front().len(), 0)
}

#[test]
fn empty_wide() {
    assert_eq!(
        flatten(vec![Vec::<()>::new(), vec![], vec![], vec![]])
            .collect_front()
            .len(),
        0
    )
}

#[test]
fn one_item() {
    assert_eq!(flatten(vec![vec!["a"]]).collect_front().len(), 1)
}

#[test]
fn two_item() {
    assert_eq!(flatten(vec![vec!["a", "b"]]).collect_front().len(), 2)
}

#[test]
fn two_wide() {
    assert_eq!(flatten(vec![vec!["a"], vec!["b"]]).collect_front().len(), 2)
}

#[test]
fn reverse() {
    assert_eq!(
        flatten(vec![vec!["a", "b"]]).collect_back(),
        vec!["b", "a"]
    )
}

#[test]
fn reverse_wide() {
    assert_eq!(
        flatten(vec![vec!["a"], vec!["b"]]).collect_back(),
        vec!["b", "a"]
    )
}

#[test]
fn both_ends() {
    let mut iter = flatten(vec![vec!["a", "b"], vec!["c", "d"]]);
    assert_eq!(iter.next(), Some("a"));
    assert_eq!(iter.next_back(), Some("d"));
    assert_eq!(iter.next(), Some("b"));
    assert_eq!(iter.next_back(), Some("c"));
    assert_eq!(iter.next(), None);
    assert_eq!(iter.next_back(), None);
}

#[test]
fn lib_empty() {
    assert_eq!(flatten(Vec::<Vec<()>>::new()).collect_front().len(), 0)
}

#[test]
fn lib_one_item() {
    assert_eq!(flatten(vec![vec!["a"]]).collect_front().len(), 1)
}

#[test]
fn lib_two_item() {
    assert_eq!(flatten(vec![vec!["a", "b"]]).collect_front().len(), 2)
}

#[test]
fn lib_two_wide() {
    assert_eq!(flatten(vec![vec!["a"], vec!["b"]]).collect_front().len(), 2)
}

#[test]
fn new_then_collect() {
    let adapter = Flatten::new(vec![vec![1u64, 2], vec![3]]);
    assert_eq!(adapter.collect_front(), vec![1, 2, 3]);
}

#[test]
fn forward_order() {
    assert_eq!(
        flatten(vec![vec!["a", "b"], vec!["c", "d"]]).collect_front(),
        vec!["a", "b", "c", "d"]
    )
}

#[test]
fn empty_inners_skipped_forward() {
    let outer = vec![vec![], vec!["a"], vec![], vec!["b"], vec![]];
    assert_eq!(flatten(outer).collect_front(), vec!["a", "b"])
}

#[test]
fn empty_inners_skipped_backward() {
    let outer = vec![vec![], vec!["a"], vec![], vec!["b"], vec![]];
    assert_eq!(flatten(outer).collect_back(), vec!["b", "a"])
}

#[test]
fn no_duplication_no_loss() {
    let outer = vec![vec!["b", "a"], vec!["a"], vec![], vec!["c", "b"]];
    let flat = vec!["b", "a", "a", "c", "b"];
    let mut forward = flatten(outer.clone()).collect_front();
    let mut backward = flatten(outer).collect_back();
    let mut original = flat;
    forward.sort();
    backward.sort();
    original.sort();
    assert_eq!(forward, original);
    assert_eq!(backward, original);
}

#[test]
fn idempotent_exhaustion() {
    let mut iter = flatten(vec![vec!["a"]]);
    assert_eq!(iter.next(), Some("a"));
    assert_eq!(iter.next(), None);
    assert_eq!(iter.next(), None);
    assert_eq!(iter.next_back(), None);
    assert_eq!(iter.next(), None);
    assert_eq!(iter.next_back(), None);
}

#[test]
fn front_pull_drains_back_producer() {
    let mut iter = flatten(vec![vec!["a", "b", "c"]]);
    assert_eq!(iter.next_back(), Some("c"));
    assert_eq!(iter.next(), Some("a"));
    assert_eq!(iter.next(), Some("b"));
    assert_eq!(iter.next(), None);
}

#[test]
fn back_pull_drains_front_producer() {
    let mut iter = flatten(vec![vec!["a", "b", "c"]]);
    assert_eq!(iter.next(), Some("a"));
    assert_eq!(iter.next_back(), Some("c"));
    assert_eq!(iter.next_back(), Some("b"));
    assert_eq!(iter.next_back(), None);
}
