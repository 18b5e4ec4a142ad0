use partitioned_gc::aggregate::aggregate;
use partitioned_gc::runner::VerificationResult;
use partitioned_gc::scheme::PartitionedGCScheme;

fn outcome(verified: bool) -> VerificationResult {
    VerificationResult { verified, output_keys: None }
}

#[test]
fn all_successes_are_a_success() {
    assert!(aggregate(&vec![outcome(true), outcome(true), outcome(true)]));
    assert!(PartitionedGCScheme::aggregate_verification(&vec![outcome(true)]));
}

#[test]
fn no_partitions_are_a_success() {
    assert!(aggregate(&vec![]));
}

#[test]
fn one_failure_is_a_failure_wherever_it_stands() {
    for at in 0..4usize {
        let results: Vec<VerificationResult> = (0..4).map(|i| outcome(i != at)).collect();
        assert!(!aggregate(&results));
        assert!(!PartitionedGCScheme::aggregate_verification(&results));
    }
}

#[test]
fn verdict_does_not_depend_on_order() {
    let flags = [true, false, true, true];
    let orders: [[usize; 4]; 4] = [[0, 1, 2, 3], [3, 2, 1, 0], [1, 0, 3, 2], [2, 3, 0, 1]];
    for order in orders {
        let results: Vec<VerificationResult> = order.iter().map(|i| outcome(flags[*i])).collect();
        assert!(!aggregate(&results));
    }
    let results = vec![
        VerificationResult { verified: true, output_keys: Some(vec![vec![1u8; 16]]) },
        outcome(true),
    ];
    assert!(aggregate(&results));
}
