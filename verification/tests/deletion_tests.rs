use dust::deletion::{build_batch_report, DeletionOutcome};

#[test]
fn one_failure_does_not_hide_the_other_outcome() {
    // Roots [A, B] where A's removal fails and B's succeeds: exactly one
    // failure and one removal, each still attributed to its root.
    let outcomes = vec![
        DeletionOutcome::Failed(String::from("locked file")),
        DeletionOutcome::Removed,
    ];
    let report = build_batch_report(outcomes);
    assert_eq!(report.removed, 1);
    assert_eq!(report.failed, 1);
    assert!(matches!(report.outcomes[0], DeletionOutcome::Failed(_)));
    assert!(matches!(report.outcomes[1], DeletionOutcome::Removed));
    if let DeletionOutcome::Failed(reason) = &report.outcomes[0] {
        assert_eq!(reason, "locked file");
    }
}

#[test]
fn all_removed() {
    let outcomes = vec![DeletionOutcome::Removed, DeletionOutcome::Removed];
    let report = build_batch_report(outcomes);
    assert_eq!(report.removed, 2);
    assert_eq!(report.failed, 0);
    assert_eq!(report.outcomes.len(), 2);
}

#[test]
fn empty_batch() {
    let report = build_batch_report(Vec::new());
    assert_eq!(report.removed, 0);
    assert_eq!(report.failed, 0);
    assert!(report.outcomes.is_empty());
}

#[test]
fn counts_partition_the_outcomes() {
    let outcomes = vec![
        DeletionOutcome::Removed,
        DeletionOutcome::Failed(String::from("permission denied")),
        DeletionOutcome::Removed,
        DeletionOutcome::Failed(String::from("path vanished")),
        DeletionOutcome::Failed(String::from("in use")),
    ];
    let report = build_batch_report(outcomes);
    assert_eq!(report.removed, 2);
    assert_eq!(report.failed, 3);
    assert_eq!(report.removed + report.failed, report.outcomes.len());
}
