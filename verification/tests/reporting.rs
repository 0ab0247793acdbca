use dms_node::protocol::DurabilityPolicy;
use dms_node::replica_reporter::{
    cache_import_namespace, collect_batch, is_power_of_two, report_installed, ReplicaReportBatch,
    ReplicaReportJob, ReportRetry, Reporter, BATCH_MAX, RETRY_INITIAL_MILLIS, RETRY_MAX_MILLIS,
};

fn report_job(index: u64) -> ReplicaReportJob {
    ReplicaReportJob::new(
        format!("block-{index}").into_bytes(),
        index + 1,
        format!("checksum-{index}").into_bytes(),
        format!("operation-{index}").into_bytes(),
    )
}

#[test]
fn batch_drains_only_ready_items_up_to_limit() {
    let waiting: Vec<ReplicaReportJob> = (1..(BATCH_MAX + 2)).map(|i| report_job(i as u64)).collect();
    let (batch, left) = collect_batch(report_job(0), waiting);
    assert_eq!(batch.jobs.len(), BATCH_MAX);
    assert_eq!(left.len(), 2);
    let again: Vec<ReplicaReportJob> = batch.jobs.iter().map(|job| job.duplicate()).collect();
    assert_eq!(batch.operation_id, ReplicaReportBatch::new(again).operation_id);
    assert_eq!(left[0], report_job(BATCH_MAX as u64));
}

#[test]
fn a_batch_reports_every_job() {
    let (batch, left) = collect_batch(report_job(0), vec![report_job(1)]);
    assert!(left.is_empty());
    let reports = batch.reports();
    assert_eq!(reports.len(), 2);
    assert_eq!(reports[1].block_id, b"block-1".to_vec());
    assert_eq!(reports[1].length, 2);
    assert_eq!(reports[1].checksum, b"checksum-1".to_vec());
    assert_eq!(reports[1].durability, DurabilityPolicy::ReplicatedMemory);
    let (other, _) = collect_batch(report_job(0), vec![report_job(2)]);
    assert_ne!(batch.operation_id, other.operation_id);
}

#[test]
fn failed_reports_are_tried_again_ever_more_slowly() {
    let mut retry = ReportRetry::new();
    let first = retry.failed();
    assert_eq!(first.sleep_millis, RETRY_INITIAL_MILLIS);
    assert!(first.log);
    let second = retry.failed();
    assert_eq!(second.sleep_millis, 2 * RETRY_INITIAL_MILLIS);
    assert!(second.log);
    let third = retry.failed();
    assert_eq!(third.sleep_millis, 4 * RETRY_INITIAL_MILLIS);
    assert!(!third.log);
    for _ in 0..20 {
        assert!(retry.failed().sleep_millis <= RETRY_MAX_MILLIS);
    }
    assert_eq!(retry.failed().sleep_millis, RETRY_MAX_MILLIS);
    assert!(is_power_of_two(64));
    assert!(!is_power_of_two(65));
    assert!(!is_power_of_two(0));
}

#[test]
fn a_repeated_import_is_reported_under_the_same_name() {
    let report = |epoch: u64| {
        report_installed(
            b"block".to_vec(),
            5,
            b"sum".to_vec(),
            &cache_import_namespace(),
            epoch,
        )
    };
    assert_eq!(report(1), report(1));
    assert_ne!(report(1).operation_id, report(2).operation_id);
}

#[test]
fn every_report_is_sent_in_one_batch_and_in_order() {
    let count = 2 * BATCH_MAX as u64 + 3;
    let mut reporter = Reporter::new();
    for index in 0..count {
        reporter.arrived(report_job(index));
    }
    assert!(reporter.is_full());
    let mut told: Vec<ReplicaReportJob> = Vec::new();
    let mut sizes: Vec<usize> = Vec::new();
    while !reporter.queue.is_empty() {
        reporter.begin();
        let batch = reporter.batch.as_ref().unwrap();
        sizes.push(batch.jobs.len());
        told.extend(batch.jobs.iter().map(|job| job.duplicate()));
        assert_eq!(reporter.answered(true), None);
        assert!(reporter.batch.is_none());
    }
    assert_eq!(sizes, vec![BATCH_MAX, BATCH_MAX, 3]);
    let all: Vec<ReplicaReportJob> = (0..count).map(report_job).collect();
    assert_eq!(told, all);
}

#[test]
fn a_batch_that_is_not_taken_is_sent_again_as_it_is() {
    let mut reporter = Reporter::new();
    reporter.arrived(report_job(0));
    reporter.begin();
    let name = reporter.batch.as_ref().unwrap().operation_id.clone();
    let mut waits: Vec<u64> = Vec::new();
    for index in 1..10u64 {
        reporter.arrived(report_job(index));
        waits.push(reporter.answered(false).unwrap().sleep_millis);
        let batch = reporter.batch.as_ref().unwrap();
        assert_eq!(batch.operation_id, name);
        assert_eq!(batch.jobs, vec![report_job(0)]);
    }
    assert_eq!(waits, vec![10, 20, 40, 80, 160, 320, 640, 1000, 1000]);
    assert_eq!(reporter.answered(true), None);
    reporter.begin();
    let batch = reporter.batch.as_ref().unwrap();
    assert_eq!(batch.jobs.len(), 9);
    assert_eq!(reporter.answered(false).unwrap().sleep_millis, RETRY_INITIAL_MILLIS);
}
