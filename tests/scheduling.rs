use s3_ops::listing::{list_pages, ListError, Listing, RawObject, RawPage};
use s3_ops::manifest::manifest_path;
use s3_ops::partition::generate_hex_strings;
use s3_ops::scheduler::{job_outcome, plan_job, JobError, JobOutcome, JobPlan, Scheduler};
use std::collections::HashMap;

/// What the simulated store answers for a partition.
enum Store {
    Pages(Vec<RawPage>),
    Unreachable,
}

fn objects(prefix: &str, n: usize) -> RawPage {
    RawPage {
        contents: (0..n)
            .map(|i| RawObject {
                key: Some(format!("{}/obj{}", prefix, i)),
                size: Some(i as i64 * 10),
                last_modified: Some("2024-02-03T04:05:06Z".to_string()),
            })
            .collect(),
        common_prefixes: vec![],
    }
}

/// One job: list, plan, write into the simulated file system.
fn run_job(partition: &str, store: &Store, files: &mut HashMap<String, String>) -> JobOutcome {
    let listed: Result<Listing, JobError> = match store {
        Store::Unreachable => Err(JobError::Request),
        Store::Pages(pages) => list_pages(pages).map_err(JobError::Listing),
    };
    let plan = plan_job(listed);
    let written = match &plan {
        JobPlan::Write { text, .. } => {
            files.insert(manifest_path("bucket", partition), text.clone());
            true
        }
        _ => false,
    };
    job_outcome(&plan, written)
}

/// Runs every partition through the scheduler; `slow` jobs stay in flight
/// for several rounds. Returns the largest number of jobs seen in flight.
fn run_all(
    partitions: &[String],
    store: &HashMap<String, Store>,
    limit: usize,
    files: &mut HashMap<String, String>,
) -> (Scheduler, usize) {
    let mut sched = Scheduler::new(partitions.len(), limit);
    let mut in_flight: Vec<(usize, usize)> = vec![];
    let mut peak = 0;
    let mut round = 0;
    while !sched.is_complete() {
        while let Some(i) = sched.try_start() {
            let delay = if i % 3 == 0 { 4 } else { 0 };
            in_flight.push((i, round + delay));
        }
        assert!(sched.active() <= limit);
        peak = peak.max(in_flight.len());
        assert_eq!(in_flight.len(), sched.active());
        if let Some(pos) = in_flight.iter().position(|&(_, due)| due <= round) {
            let (i, _) = in_flight.remove(pos);
            let p = &partitions[i];
            let empty = Store::Pages(vec![]);
            let outcome = run_job(p, store.get(p).unwrap_or(&empty), files);
            assert!(sched.finish(i, outcome));
            assert!(!sched.finish(i, outcome));
        }
        round += 1;
    }
    (sched, peak)
}

#[test]
fn empty_partition_is_skipped_without_a_file() {
    let mut files = HashMap::new();
    let outcome = run_job("0001", &Store::Pages(vec![objects("0001", 0)]), &mut files);
    assert_eq!(outcome, JobOutcome::EmptySkipped);
    assert!(files.is_empty());
    assert!(matches!(plan_job(Ok(Listing::new())), JobPlan::Skip));
}

#[test]
fn failed_write_is_reported() {
    let listing = list_pages(&vec![objects("0000", 2)]).unwrap();
    let plan = plan_job(Ok(listing));
    assert_eq!(job_outcome(&plan, false), JobOutcome::Failed(JobError::Write));
    assert_eq!(job_outcome(&plan, true), JobOutcome::Success(2));
}

#[test]
fn concurrency_never_exceeds_limit() {
    let partitions: Vec<String> = generate_hex_strings().into_iter().take(40).collect();
    let mut store = HashMap::new();
    for (i, p) in partitions.iter().enumerate() {
        store.insert(p.clone(), Store::Pages(vec![objects(p, i % 4)]));
    }
    for limit in [1, 2, 3, 7, 64] {
        let mut files = HashMap::new();
        let (sched, peak) = run_all(&partitions, &store, limit, &mut files);
        assert!(peak <= limit);
        assert!(peak >= 1);
        assert_eq!(sched.active(), 0);
        let (ok, empty, failed) = sched.summary();
        assert_eq!((ok, empty, failed), (30, 10, 0));
    }
}

#[test]
fn try_start_respects_slots() {
    let mut sched = Scheduler::new(3, 2);
    assert_eq!(sched.try_start(), Some(0));
    assert_eq!(sched.try_start(), Some(1));
    assert_eq!(sched.try_start(), None);
    assert!(!sched.finish(2, JobOutcome::EmptySkipped));
    assert!(sched.finish(1, JobOutcome::Success(4)));
    assert_eq!(sched.try_start(), Some(2));
    assert_eq!(sched.try_start(), None);
    assert!(sched.finish(0, JobOutcome::Failed(JobError::Request)));
    assert!(sched.finish(2, JobOutcome::EmptySkipped));
    assert!(sched.is_complete());
    assert_eq!(sched.outcome(0), Some(JobOutcome::Failed(JobError::Request)));
    assert_eq!(sched.outcome(1), Some(JobOutcome::Success(4)));
    assert_eq!(sched.outcome(2), Some(JobOutcome::EmptySkipped));
    assert_eq!(sched.summary(), (1, 1, 1));
}

#[test]
fn malformed_object_fails_only_its_partition() {
    let partitions: Vec<String> = generate_hex_strings().into_iter().take(0x100).collect();
    let mut store = HashMap::new();
    for (i, p) in partitions.iter().enumerate() {
        store.insert(p.clone(), Store::Pages(vec![objects(p, i % 3)]));
    }
    let mut bad = objects("00aa", 2);
    bad.contents[1].size = None;
    store.insert("00aa".to_string(), Store::Pages(vec![bad]));
    let mut files = HashMap::new();
    let (sched, _) = run_all(&partitions, &store, 8, &mut files);
    for (i, p) in partitions.iter().enumerate() {
        let expected = if p == "00aa" {
            JobOutcome::Failed(JobError::Listing(ListError::MissingSize))
        } else if i % 3 == 0 {
            JobOutcome::EmptySkipped
        } else {
            JobOutcome::Success(i % 3)
        };
        assert_eq!(sched.outcome(i), Some(expected));
        assert_eq!(files.contains_key(&format!("bucket/{}.txt", p)), i % 3 != 0 && p != "00aa");
    }
}

#[test]
fn mixed_bucket_scenario() {
    let partitions: Vec<String> = vec!["0000".to_string(), "0001".to_string(), "0002".to_string()];
    let mut store = HashMap::new();
    store.insert("0000".to_string(), Store::Pages(vec![objects("0000", 2)]));
    store.insert("0001".to_string(), Store::Pages(vec![objects("0001", 0)]));
    store.insert("0002".to_string(), Store::Unreachable);
    let mut files = HashMap::new();
    let (sched, peak) = run_all(&partitions, &store, 2, &mut files);
    assert!(peak <= 2);
    assert!(sched.is_complete());
    let text = files.get("bucket/0000.txt").unwrap();
    assert_eq!(text.lines().count(), 3);
    assert_eq!(
        text.as_str(),
        "key,size,timestamp\n0000/obj0,0,2024-02-03T04:05:06Z\n0000/obj1,10,2024-02-03T04:05:06Z\n"
    );
    assert!(!files.contains_key("bucket/0001.txt"));
    assert_eq!(files.len(), 1);
    assert_eq!(sched.outcome(0), Some(JobOutcome::Success(2)));
    assert_eq!(sched.outcome(1), Some(JobOutcome::EmptySkipped));
    assert_eq!(sched.outcome(2), Some(JobOutcome::Failed(JobError::Request)));
    assert_eq!(sched.summary(), (1, 1, 1));
}
