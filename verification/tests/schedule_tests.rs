use musync::schedule::{plan_batches, Job};

fn jobs(n: usize) -> Vec<Job> {
    let mut v = Vec::new();
    for i in 0..n {
        v.push(Job { src: format!("src/{i}.flac").into_bytes(), dst: format!("dst/{i}.mp3").into_bytes() });
    }
    v
}

#[test]
fn batches_respect_the_cap() {
    for n in 0..20 {
        for cap in 1..6 {
            let batches = plan_batches(jobs(n), cap);
            for batch in &batches {
                assert!(batch.len() <= cap);
                assert!(!batch.is_empty());
            }
            let total: usize = batches.iter().map(|batch| batch.len()).sum();
            assert_eq!(total, n);
        }
    }
}

#[test]
fn ten_jobs_cap_four() {
    let batches = plan_batches(jobs(10), 4);
    let sizes: Vec<usize> = batches.iter().map(|batch| batch.len()).collect();
    assert_eq!(sizes, vec![4, 4, 2]);
}

#[test]
fn jobs_keep_their_order() {
    let batches = plan_batches(jobs(5), 2);
    let mut seen = Vec::new();
    for batch in batches {
        for job in batch {
            seen.push(job.src);
        }
    }
    let want: Vec<Vec<u8>> = jobs(5).into_iter().map(|j| j.src).collect();
    assert_eq!(seen, want);
}

#[test]
fn no_jobs_no_batches() {
    let batches = plan_batches(Vec::new(), 8);
    assert!(batches.is_empty());
}

#[test]
fn cap_larger_than_job_list() {
    let batches = plan_batches(jobs(3), 16);
    assert_eq!(batches.len(), 1);
    assert_eq!(batches[0].len(), 3);
}
