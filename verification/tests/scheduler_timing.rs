//! Wall-clock behaviour of the scheduler core when a real executor drives
//! it: independent tasks overlap, and the concurrency bound holds at every
//! instant.

use std::sync::atomic::{AtomicUsize, Ordering};
use std::sync::Arc;
use std::time::{Duration, Instant};

use neex::scheduler::{Scheduler, SchedulerState, SchedulerTask};

/// Drive the state machine with sleeping tasks; returns per-task start and
/// finish instants.
async fn drive_sleepers(
    mut state: SchedulerState,
    sleep_ms: u64,
    concurrent: Option<(Arc<AtomicUsize>, Arc<AtomicUsize>)>,
) -> (Vec<Option<Instant>>, Vec<Option<Instant>>) {
    let total = state.len();
    let mut started: Vec<Option<Instant>> = vec![None; total];
    let mut finished: Vec<Option<Instant>> = vec![None; total];
    let (tx, mut rx) = tokio::sync::mpsc::channel::<usize>(total.max(1));
    let mut done = 0usize;
    while done < total {
        for i in state.ready_tasks() {
            if !state.can_dispatch() {
                break;
            }
            state.start_task(i);
            started[i] = Some(Instant::now());
            let tx = tx.clone();
            let gauge = concurrent.clone();
            tokio::spawn(async move {
                if let Some((current, peak)) = &gauge {
                    let now = current.fetch_add(1, Ordering::SeqCst) + 1;
                    peak.fetch_max(now, Ordering::SeqCst);
                }
                tokio::time::sleep(Duration::from_millis(sleep_ms)).await;
                if let Some((current, _)) = &gauge {
                    current.fetch_sub(1, Ordering::SeqCst);
                }
                let _ = tx.send(i).await;
            });
        }
        let i = rx.recv().await.unwrap();
        finished[i] = Some(Instant::now());
        state.finish_task(i, true);
        done += 1;
    }
    (started, finished)
}

#[test]
fn dependents_overlap_after_their_dependency() {
    let rt = tokio::runtime::Builder::new_multi_thread()
        .worker_threads(4)
        .enable_time()
        .build()
        .unwrap();
    rt.block_on(async {
        let tasks = vec![
            SchedulerTask::new("A".to_string(), vec![]),
            SchedulerTask::new("B".to_string(), vec!["A".to_string()]),
            SchedulerTask::new("C".to_string(), vec!["A".to_string()]),
        ];
        let state = Scheduler::new(4).plan(tasks);
        let begin = Instant::now();
        let (started, finished) = drive_sleepers(state, 100, None).await;
        let total = begin.elapsed();

        // A must end before B or C starts
        assert!(finished[0].unwrap() <= started[1].unwrap());
        assert!(finished[0].unwrap() <= started[2].unwrap());

        // B and C ran in parallel: two 100 ms layers, not three
        assert!(
            total < Duration::from_millis(250),
            "B and C should run in parallel, took {:?}",
            total
        );
    });
}

#[test]
fn concurrency_stays_within_the_bound() {
    let rt = tokio::runtime::Builder::new_multi_thread()
        .worker_threads(8)
        .enable_time()
        .build()
        .unwrap();
    rt.block_on(async {
        let mut tasks: Vec<SchedulerTask> = Vec::new();
        for i in 0..10 {
            tasks.push(SchedulerTask::new(format!("Task{}", i), vec![]));
        }
        let state = Scheduler::new(3).plan(tasks);
        let current = Arc::new(AtomicUsize::new(0));
        let peak = Arc::new(AtomicUsize::new(0));
        let begin = Instant::now();
        drive_sleepers(state, 50, Some((Arc::clone(&current), Arc::clone(&peak)))).await;
        let total = begin.elapsed();

        assert!(peak.load(Ordering::SeqCst) <= 3, "Concurrency limit exceeded!");
        // ten 50 ms tasks through three slots need at least four waves
        assert!(total >= Duration::from_millis(150), "finished too fast: {:?}", total);
    });
}
