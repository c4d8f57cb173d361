use norman::pool::{Message, ThreadPool, WorkerState};
use std::cell::Cell;
use std::rc::Rc;

fn job_of(message: Option<Message<u32>>) -> Option<u32> {
    match message {
        Some(Message::NewJob(job)) => Some(job),
        _ => None,
    }
}

fn is_terminate(message: &Option<Message<u32>>) -> bool {
    matches!(message, Some(Message::Terminate))
}

#[test]
fn a_new_pool_is_idle_and_empty() {
    let pool: ThreadPool<u32> = ThreadPool::new(3);
    assert_eq!(pool.size(), 3);
    assert_eq!(pool.pending(), 0);
    assert_eq!(pool.worker_state(0), Some(WorkerState::Idle));
    assert_eq!(pool.worker_state(2), Some(WorkerState::Idle));
    assert_eq!(pool.worker_state(3), None);
    assert!(!pool.is_stopped());
}

#[test]
fn jobs_are_claimed_in_the_order_of_submission() {
    let mut pool: ThreadPool<u32> = ThreadPool::new(2);
    for job in 10..15 {
        pool.execute(job);
    }
    assert_eq!(pool.pending(), 5);
    assert_eq!(job_of(pool.claim(1)), Some(10));
    assert_eq!(pool.worker_state(1), Some(WorkerState::Busy));
    assert_eq!(job_of(pool.claim(0)), Some(11));
    assert_eq!(pool.pending(), 3);
    pool.finish(0);
    assert_eq!(pool.worker_state(0), Some(WorkerState::Idle));
    assert_eq!(job_of(pool.claim(0)), Some(12));
    pool.finish(1);
    assert_eq!(job_of(pool.claim(1)), Some(13));
    pool.finish(1);
    assert_eq!(job_of(pool.claim(1)), Some(14));
    assert_eq!(pool.pending(), 0);
}

#[test]
fn a_worker_that_is_not_idle_gets_nothing() {
    let mut pool: ThreadPool<u32> = ThreadPool::new(1);
    assert!(pool.claim(0).is_none());
    pool.execute(1);
    pool.execute(2);
    assert!(pool.claim(1).is_none());
    assert!(pool.claim(7).is_none());
    assert_eq!(pool.pending(), 2);
    assert_eq!(job_of(pool.claim(0)), Some(1));
    assert!(pool.claim(0).is_none());
    assert_eq!(pool.pending(), 1);
    pool.finish(3);
    assert_eq!(pool.worker_state(0), Some(WorkerState::Busy));
    pool.finish(0);
    pool.finish(0);
    assert_eq!(pool.worker_state(0), Some(WorkerState::Idle));
    assert_eq!(job_of(pool.claim(0)), Some(2));
}

#[test]
fn shutdown_queues_one_sentinel_per_worker_behind_the_jobs() {
    let mut pool: ThreadPool<u32> = ThreadPool::new(3);
    pool.execute(1);
    pool.execute(2);
    pool.shutdown();
    assert_eq!(pool.pending(), 5);
    assert_eq!(job_of(pool.claim(0)), Some(1));
    assert_eq!(job_of(pool.claim(1)), Some(2));
    assert!(is_terminate(&pool.claim(2)));
    assert_eq!(pool.worker_state(2), Some(WorkerState::Stopped));
    assert!(pool.claim(2).is_none());
    assert!(!pool.is_stopped());
    pool.finish(0);
    pool.finish(1);
    assert!(is_terminate(&pool.claim(0)));
    assert!(is_terminate(&pool.claim(1)));
    assert!(pool.is_stopped());
    assert_eq!(pool.pending(), 0);
    pool.finish(1);
    assert_eq!(pool.worker_state(1), Some(WorkerState::Stopped));
}

#[test]
fn more_jobs_than_workers_all_run_once() {
    let workers = 3;
    let jobs = 20;
    let mut pool: ThreadPool<u32> = ThreadPool::new(workers);
    for job in 0..jobs {
        pool.execute(job);
    }
    pool.shutdown();
    let mut ran: Vec<u32> = Vec::new();
    let mut turn = 0;
    while !pool.is_stopped() {
        let worker = turn % workers;
        turn += 1;
        match pool.claim(worker) {
            Some(Message::NewJob(job)) => {
                ran.push(job);
                pool.finish(worker);
            }
            Some(Message::Terminate) => {}
            None => {}
        }
    }
    assert_eq!(ran, (0..jobs).collect::<Vec<u32>>());
    assert_eq!(pool.pending(), 0);
}

#[test]
fn a_job_submitted_after_shutdown_never_runs() {
    let mut pool: ThreadPool<u32> = ThreadPool::new(2);
    pool.execute(1);
    pool.shutdown();
    pool.execute(2);
    assert_eq!(job_of(pool.claim(0)), Some(1));
    pool.finish(0);
    assert!(is_terminate(&pool.claim(0)));
    assert!(is_terminate(&pool.claim(1)));
    assert!(pool.is_stopped());
    assert_eq!(pool.pending(), 1);
    assert!(pool.claim(0).is_none());
    assert!(pool.claim(1).is_none());
    assert_eq!(pool.pending(), 1);
}

type Job = Box<dyn FnOnce()>;

#[test]
fn every_closure_given_to_the_pool_is_called_once() {
    let workers = 2;
    let jobs = 9;
    let counter = Rc::new(Cell::new(0));
    let runs: Rc<Vec<Cell<u32>>> = Rc::new((0..jobs).map(|_| Cell::new(0)).collect());
    let mut pool: ThreadPool<Job> = ThreadPool::new(workers);
    for job in 0..jobs {
        let counter = Rc::clone(&counter);
        let runs = Rc::clone(&runs);
        pool.execute(Box::new(move || {
            runs[job].set(runs[job].get() + 1);
            counter.set(counter.get() + 1);
        }));
    }
    pool.shutdown();
    let mut worker = 0;
    while !pool.is_stopped() {
        match pool.claim(worker) {
            Some(Message::NewJob(job)) => {
                job();
                pool.finish(worker);
            }
            Some(Message::Terminate) => {}
            None => {}
        }
        worker = (worker + 1) % workers;
    }
    assert_eq!(counter.get(), jobs);
    for run in runs.iter() {
        assert_eq!(run.get(), 1);
    }
    assert_eq!(pool.pending(), 0);
}
