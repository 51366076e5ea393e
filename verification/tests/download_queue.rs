use std::collections::{HashMap, VecDeque};

use watchtower::downloader::download_queue::{
    DownloadQueue, FetchOutcome, Mode, QueueStep, DA_BLOCK_TIME_MILLIS, RATE_LIMIT_BACKOFF_MILLIS,
};

type Queue = DownloadQueue<&'static str>;
type Outcome = FetchOutcome<&'static str, String>;

#[test]
fn concurrency_per_mode() {
    assert_eq!(Mode::Batch.concurrency(), 8);
    assert_eq!(Mode::Poll.concurrency(), 1);
}

#[test]
fn batch_mode_requests_eight_blocks() {
    let mut q = Queue::start_from(100);
    let mut requested = Vec::new();
    while let Some(h) = q.next_request() {
        requested.push(h);
    }
    assert_eq!(requested, (100..108).collect::<Vec<u64>>());
    assert_eq!(q.next_da_height(), 108);
}

#[test]
fn blocks_are_emitted_in_order_whatever_order_they_arrive_in() {
    let mut q = Queue::start_from(0);
    while q.next_request().is_some() {}
    assert!(matches!(q.on_fetched(Outcome::Block { number: 1, block: "b1" }), QueueStep::Emit));
    assert_eq!(q.pop_ready(), None);
    assert!(matches!(q.on_fetched(Outcome::Block { number: 0, block: "b0" }), QueueStep::Emit));
    assert_eq!(q.pop_ready(), Some("b0"));
    assert_eq!(q.pop_ready(), Some("b1"));
    assert_eq!(q.pop_ready(), None);
    assert_eq!(q.next_to_emit(), 2);
}

#[test]
fn completed_blocks_count_against_the_limit() {
    let mut q = Queue::start_from(0);
    while q.next_request().is_some() {}
    q.on_fetched(Outcome::Block { number: 3, block: "b3" });
    // one request came back but its block waits: still eight in the queue
    assert_eq!(q.next_request(), None);
}

/// Drives the queue against a provider that hands out each block once and answers
/// "not yet" for any other: returns after an emission or a wait.
fn drive(
    q: &mut DownloadQueue<u64>,
    provider: &mut HashMap<u64, u64>,
    in_flight: &mut VecDeque<u64>,
    out: &mut Vec<u64>,
) -> Option<u64> {
    loop {
        while let Some(h) = q.next_request() {
            in_flight.push_back(h);
        }
        let step = match in_flight.pop_front() {
            Some(h) => {
                let outcome: FetchOutcome<u64, String> = match provider.remove(&h) {
                    Some(block) => FetchOutcome::Block { number: h, block },
                    None => FetchOutcome::NotYetAvailable,
                };
                q.on_fetched(outcome)
            }
            None => QueueStep::Emit,
        };
        match step {
            QueueStep::Emit => {
                let before = out.len();
                while let Some(b) = q.pop_ready() {
                    out.push(b);
                }
                if out.len() > before {
                    return None;
                }
            }
            QueueStep::SleepThenEmit { millis } => return Some(millis),
            QueueStep::Requeue { sleep_millis: Some(millis) } => return Some(millis),
            QueueStep::Requeue { sleep_millis: None } => {}
            QueueStep::Fail(e) => panic!("{}", e),
        }
    }
}

#[test]
fn switches_to_polling_when_end_is_reached() {
    let mut q: DownloadQueue<u64> = DownloadQueue::start_from(0);
    let mut provider = HashMap::new();
    let mut in_flight = VecDeque::new();
    let mut out = Vec::new();

    // First go through a batch of blocks. This is done without waiting.
    let count = 100;
    for i in 0..count {
        provider.insert(i, i);
    }
    while (out.len() as u64) < count {
        assert_eq!(drive(&mut q, &mut provider, &mut in_flight, &mut out), None);
    }
    assert_eq!(out, (0..count).collect::<Vec<u64>>());

    // Now the provider will return None, so we'll transfer to the polling mode,
    // and wait a block time once no request is pending.
    let mut rounds = 0;
    while drive(&mut q, &mut provider, &mut in_flight, &mut out).is_none() {
        rounds += 1;
        assert!(rounds < 100);
    }
    assert_eq!(q.mode(), Mode::Poll);
    assert!(!q.has_pending());
    let mut waits = 0;
    for i in 0..10 {
        let blocknum = count + i;
        provider.insert(blocknum, blocknum);
        let mut rounds = 0;
        while *out.last().unwrap() != blocknum {
            if let Some(millis) = drive(&mut q, &mut provider, &mut in_flight, &mut out) {
                assert_eq!(millis, DA_BLOCK_TIME_MILLIS);
                waits += 1;
            }
            rounds += 1;
            assert!(rounds < 100, "block {} never arrived", blocknum);
        }
    }
    assert_eq!(q.mode(), Mode::Poll);
    assert_eq!(out, (0..count + 10).collect::<Vec<u64>>());
    assert!(waits <= 10);
}

#[test]
fn polling_waits_a_block_time_when_nothing_is_pending() {
    let mut q = Queue::start_from(0);
    while q.next_request().is_some() {}
    assert!(matches!(q.on_fetched(Outcome::NotYetAvailable), QueueStep::Emit));
    assert_eq!(q.mode(), Mode::Poll);
    match q.on_fetched(Outcome::NotYetAvailable) {
        QueueStep::Requeue { sleep_millis } => assert_eq!(sleep_millis, None),
        _ => panic!("expected a requeue"),
    }
    assert_eq!(q.next_da_height(), 0);
    for _ in 0..5 {
        q.on_fetched(Outcome::NotYetAvailable);
    }
    match q.on_fetched(Outcome::NotYetAvailable) {
        QueueStep::Requeue { sleep_millis } => assert_eq!(sleep_millis, Some(DA_BLOCK_TIME_MILLIS)),
        _ => panic!("expected a requeue with a wait"),
    }
    assert!(!q.has_pending());
    assert_eq!(q.next_request(), Some(0));
    assert_eq!(q.next_request(), None);
}

#[test]
fn rate_limit_backs_off() {
    let mut q = Queue::start_from(5);
    q.next_request();
    match q.on_fetched(Outcome::RateLimited) {
        QueueStep::SleepThenEmit { millis } => assert_eq!(millis, RATE_LIMIT_BACKOFF_MILLIS),
        _ => panic!("expected a back-off"),
    }
    assert_eq!(RATE_LIMIT_BACKOFF_MILLIS, 5000);
    assert_eq!(DA_BLOCK_TIME_MILLIS, 12000);
}

#[test]
fn other_failures_stop_the_queue() {
    let mut q = Queue::start_from(5);
    q.next_request();
    match q.on_fetched(Outcome::Failed("boom".to_string())) {
        QueueStep::Fail(e) => assert_eq!(e, "boom"),
        _ => panic!("expected a failure"),
    }
}

#[test]
fn room_and_readiness_are_reported() {
    let mut q = Queue::start_from(3);
    assert!(q.can_request());
    assert!(!q.next_is_ready());
    while q.next_request().is_some() {}
    assert!(!q.can_request());
    q.on_fetched(Outcome::Block { number: 4, block: "b4" });
    assert!(!q.next_is_ready());
    q.on_fetched(Outcome::Block { number: 3, block: "b3" });
    assert!(q.next_is_ready());
    assert_eq!(q.pop_ready(), Some("b3"));
    assert!(q.next_is_ready());
    assert_eq!(q.pop_ready(), Some("b4"));
    assert!(!q.next_is_ready());
    assert!(q.can_request());
}

#[test]
fn a_block_below_the_next_one_blocks_emission() {
    let mut q = Queue::start_from(10);
    q.next_request();
    q.next_request();
    q.on_fetched(Outcome::Block { number: 9, block: "b9" });
    q.on_fetched(Outcome::Block { number: 10, block: "b10" });
    // the first entry is 9, not the next one in line
    assert_eq!(q.pop_ready(), None);
}
