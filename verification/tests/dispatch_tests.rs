use agger::dispatch::{DispatchMode, ProvingTaskDispatcher, ProvingSystem, TaskQueue};

#[test]
fn admission_gate_closes_at_pool_size() {
    // backpressure scenario: pool of one, queue of one
    let mut d = ProvingTaskDispatcher::new(1);
    assert!(d.can_accept());
    d.accept(0);
    assert!(!d.can_accept());
    // the slot frees only when the completion comes back
    assert!(d.complete(0, Ok(vec![0xFE])));
    assert!(d.can_accept());
}

#[test]
fn single_worker_preserves_submission_order() {
    // with pool size one and equal durations, tasks run one at a
    // time, so outputs leave in submission order
    let mut d = ProvingTaskDispatcher::new(1);
    let mut outputs: Vec<u64> = Vec::new();
    for seq in 0u64..4 {
        assert!(d.can_accept());
        d.accept(seq);
        assert!(!d.can_accept());
        assert!(d.complete(seq, Ok(vec![seq as u8])));
        outputs.push(d.outputs.last().unwrap().0);
    }
    assert_eq!(outputs, vec![0, 1, 2, 3]);
    assert_eq!(d.accepted, 4);
    assert_eq!(d.emitted, 4);
}

#[test]
fn completion_order_independent_of_submission() {
    // durations [400, 100, 200, 300]: completions come back as
    // 2, 3, 4, 1 by identity
    let mut d = ProvingTaskDispatcher::new(4);
    for seq in [1u64, 2, 3, 4] {
        assert!(d.can_accept());
        d.accept(seq);
    }
    for seq in [2u64, 3, 4, 1] {
        assert!(d.complete(seq, Ok(vec![])));
    }
    let order: Vec<u64> = d.outputs.iter().map(|p| p.0).collect();
    assert_eq!(order, vec![2, 3, 4, 1]);
}

#[test]
fn two_tasks_long_then_short() {
    // a long task submitted before a short one: the short one's
    // output arrives first
    let mut d = ProvingTaskDispatcher::new(2);
    d.accept(0); // long
    d.accept(1); // short
    assert!(d.complete(1, Ok(vec![1])));
    assert!(d.complete(0, Ok(vec![0])));
    let order: Vec<u64> = d.outputs.iter().map(|p| p.0).collect();
    assert_eq!(order, vec![1, 0]);
}

#[test]
fn graceful_drain_emits_one_output_per_task() {
    // close the input while three tasks are in flight: three outputs,
    // then the dispatcher exits
    let mut d = ProvingTaskDispatcher::new(4);
    d.accept(0);
    d.accept(1);
    d.accept(2);
    d.close_input();
    assert_eq!(d.mode, DispatchMode::Draining);
    d.drain(vec![(1, Ok(vec![])), (0, Ok(vec![])), (2, Ok(vec![]))]);
    assert_eq!(d.mode, DispatchMode::Closed);
    assert_eq!(d.outputs.len(), 3);
    assert_eq!(d.emitted, d.accepted);
}

#[test]
fn close_with_nothing_in_flight_exits_at_once() {
    let mut d = ProvingTaskDispatcher::new(2);
    d.close_input();
    assert_eq!(d.mode, DispatchMode::Closed);
    assert_eq!(d.emitted, 0);
}

#[test]
fn output_gone_discards_results() {
    let mut d = ProvingTaskDispatcher::new(2);
    d.accept(0);
    d.accept(1);
    d.output_closed();
    assert_eq!(d.mode, DispatchMode::Discarding);
    d.drain(vec![(0, Ok(vec![])), (1, Ok(vec![]))]);
    assert_eq!(d.mode, DispatchMode::Closed);
    assert_eq!(d.outputs.len(), 0);
    assert_eq!(d.discarded, 2);
}

#[test]
fn lost_worker_frees_its_slot() {
    let mut d = ProvingTaskDispatcher::new(1);
    d.accept(0);
    assert!(!d.can_accept());
    assert!(d.worker_lost(0));
    assert!(d.can_accept());
    assert_eq!(d.lost, 1);
    assert_eq!(d.emitted, 0);
}

#[test]
fn unknown_completion_changes_nothing() {
    let mut d = ProvingTaskDispatcher::new(1);
    d.accept(0);
    assert!(!d.complete(9, Ok(vec![])));
    assert_eq!(d.emitted, 0);
    assert!(d.complete(0, Ok(vec![])));
}

#[test]
fn backpressure_bound_holds_concretely() {
    // pool 1, depth 1: at most 1 + 1 + 1 tasks anywhere in the system
    let mut sys = ProvingSystem {
        queue: TaskQueue::new(1),
        dispatcher: ProvingTaskDispatcher::new(1),
        held: None,
    };
    assert!(sys.queue.try_send(0));
    // queue full: the producer blocks here
    assert!(!sys.queue.try_send(99));
    assert!(sys.take_task());
    assert!(sys.queue.try_send(1));
    sys.submit_held();
    // no more work is admitted until a completion frees the slot
    assert!(!sys.dispatcher.can_accept());
    assert!(
        sys.queue.items.len() + sys.dispatcher.inflight.len()
            <= sys.dispatcher.pool_size + sys.queue.depth + 1
    );
}
