use rusted_pipe::channels::{untyped_channel, ChannelID};
use rusted_pipe::graph::{
    worker_after_invocation, worker_busy_tick, worker_idle_poll, worker_should_run,
    GraphCoordinator, GraphStatus, ProcessorOutcome, WorkerStatus,
};
use rusted_pipe::packet::{DataVersion, UntypedPacket};
use rusted_pipe::read_channel::ReadChannel;
use rusted_pipe::write_channel::WriteChannel;

fn string_packet(data: &str, version: DataVersion) -> UntypedPacket {
    UntypedPacket::new(version, data.as_bytes().to_vec())
}

#[test]
fn test_worker_loop_decisions() {
    assert!(worker_should_run(GraphStatus::Running));
    assert!(worker_should_run(GraphStatus::WaitingForDataToTerminate));
    assert!(!worker_should_run(GraphStatus::Terminating));

    // an idle worker dispatches when a task arrived
    assert_eq!(worker_idle_poll(GraphStatus::Running, true), (true, false));
    // on a timeout it acknowledges the drain only while draining
    assert_eq!(worker_idle_poll(GraphStatus::Running, false), (false, false));
    assert_eq!(
        worker_idle_poll(GraphStatus::WaitingForDataToTerminate, false),
        (false, true)
    );
    // a busy worker acknowledges the drain on every tick while draining
    assert!(!worker_busy_tick(GraphStatus::Running));
    assert!(worker_busy_tick(GraphStatus::WaitingForDataToTerminate));
}

#[test]
fn test_worker_after_invocation_outcomes() {
    assert_eq!(
        worker_after_invocation(ProcessorOutcome::Success),
        (WorkerStatus::Idle, false)
    );
    assert_eq!(
        worker_after_invocation(ProcessorOutcome::EndOfStream),
        (WorkerStatus::Terminating, true)
    );
    assert_eq!(
        worker_after_invocation(ProcessorOutcome::Fatal),
        (WorkerStatus::Terminating, false)
    );
    // panic survival: the node returns to Idle and keeps serving its queue
    assert_eq!(
        worker_after_invocation(ProcessorOutcome::Panicked),
        (WorkerStatus::Idle, false)
    );
}

#[test]
fn test_runtime_terminates_only_after_every_node_is_done() {
    let mut coordinator =
        GraphCoordinator::new(vec!["source".to_string(), "terminal".to_string()]);
    assert_eq!(coordinator.status(), GraphStatus::Running);

    coordinator.stop();
    assert_eq!(coordinator.status(), GraphStatus::WaitingForDataToTerminate);

    coordinator.handle_done(&"source".to_string());
    assert_eq!(coordinator.status(), GraphStatus::WaitingForDataToTerminate);
    // a repeated notification is harmless
    coordinator.handle_done(&"source".to_string());
    assert_eq!(coordinator.status(), GraphStatus::WaitingForDataToTerminate);

    coordinator.handle_done(&"terminal".to_string());
    assert_eq!(coordinator.status(), GraphStatus::Terminating);

    // Terminating is absorbing
    coordinator.stop();
    assert_eq!(coordinator.status(), GraphStatus::Terminating);
}

#[test]
fn test_done_before_stop_counts_toward_termination() {
    let mut coordinator = GraphCoordinator::new(vec!["n0".to_string(), "n1".to_string()]);
    coordinator.handle_done(&"n0".to_string());
    assert_eq!(coordinator.status(), GraphStatus::Running);
    coordinator.stop();
    coordinator.handle_done(&"n1".to_string());
    assert_eq!(coordinator.status(), GraphStatus::Terminating);
}

#[test]
fn test_source_to_terminal_graph_drains_then_terminates() {
    // two-node graph source -> terminal; the source emits versions 1..=10
    // and then reports end of stream; the terminal must observe all ten in
    // order, and both nodes reach Terminating
    let channel = ChannelID::from("wire");
    let (sender, receiver) = untyped_channel();
    let mut write_channel = WriteChannel::new();
    write_channel.add_channel(&channel, sender);
    let mut read_channel = ReadChannel::new(vec![channel.clone()], vec![receiver], 20);

    let mut coordinator =
        GraphCoordinator::new(vec!["source".to_string(), "terminal".to_string()]);
    let mut source_status = WorkerStatus::Idle;
    let mut terminal_status = WorkerStatus::Idle;
    let mut observed: Vec<u64> = Vec::new();

    let mut next_version: u64 = 1;
    let mut rounds = 0;
    while worker_should_run(coordinator.status()) && rounds < 1000 {
        rounds += 1;
        // the source node: emit one version per invocation, then end the
        // stream
        if source_status == WorkerStatus::Idle {
            let outcome = if next_version <= 10 {
                write_channel
                    .write(
                        &channel,
                        &string_packet("data", DataVersion { timestamp: next_version }),
                    )
                    .unwrap();
                next_version += 1;
                ProcessorOutcome::Success
            } else {
                ProcessorOutcome::EndOfStream
            };
            let (next_status, send_done) = worker_after_invocation(outcome);
            source_status = next_status;
            if send_done {
                coordinator.handle_done(&"source".to_string());
            }
        }
        // the terminal node: its reader assembles one tuple per cycle
        if terminal_status == WorkerStatus::Idle {
            let (dispatch, send_done) = match read_channel.read_cycle() {
                Some(tuple) => {
                    observed.push(tuple.packets[0].version.timestamp);
                    worker_idle_poll(coordinator.status(), true)
                }
                None => worker_idle_poll(coordinator.status(), false),
            };
            let _ = dispatch;
            if send_done {
                coordinator.handle_done(&"terminal".to_string());
            }
        }
        // once the source is done, the external stop begins the drain
        if source_status == WorkerStatus::Terminating {
            coordinator.stop();
        }
    }

    let expected: Vec<u64> = (1..=10).collect();
    assert_eq!(observed, expected);
    assert_eq!(source_status, WorkerStatus::Terminating);
    assert_eq!(coordinator.status(), GraphStatus::Terminating);
}

#[test]
fn test_panicking_source_drops_one_version_and_recovers() {
    // the source panics while producing version 5: versions 1..=4 and
    // 6..=10 are processed, version 5 is dropped, and the node stays alive
    let channel = ChannelID::from("wire");
    let (sender, receiver) = untyped_channel();
    let mut write_channel = WriteChannel::new();
    write_channel.add_channel(&channel, sender);
    let mut read_channel = ReadChannel::new(vec![channel.clone()], vec![receiver], 20);

    let mut source_status = WorkerStatus::Idle;
    let mut observed: Vec<u64> = Vec::new();

    for version in 1..=10u64 {
        assert_eq!(source_status, WorkerStatus::Idle);
        let outcome = if version == 5 {
            // the invocation panicked before it could write its output
            ProcessorOutcome::Panicked
        } else {
            write_channel
                .write(&channel, &string_packet("data", DataVersion { timestamp: version }))
                .unwrap();
            ProcessorOutcome::Success
        };
        let (next_status, _) = worker_after_invocation(outcome);
        source_status = next_status;
        while let Some(tuple) = read_channel.read_cycle() {
            observed.push(tuple.packets[0].version.timestamp);
        }
    }

    let expected: Vec<u64> = vec![1, 2, 3, 4, 6, 7, 8, 9, 10];
    assert_eq!(observed, expected);
    assert_eq!(source_status, WorkerStatus::Idle);
}
