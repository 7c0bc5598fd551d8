use http_server::pool::{collect_outcomes, Flow, PoolError, WorkerEvent, WorkerResult, WorkerState};

fn run(events: &[WorkerEvent]) -> (Vec<Flow>, WorkerResult) {
    let mut state = WorkerState::new();
    let mut flows = Vec::new();
    for e in events {
        let f = state.on_event(*e);
        flows.push(f);
        if let Flow::Stop(r) = f {
            return (flows, r);
        }
    }
    let r = state.outcome();
    (flows, r)
}

#[test]
fn pool_panic_then_recovery() {
    let (flows, outcome) = run(&[
        WorkerEvent::Finished { panicked: true },
        WorkerEvent::Finished { panicked: false },
        WorkerEvent::Resign,
    ]);
    assert_eq!(
        flows,
        vec![Flow::Continue, Flow::Continue, Flow::Stop(WorkerResult::Panic)]
    );
    assert_eq!(outcome, WorkerResult::Panic);
}

#[test]
fn two_workers_one_panics() {
    let (_, first) = run(&[WorkerEvent::Finished { panicked: true }, WorkerEvent::Resign]);
    let (_, second) = run(&[WorkerEvent::Finished { panicked: false }, WorkerEvent::Resign]);
    assert_eq!(first, WorkerResult::Panic);
    assert_eq!(second, WorkerResult::Clean);
}

#[test]
fn worker_without_tasks_is_clean() {
    let (flows, outcome) = run(&[WorkerEvent::Resign]);
    assert_eq!(flows, vec![Flow::Stop(WorkerResult::Clean)]);
    assert_eq!(outcome, WorkerResult::Clean);
    let (flows, outcome) = run(&[WorkerEvent::Closed, WorkerEvent::Finished { panicked: true }]);
    assert_eq!(flows, vec![Flow::Stop(WorkerResult::Clean)]);
    assert_eq!(outcome, WorkerResult::Clean);
}

#[test]
fn outcomes_collected_in_order() {
    let r = collect_outcomes(vec![Ok(WorkerResult::Clean), Ok(WorkerResult::Panic)]);
    assert_eq!(r.ok().unwrap(), vec![WorkerResult::Clean, WorkerResult::Panic]);
    let r = collect_outcomes(vec![
        Ok(WorkerResult::Clean),
        Err(PoolError::CouldNotJoin("boom".to_string())),
        Err(PoolError::CouldNotJoin("later".to_string())),
    ]);
    match r {
        Err(PoolError::CouldNotJoin(text)) => assert_eq!(text, "boom"),
        Ok(_) => panic!("expected an error"),
    }
    assert!(collect_outcomes(Vec::new()).ok().unwrap().is_empty());
}
