use std::sync::atomic::{AtomicUsize, Ordering};
use std::sync::Mutex;
use std::time::{Duration, Instant};

use trait_kit::error::TraitKitError;
use trait_kit::shutdown::{
    decide_phase, decide_timeout, skipped_phase_result, AsyncShutdownCoordinator, PhaseStep,
    ShutdownCoordinator, ShutdownPhase, ShutdownPhaseResult, ShutdownResult, TimeoutDecision,
};

/// Keep the current thread busy for `d`.
fn busy_wait(d: Duration) {
    let start = Instant::now();
    while start.elapsed() < d {}
}

#[test]
fn shutdown_phase_all_phases_returns_three() {
    assert_eq!(ShutdownPhase::all_phases().len(), 3);
}

#[test]
fn shutdown_phase_as_str_returns_readable_name() {
    assert_eq!(ShutdownPhase::StopRequests.as_str(), "stop_requests");
    assert_eq!(ShutdownPhase::DrainQueue.as_str(), "drain_queue");
    assert_eq!(ShutdownPhase::CloseConnections.as_str(), "close_connections");
}

#[test]
fn shutdown_coordinator_executes_hooks_in_order() {
    static ORDER: AtomicUsize = AtomicUsize::new(0);

    let mut coord = ShutdownCoordinator::new();
    coord.register_hook(ShutdownPhase::StopRequests, || {
        assert_eq!(ORDER.fetch_add(1, Ordering::SeqCst), 0);
    });
    coord.register_hook(ShutdownPhase::StopRequests, || {
        assert_eq!(ORDER.fetch_add(1, Ordering::SeqCst), 1);
    });
    coord.register_hook(ShutdownPhase::DrainQueue, || {
        assert_eq!(ORDER.fetch_add(1, Ordering::SeqCst), 2);
    });
    coord.register_hook(ShutdownPhase::CloseConnections, || {
        assert_eq!(ORDER.fetch_add(1, Ordering::SeqCst), 3);
    });

    let result = coord.shutdown();
    assert_eq!(result.phases.len(), 3);
    assert!(result.is_ok());
    assert_eq!(ORDER.load(Ordering::SeqCst), 4);
}

#[test]
fn shutdown_coordinator_phase_order_is_correct() {
    static PHASE_ORDER: Mutex<Vec<ShutdownPhase>> = Mutex::new(Vec::new());

    let mut coord = ShutdownCoordinator::new();
    coord.register_hook(ShutdownPhase::CloseConnections, || {
        PHASE_ORDER
            .lock()
            .unwrap()
            .push(ShutdownPhase::CloseConnections);
    });
    coord.register_hook(ShutdownPhase::StopRequests, || {
        PHASE_ORDER.lock().unwrap().push(ShutdownPhase::StopRequests);
    });
    coord.register_hook(ShutdownPhase::DrainQueue, || {
        PHASE_ORDER.lock().unwrap().push(ShutdownPhase::DrainQueue);
    });

    let _ = coord.shutdown();

    let order = PHASE_ORDER.lock().unwrap();
    assert_eq!(
        *order,
        vec![
            ShutdownPhase::StopRequests,
            ShutdownPhase::DrainQueue,
            ShutdownPhase::CloseConnections,
        ]
    );
}

#[test]
fn shutdown_results_equality_and_default() {
    let a = ShutdownPhaseResult {
        phase: ShutdownPhase::DrainQueue,
        timed_out: true,
        elapsed: Duration::from_millis(5),
    };
    let b = ShutdownPhaseResult {
        phase: ShutdownPhase::DrainQueue,
        timed_out: true,
        elapsed: Duration::from_millis(5),
    };
    let c = ShutdownPhaseResult {
        timed_out: false,
        ..b.clone()
    };
    assert_eq!(a, b);
    assert_ne!(a, c);
    assert_eq!(
        ShutdownPhaseResult::default(),
        ShutdownPhaseResult {
            phase: ShutdownPhase::StopRequests,
            timed_out: false,
            elapsed: Duration::ZERO,
        }
    );

    let r1 = ShutdownResult { phases: vec![a] };
    let r2 = ShutdownResult { phases: vec![b] };
    assert_eq!(r1, r2);
    assert_eq!(ShutdownResult::default(), ShutdownResult { phases: Vec::new() });
}

#[test]
fn shutdown_result_into_result_ok() {
    let result = ShutdownResult {
        phases: vec![
            ShutdownPhaseResult {
                phase: ShutdownPhase::StopRequests,
                timed_out: false,
                elapsed: Duration::from_millis(1),
            },
            ShutdownPhaseResult {
                phase: ShutdownPhase::DrainQueue,
                timed_out: false,
                elapsed: Duration::from_millis(1),
            },
            ShutdownPhaseResult {
                phase: ShutdownPhase::CloseConnections,
                timed_out: false,
                elapsed: Duration::from_millis(1),
            },
        ],
    };
    assert!(result.is_ok());
    assert!(result.timed_out_phases().is_empty());
    assert!(result.into_result().is_ok());
}

#[test]
fn shutdown_result_into_result_timeout() {
    let result = ShutdownResult {
        phases: vec![
            ShutdownPhaseResult {
                phase: ShutdownPhase::StopRequests,
                timed_out: false,
                elapsed: Duration::from_millis(1),
            },
            ShutdownPhaseResult {
                phase: ShutdownPhase::DrainQueue,
                timed_out: true,
                elapsed: Duration::from_secs(30),
            },
            ShutdownPhaseResult {
                phase: ShutdownPhase::CloseConnections,
                timed_out: false,
                elapsed: Duration::from_millis(1),
            },
        ],
    };
    assert!(!result.is_ok());
    assert_eq!(result.timed_out_phases(), vec![ShutdownPhase::DrainQueue]);
    let err = result.into_result().unwrap_err();
    let msg = err.message();
    assert!(
        msg.contains("drain_queue"),
        "error should mention timed out phase: {msg}"
    );
}

#[test]
fn shutdown_coordinator_default_works() {
    let mut coord = ShutdownCoordinator::default();
    let result = coord.shutdown();
    assert_eq!(result.phases.len(), 3);
    assert!(result.is_ok());
}

#[test]
fn shutdown_coordinator_empty_phases_succeed() {
    let mut coord = ShutdownCoordinator::new();
    let result = coord.shutdown();
    assert_eq!(result.phases.len(), 3);
    for r in &result.phases {
        assert!(r.is_ok());
        assert!(
            r.elapsed.as_nanos() < 1_000_000,
            "empty phase should be near-instant"
        );
    }
}

#[test]
fn shutdown_coordinator_normal_path_returns_ok() {
    let mut coord = ShutdownCoordinator::new();
    coord.set_global_timeout(Duration::from_secs(1));
    coord.set_phase_timeout(ShutdownPhase::DrainQueue, Duration::from_secs(1));
    coord.register_hook(ShutdownPhase::StopRequests, || {});

    let phase = coord.execute_phase(ShutdownPhase::StopRequests, None);
    assert!(phase.is_ok());
    assert!(coord.shutdown().is_ok());
}

#[test]
fn shutdown_coordinator_hooks_not_reentrant() {
    static CALL_COUNT: AtomicUsize = AtomicUsize::new(0);

    let mut coord = ShutdownCoordinator::new();
    coord.register_hook(ShutdownPhase::StopRequests, || {
        CALL_COUNT.fetch_add(1, Ordering::SeqCst);
    });

    let _ = coord.shutdown();
    assert_eq!(CALL_COUNT.load(Ordering::SeqCst), 1);

    let _ = coord.shutdown();
    assert_eq!(CALL_COUNT.load(Ordering::SeqCst), 1);
}

#[test]
fn shutdown_coordinator_zero_phase_budget_skips_hooks() {
    static CALLED: AtomicUsize = AtomicUsize::new(0);

    let mut coord = ShutdownCoordinator::new();
    coord.set_phase_timeout(ShutdownPhase::DrainQueue, Duration::ZERO);
    coord.register_hook(ShutdownPhase::StopRequests, || {
        CALLED.fetch_add(1, Ordering::SeqCst);
    });
    coord.register_hook(ShutdownPhase::DrainQueue, || {
        CALLED.fetch_add(100, Ordering::SeqCst);
    });
    coord.register_hook(ShutdownPhase::CloseConnections, || {
        CALLED.fetch_add(1, Ordering::SeqCst);
    });

    let result = coord.shutdown();
    assert!(result.phases[0].is_ok());
    assert!(result.phases[1].timed_out);
    assert!(result.phases[2].is_ok());
    assert_eq!(result.timed_out_phases(), vec![ShutdownPhase::DrainQueue]);
    assert_eq!(CALLED.load(Ordering::SeqCst), 2);
}

#[test]
fn shutdown_coordinator_zero_global_budget_skips_every_phase() {
    static CALLED: AtomicUsize = AtomicUsize::new(0);

    let mut coord = ShutdownCoordinator::new();
    coord.set_global_timeout(Duration::ZERO);
    coord.register_hook(ShutdownPhase::StopRequests, || {
        CALLED.fetch_add(1, Ordering::SeqCst);
    });

    let result = coord.shutdown();
    assert_eq!(CALLED.load(Ordering::SeqCst), 0);
    assert!(result.phases.iter().all(|p| p.timed_out));
    assert!(result.phases.iter().all(|p| p.elapsed == Duration::ZERO));
    let err = result.into_result().unwrap_err();
    assert!(matches!(err, TraitKitError::ShutdownTimedOut { ref phases } if phases.len() == 3));
    assert_eq!(
        err.message(),
        "shutdown timed out in phases: stop_requests, drain_queue, close_connections"
    );
}

#[test]
fn decide_timeout_skips_on_either_budget() {
    assert!(matches!(decide_timeout(false, false), TimeoutDecision::RunHook));
    assert!(matches!(decide_timeout(true, false), TimeoutDecision::SkipRemaining));
    assert!(matches!(decide_timeout(false, true), TimeoutDecision::SkipRemaining));
    assert!(matches!(decide_timeout(true, true), TimeoutDecision::SkipRemaining));
}

#[test]
fn shutdown_result_derefs_to_phase_slice() {
    let mut coord = ShutdownCoordinator::new();
    let result = coord.shutdown();
    assert_eq!(result.len(), 3);
    assert!(result[0].is_ok());
    assert_eq!(result[2].phase, ShutdownPhase::CloseConnections);
}

#[test]
fn async_shutdown_coordinator_registry_operations_succeed() {
    let mut coord: AsyncShutdownCoordinator<u32> = AsyncShutdownCoordinator::new();
    assert!(coord.set_global_timeout(Duration::from_secs(1)).is_ok());
    assert!(coord
        .set_phase_timeout(ShutdownPhase::DrainQueue, Duration::from_secs(2))
        .is_ok());
    coord.register_hook(ShutdownPhase::DrainQueue, 1).unwrap();
    coord.register_hook(ShutdownPhase::DrainQueue, 2).unwrap();
    coord.register_hook(ShutdownPhase::StopRequests, 3).unwrap();
    assert_eq!(coord.global_timeout(), Some(Duration::from_secs(1)));
    let (hooks, budget) = coord.take_phase(ShutdownPhase::DrainQueue);
    assert_eq!(hooks, vec![1, 2]);
    assert_eq!(budget, Duration::from_secs(2));
    let (again, _) = coord.take_phase(ShutdownPhase::DrainQueue);
    assert!(again.is_empty());
    let (first, default_budget) = coord.take_phase(ShutdownPhase::StopRequests);
    assert_eq!(first, vec![3]);
    assert_eq!(default_budget, Duration::from_secs(30));
}

#[test]
fn shutdown_coordinator_global_timeout() {
    static CALLED: AtomicUsize = AtomicUsize::new(0);

    let mut coord = ShutdownCoordinator::new();
    coord.set_global_timeout(Duration::from_millis(10));

    coord.register_hook(ShutdownPhase::StopRequests, || {
        busy_wait(Duration::from_millis(50));
        CALLED.fetch_add(1, Ordering::SeqCst);
    });
    coord.register_hook(ShutdownPhase::DrainQueue, || {
        CALLED.fetch_add(1, Ordering::SeqCst);
    });
    coord.register_hook(ShutdownPhase::CloseConnections, || {
        CALLED.fetch_add(1, Ordering::SeqCst);
    });

    let result = coord.shutdown();
    assert_eq!(result.phases.len(), 3);
    assert_eq!(CALLED.load(Ordering::SeqCst), 1);
    assert!(result.phases[0].is_ok());
    assert!(result.phases[1].timed_out);
    assert!(result.phases[2].timed_out);
}

#[test]
fn shutdown_coordinator_global_timeout_checked_between_hooks_in_phase() {
    static CALLED: AtomicUsize = AtomicUsize::new(0);

    let mut coord = ShutdownCoordinator::new();
    coord.set_global_timeout(Duration::from_millis(20));

    coord.register_hook(ShutdownPhase::StopRequests, || {
        busy_wait(Duration::from_millis(50));
        CALLED.fetch_add(1, Ordering::SeqCst);
    });
    coord.register_hook(ShutdownPhase::StopRequests, || {
        CALLED.fetch_add(1, Ordering::SeqCst);
    });
    coord.register_hook(ShutdownPhase::DrainQueue, || {
        CALLED.fetch_add(1, Ordering::SeqCst);
    });

    let result = coord.shutdown();
    assert_eq!(CALLED.load(Ordering::SeqCst), 1, "only the first hook runs");
    assert!(
        result.phases[0].timed_out,
        "after the global budget is spent the phase's remaining hooks are skipped: {result:?}"
    );
    assert!(result.phases[1].timed_out);
    assert!(result.phases[2].timed_out);
}

#[test]
fn decide_phase_skips_exactly_after_deadline() {
    assert!(matches!(decide_phase(true), PhaseStep::SkipPhase));
    assert!(matches!(decide_phase(false), PhaseStep::Execute));
    let r = skipped_phase_result(ShutdownPhase::DrainQueue);
    assert_eq!(r.phase, ShutdownPhase::DrainQueue);
    assert!(r.timed_out);
    assert_eq!(r.elapsed, Duration::ZERO);
}

#[test]
fn async_shutdown_coordinator_default() {
    let mut coord: AsyncShutdownCoordinator<u32> = AsyncShutdownCoordinator::default();
    assert_eq!(coord.global_timeout(), None);
    let mut phases = Vec::new();
    for phase in ShutdownPhase::all_phases() {
        assert!(matches!(decide_phase(false), PhaseStep::Execute));
        let (hooks, budget) = coord.take_phase(*phase);
        assert!(hooks.is_empty());
        assert_eq!(budget, Duration::from_secs(30));
        phases.push(ShutdownPhaseResult {
            phase: *phase,
            timed_out: false,
            elapsed: Duration::ZERO,
        });
    }
    let result = ShutdownResult { phases };
    assert!(result.is_ok());
}
