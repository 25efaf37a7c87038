use std::fmt;
use std::future::Future;
use std::sync::atomic::{AtomicU32, Ordering};
use std::sync::Arc;
use std::task::{Context, Poll, Waker};

use trait_kit::error::{ErrorKind, ErrorSource, TraitKitError};
use trait_kit::erased::AnyBox;
use trait_kit::events::{EventBus, KitEvent, NoOpEventBus};
use trait_kit::lazy::{LazySlot, SlotStep};
use trait_kit::modules::ModuleMeta;
use trait_kit::ports::{LogLevel, LogPort, NoOpLogPort};

#[derive(Debug)]
struct TestError(&'static str);

impl fmt::Display for TestError {
    fn fmt(&self, f: &mut fmt::Formatter<'_>) -> fmt::Result {
        f.write_str(self.0)
    }
}

impl std::error::Error for TestError {}

#[derive(Debug)]
struct InterfaceTestError;

impl fmt::Display for InterfaceTestError {
    fn fmt(&self, f: &mut fmt::Formatter<'_>) -> fmt::Result {
        f.write_str("interface test error")
    }
}

impl std::error::Error for InterfaceTestError {}

/// Minimal single-threaded executor: polls until ready, with a bound.
fn block_on<F: Future>(future: F) -> F::Output {
    const MAX_POLLS: u32 = 1_000_000;
    let waker = Waker::noop();
    let mut cx = Context::from_waker(waker);
    let mut future = Box::pin(future);
    let mut polls = 0u32;
    loop {
        match future.as_mut().poll(&mut cx) {
            Poll::Ready(v) => return v,
            Poll::Pending => {
                polls += 1;
                assert!(polls < MAX_POLLS, "block_on: future did not complete");
                std::hint::spin_loop();
            }
        }
    }
}

#[test]
fn block_on_handles_pending() {
    static POLL_COUNT: AtomicU32 = AtomicU32::new(0);
    POLL_COUNT.store(0, Ordering::SeqCst);

    let result = block_on(std::future::poll_fn(|_cx| {
        let n = POLL_COUNT.fetch_add(1, Ordering::SeqCst);
        if n < 1 {
            Poll::Pending
        } else {
            Poll::Ready(42)
        }
    }));
    assert_eq!(result, 42);
    assert_eq!(POLL_COUNT.load(Ordering::SeqCst), 2);
}

#[test]
fn test_error_display() {
    let err = TestError("oops");
    assert_eq!(err.to_string(), "oops");
}

#[test]
fn interface_test_error_display() {
    let e = InterfaceTestError;
    assert_eq!(format!("{e}"), "interface test error");
}

#[test]
fn event_kind_names_are_stable() {
    assert_eq!(
        KitEvent::ModuleBuilt {
            module: "m",
            elapsed_us: 1
        }
        .kind(),
        "module_built"
    );
    assert_eq!(
        KitEvent::HealthChanged {
            module: "m",
            status: "healthy",
            detail: None
        }
        .kind(),
        "health_changed"
    );
    assert_eq!(
        KitEvent::ConfigChanged {
            key: "k".into(),
            summary: "updated".into()
        }
        .kind(),
        "config_changed"
    );
}

#[test]
fn noop_bus_publishes_without_effect() {
    fn assert_send_sync<T: Send + Sync>() {}
    assert_send_sync::<NoOpEventBus>();
    NoOpEventBus.publish(KitEvent::ModuleBuilt {
        module: "x",
        elapsed_us: 0,
    });
    assert_eq!(std::mem::size_of::<NoOpEventBus>(), 0);
}

#[test]
fn noop_log_port_is_zero_overhead() {
    let port = NoOpLogPort;
    port.record_log(LogLevel::Info, "test");
    port.record_log(LogLevel::Error, "test");
}

#[test]
fn log_port_is_object_safe() {
    let port: Arc<dyn LogPort> = Arc::new(NoOpLogPort);
    port.record_log(LogLevel::Warn, "hello");
}

#[test]
fn log_level_ordering() {
    assert!(LogLevel::Trace < LogLevel::Debug);
    assert!(LogLevel::Debug < LogLevel::Info);
    assert!(LogLevel::Info < LogLevel::Warn);
    assert!(LogLevel::Warn < LogLevel::Error);
}

#[test]
fn default_i18n_ftl_is_empty() {
    struct Plain;
    impl ModuleMeta for Plain {
        const NAME: &'static str = "plain";
    }
    assert!(<Plain as ModuleMeta>::i18n_ftl().is_empty());
    assert!(<Plain as ModuleMeta>::dependencies().is_empty());
}

#[test]
fn kind_covers_all_variants() {
    let missing = TraitKitError::MissingCapability { key: "k".into() };
    let cfg = TraitKitError::MissingConfig { key: "c".into() };
    let mismatch = TraitKitError::CapabilityTypeMismatch { key: "k".into() };
    let build = TraitKitError::BuildFailed {
        context: "m".into(),
        source: ErrorSource::new(std::io::Error::other("x")),
    };
    let reg = TraitKitError::AlreadyRegistered { module: "m" };
    assert_eq!(missing.kind(), ErrorKind::Missing);
    assert_eq!(cfg.kind(), ErrorKind::Missing);
    assert_eq!(mismatch.kind(), ErrorKind::TypeMismatch);
    assert_eq!(build.kind(), ErrorKind::InitFailed);
    assert_eq!(reg.kind(), ErrorKind::Other);
}

#[test]
fn error_messages_name_their_subject() {
    let build = TraitKitError::BuildFailed {
        context: "db".into(),
        source: ErrorSource::new(std::io::Error::other("connection refused")),
    };
    assert_eq!(build.message(), "failed to build `db`");
    if let TraitKitError::BuildFailed { source, .. } = &build {
        assert_eq!(source.message(), "connection refused");
    }
    let dep = TraitKitError::DependencyMissing {
        module: "a",
        missing: "b",
    };
    assert_eq!(dep.message(), "module `a` depends on unregistered module `b`");
    assert_eq!(dep.kind(), ErrorKind::Missing);
    let cycle = TraitKitError::CycleDetected {
        cycle: vec!["a", "b", "a"],
    };
    assert_eq!(cycle.message(), "dependency cycle detected: a -> b -> a");
}

#[test]
fn lazy_slot_steps_cache_then_builder() {
    let mut slot: LazySlot<u8> = LazySlot::new(7);
    assert!(matches!(slot.next_step(), SlotStep::Build));
    let builder = slot.take_builder();
    assert_eq!(builder, Some(7));
    assert!(matches!(slot.next_step(), SlotStep::Missing));
    slot.restore(7);
    assert!(slot.fill(AnyBox::new(42u32)));
    assert!(matches!(slot.next_step(), SlotStep::Cached));
    assert_eq!(slot.cached_as::<u32>(), Some(42));
    assert!(!slot.fill(AnyBox::new(1u32)));
    assert_eq!(slot.cached_as::<u32>(), Some(42));
}
