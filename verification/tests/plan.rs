use std::any::TypeId;

use trait_kit::batch::BatchSchedule;
use trait_kit::error::TraitKitError;
use trait_kit::graph::{DependencyGraph, ModuleEntry};
use trait_kit::plan::{
    build_order, eager_step, ready_callback_order, require_step, topo_callback_order, EagerStep,
    Lookup, RequireStep,
};
use trait_kit::report::{ModuleBuildState, OverrideRecord, ReportFields, SCHEMA_VERSION};

struct A;
struct B;
struct C;

fn entry<T: 'static>(name: &'static str, deps: Vec<(&'static str, TypeId)>) -> ModuleEntry {
    ModuleEntry {
        type_id: TypeId::of::<T>(),
        name,
        dependencies: deps,
    }
}

#[test]
fn build_order_maps_graph_errors() {
    let mut g = DependencyGraph::new();
    g.add(entry::<A>("a", vec![("b", TypeId::of::<B>())])).unwrap();
    assert!(matches!(
        build_order(&g),
        Err(TraitKitError::DependencyMissing {
            module: "a",
            missing: "b"
        })
    ));
    g.add(entry::<B>("b", vec![("a", TypeId::of::<A>())])).unwrap();
    assert!(matches!(build_order(&g), Err(TraitKitError::CycleDetected { .. })));

    let mut ok = DependencyGraph::new();
    ok.add(entry::<B>("b", vec![("a", TypeId::of::<A>())])).unwrap();
    ok.add(entry::<A>("a", vec![])).unwrap();
    assert_eq!(
        build_order(&ok).unwrap(),
        vec![TypeId::of::<A>(), TypeId::of::<B>()]
    );
}

#[test]
fn eager_step_priorities() {
    assert_eq!(eager_step(true, true, true), EagerStep::UseOverride);
    assert_eq!(eager_step(false, true, true), EagerStep::Defer);
    assert_eq!(eager_step(false, false, true), EagerStep::Build);
    assert_eq!(eager_step(false, false, false), EagerStep::Skip);
}

#[test]
fn require_step_priorities() {
    assert_eq!(require_step(Lookup::Found, Lookup::Found, true), RequireStep::Eager);
    assert_eq!(
        require_step(Lookup::WrongType, Lookup::Found, true),
        RequireStep::TypeMismatch
    );
    assert_eq!(require_step(Lookup::Absent, Lookup::Found, true), RequireStep::Cached);
    assert_eq!(
        require_step(Lookup::Absent, Lookup::WrongType, true),
        RequireStep::TypeMismatch
    );
    assert_eq!(
        require_step(Lookup::Absent, Lookup::Absent, true),
        RequireStep::BuildLazily
    );
    assert_eq!(require_step(Lookup::Absent, Lookup::Absent, false), RequireStep::Missing);
}

#[test]
fn callback_order_is_stable_by_topological_rank() {
    let sorted = [TypeId::of::<A>(), TypeId::of::<B>()];
    let ids = [
        TypeId::of::<C>(),
        TypeId::of::<B>(),
        TypeId::of::<A>(),
        TypeId::of::<B>(),
    ];
    assert_eq!(topo_callback_order(&sorted, &ids), vec![2, 1, 3, 0]);
    assert!(topo_callback_order(&sorted, &[]).is_empty());
}

#[test]
fn ready_callbacks_follow_topological_order() {
    let sorted = [TypeId::of::<A>(), TypeId::of::<B>()];
    let ids = [TypeId::of::<B>(), TypeId::of::<C>(), TypeId::of::<A>(), TypeId::of::<B>()];
    assert_eq!(ready_callback_order(&sorted, &ids), vec![2, 3]);
}

#[test]
fn batch_schedule_bounds_running_items() {
    let mut s = BatchSchedule::new(vec![10, 11, 12, 13, 14], 2);
    s.fill();
    assert_eq!(s.running_len(), 2);
    assert_eq!(*s.running_at(0), 10);
    assert_eq!(*s.running_at(1), 11);
    assert_eq!(s.finish(0), 10);
    s.fill();
    assert_eq!(s.running_len(), 2);
    assert_eq!(*s.running_at(1), 12);
    while s.running_len() > 0 {
        s.finish(0);
        s.fill();
    }
    assert!(s.is_done());

    let mut z = BatchSchedule::new(vec![1, 2], 0);
    z.fill();
    assert_eq!(z.running_len(), 1);
}

#[test]
fn report_snapshot_keeps_records_in_order() {
    let mut r = ReportFields::new();
    r.set_topo_order(vec!["a", "b"]);
    r.push_overridden("a", vec![]);
    r.push_built("b", 5, vec!["a"]);
    r.push_lazy("c", vec![]);
    r.push_override_record(OverrideRecord {
        module: "a",
        source: "override_module",
    });
    r.set_total_elapsed_us(9);
    let snap = r.snapshot();
    assert_eq!(snap.schema_version, SCHEMA_VERSION);
    assert_eq!(snap.topo_order, vec!["a", "b"]);
    assert_eq!(snap.modules.len(), 3);
    assert_eq!(snap.modules[0].state, ModuleBuildState::Overridden);
    assert_eq!(snap.modules[1].state, ModuleBuildState::Built);
    assert_eq!(snap.modules[1].elapsed_us, Some(5));
    assert_eq!(snap.modules[1].deps, vec!["a"]);
    assert_eq!(snap.modules[2].state, ModuleBuildState::Lazy);
    assert_eq!(snap.overrides[0].source, "override_module");
    assert_eq!(snap.total_elapsed_us, Some(9));
}
