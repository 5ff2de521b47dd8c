use zerotier_system_service::background::binding_step;
use zerotier_system_service::background::maintenance_step;
use zerotier_system_service::background::BindingAction;
use zerotier_system_service::background::BindingEvent;
use zerotier_system_service::background::LoopState;
use zerotier_system_service::background::MaintenanceAction;
use zerotier_system_service::background::MaintenanceEvent;
use zerotier_system_service::background::Delay;
use zerotier_system_service::background::CORE_BACKGROUND_FIRST_DELAY_SECS;
use zerotier_system_service::background::UDP_UPDATE_BINDINGS_INTERVAL_MS;

#[test]
fn the_maintenance_loop_waits_a_second_before_its_first_run() {
    assert_eq!(CORE_BACKGROUND_FIRST_DELAY_SECS, 1);
    assert_eq!(
        maintenance_step(LoopState::Idle, MaintenanceEvent::Started),
        (LoopState::Sleeping, MaintenanceAction::Sleep(Delay { secs: 1, nanos: 0 }))
    );
}

#[test]
fn the_maintenance_loop_runs_the_core_when_it_wakes() {
    assert_eq!(
        maintenance_step(LoopState::Sleeping, MaintenanceEvent::Woke),
        (LoopState::Running, MaintenanceAction::RunCore)
    );
}

#[test]
fn the_maintenance_loop_sleeps_exactly_as_long_as_the_core_asks() {
    for delay in [
        Delay { secs: 0, nanos: 0 },
        Delay { secs: 0, nanos: 1 },
        Delay { secs: 0, nanos: 250_000_000 },
        Delay { secs: 1, nanos: 0 },
        Delay { secs: 60, nanos: 999_999_999 },
        Delay { secs: u64::MAX, nanos: u32::MAX },
    ] {
        assert_eq!(
            maintenance_step(LoopState::Running, MaintenanceEvent::CoreDone(delay)),
            (LoopState::Sleeping, MaintenanceAction::Sleep(delay))
        );
    }
}

#[test]
fn the_maintenance_loop_goes_round() {
    let mut state = LoopState::Idle;
    let mut slept = Vec::new();
    let mut event = MaintenanceEvent::Started;
    for round in 0..6u32 {
        let (next, action) = maintenance_step(state, event);
        state = next;
        event = match action {
            MaintenanceAction::Sleep(delay) => {
                slept.push(delay);
                MaintenanceEvent::Woke
            }
            MaintenanceAction::RunCore => MaintenanceEvent::CoreDone(Delay { secs: 0, nanos: 100 + round }),
            MaintenanceAction::Ignore => panic!("an expected event was ignored"),
        };
    }
    assert_eq!(
        slept,
        vec![Delay { secs: 1, nanos: 0 }, Delay { secs: 0, nanos: 101 }, Delay { secs: 0, nanos: 103 }]
    );
    assert_eq!(state, LoopState::Running);
}

#[test]
fn a_maintenance_event_that_does_not_belong_changes_nothing() {
    let ignored = [
        (LoopState::Idle, MaintenanceEvent::Woke),
        (LoopState::Idle, MaintenanceEvent::CoreDone(Delay { secs: 5, nanos: 0 })),
        (LoopState::Sleeping, MaintenanceEvent::Started),
        (LoopState::Sleeping, MaintenanceEvent::CoreDone(Delay { secs: 5, nanos: 0 })),
        (LoopState::Running, MaintenanceEvent::Woke),
        (LoopState::Running, MaintenanceEvent::Started),
    ];
    for (state, event) in ignored {
        assert_eq!(maintenance_step(state, event), (state, MaintenanceAction::Ignore));
    }
}

#[test]
fn the_binding_loop_reconciles_at_once() {
    assert_eq!(
        binding_step(LoopState::Idle, BindingEvent::Started),
        (LoopState::Running, BindingAction::Reconcile)
    );
}

#[test]
fn the_binding_loop_waits_two_and_a_half_seconds_between_rounds() {
    assert_eq!(UDP_UPDATE_BINDINGS_INTERVAL_MS, 2500);
    assert_eq!(
        binding_step(LoopState::Running, BindingEvent::Reconciled { bind_failures: 0, failed: false }),
        (LoopState::Sleeping, BindingAction::Sleep { report: false, ms: 2500 })
    );
    assert_eq!(
        binding_step(LoopState::Sleeping, BindingEvent::Woke),
        (LoopState::Running, BindingAction::Reconcile)
    );
}

#[test]
fn refused_binds_are_reported_even_if_the_port_has_sockets() {
    assert_eq!(
        binding_step(LoopState::Running, BindingEvent::Reconciled { bind_failures: 2, failed: false }),
        (LoopState::Sleeping, BindingAction::Sleep { report: true, ms: 2500 })
    );
    assert_eq!(
        binding_step(LoopState::Running, BindingEvent::Reconciled { bind_failures: 1, failed: true }),
        (LoopState::Sleeping, BindingAction::Sleep { report: true, ms: 2500 })
    );
}

#[test]
fn a_failed_port_is_reported_and_not_tried_again_at_once() {
    assert_eq!(
        binding_step(LoopState::Running, BindingEvent::Reconciled { bind_failures: 0, failed: true }),
        (LoopState::Sleeping, BindingAction::Sleep { report: true, ms: 2500 })
    );
}

#[test]
fn a_binding_event_that_does_not_belong_changes_nothing() {
    let ignored = [
        (LoopState::Idle, BindingEvent::Woke),
        (LoopState::Idle, BindingEvent::Reconciled { bind_failures: 0, failed: true }),
        (LoopState::Sleeping, BindingEvent::Started),
        (LoopState::Sleeping, BindingEvent::Reconciled { bind_failures: 0, failed: false }),
        (LoopState::Running, BindingEvent::Woke),
        (LoopState::Running, BindingEvent::Started),
    ];
    for (state, event) in ignored {
        assert_eq!(binding_step(state, event), (state, BindingAction::Ignore));
    }
}

#[test]
fn the_service_keeps_the_state_of_its_loops() {
    let mut service = zerotier_system_service::Service::new(1);
    assert_eq!(service.udp_binding_task_step(BindingEvent::Woke), BindingAction::Ignore);
    assert_eq!(service.udp_binding_task_step(BindingEvent::Started), BindingAction::Reconcile);
    assert_eq!(
        service.udp_binding_task_step(BindingEvent::Reconciled { bind_failures: 0, failed: true }),
        BindingAction::Sleep { report: true, ms: 2500 }
    );
    assert_eq!(service.udp_binding_task_step(BindingEvent::Woke), BindingAction::Reconcile);

    assert_eq!(
        service.core_background_service_task_step(MaintenanceEvent::Started),
        MaintenanceAction::Sleep(Delay { secs: 1, nanos: 0 })
    );
    assert_eq!(service.core_background_service_task_step(MaintenanceEvent::Woke), MaintenanceAction::RunCore);
    assert_eq!(
        service.core_background_service_task_step(MaintenanceEvent::CoreDone(Delay { secs: 0, nanos: 77 })),
        MaintenanceAction::Sleep(Delay { secs: 0, nanos: 77 })
    );
}

#[test]
fn after_a_shutdown_both_loops_ask_for_nothing_more() {
    let mut service = zerotier_system_service::Service::new(1);
    service.udp_binding_task_step(BindingEvent::Started);
    service.core_background_service_task_step(MaintenanceEvent::Started);
    service.shutdown();
    for event in [BindingEvent::Started, BindingEvent::Woke, BindingEvent::Reconciled { bind_failures: 0, failed: false }] {
        assert_eq!(service.udp_binding_task_step(event), BindingAction::Ignore);
    }
    for event in [
        MaintenanceEvent::Started,
        MaintenanceEvent::Woke,
        MaintenanceEvent::CoreDone(Delay { secs: 1, nanos: 0 }),
    ] {
        assert_eq!(service.core_background_service_task_step(event), MaintenanceAction::Ignore);
    }
    assert_eq!(
        binding_step(LoopState::Stopped, BindingEvent::Started),
        (LoopState::Stopped, BindingAction::Ignore)
    );
    assert_eq!(
        maintenance_step(LoopState::Stopped, MaintenanceEvent::Woke),
        (LoopState::Stopped, MaintenanceAction::Ignore)
    );
}
