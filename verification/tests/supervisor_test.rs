use portless::supervisor::{
    idle_proxy_to_stop, plan_autostart, plan_start, plan_stop, stop_plan_for,
    supervisor_exit_code, AutoStart, ChildEnd, StartPlan, StopPlan,
};
use portless::types::Route;

fn own_pid_text() -> String {
    nix::unistd::getpid().as_raw().to_string()
}

#[test]
fn test_plan_start() {
    assert_eq!(plan_start(true, true, 1355, 1000), StartPlan::LeaveQuietly);
    assert_eq!(plan_start(true, false, 1355, 1000), StartPlan::AlreadyRunning);
    // A proxy that answers is left alone, whoever asks.
    assert_eq!(plan_start(true, false, 80, 1000), StartPlan::AlreadyRunning);
    assert_eq!(plan_start(false, false, 80, 1000), StartPlan::NeedsRoot);
    assert_eq!(plan_start(false, true, 1023, 1), StartPlan::NeedsRoot);
    assert_eq!(plan_start(false, true, 80, 0), StartPlan::Serve);
    assert_eq!(plan_start(false, false, 80, 0), StartPlan::Daemonize);
    assert_eq!(plan_start(false, true, 1024, 1000), StartPlan::Serve);
    assert_eq!(plan_start(false, false, 1355, 1000), StartPlan::Daemonize);
}

#[test]
fn test_stop_plan_for() {
    assert_eq!(stop_plan_for(None, false, false), StopPlan::NotRunning);
    assert_eq!(stop_plan_for(None, true, false), StopPlan::NotRunning);
    assert_eq!(stop_plan_for(None, false, true), StopPlan::EndListener);
    assert_eq!(stop_plan_for(Some("not a pid"), true, true), StopPlan::RemoveCorruptPidFile);
    assert_eq!(stop_plan_for(Some(""), true, true), StopPlan::RemoveCorruptPidFile);
    assert_eq!(stop_plan_for(Some("4242\n"), false, true), StopPlan::CleanStaleFiles);
    assert_eq!(stop_plan_for(Some("4242\n"), false, false), StopPlan::CleanStaleFiles);
    assert_eq!(stop_plan_for(Some("4242\n"), true, false), StopPlan::RemoveStalePidFile);
    assert_eq!(stop_plan_for(Some(" 4242 "), true, true), StopPlan::Terminate { pid: 4242 });
}

#[test]
fn test_plan_stop_probes_the_process() {
    let own = own_pid_text();
    let pid: i32 = own.parse().unwrap();
    assert_eq!(plan_stop(Some(&own), true), StopPlan::Terminate { pid });
    assert_eq!(plan_stop(Some(&own), false), StopPlan::RemoveStalePidFile);
    assert_eq!(plan_stop(Some("999999"), true), StopPlan::CleanStaleFiles);
    assert_eq!(plan_stop(Some("garbage"), true), StopPlan::RemoveCorruptPidFile);
    assert_eq!(plan_stop(None, true), StopPlan::EndListener);
    assert_eq!(plan_stop(None, false), StopPlan::NotRunning);
}

#[test]
fn test_plan_autostart() {
    assert_eq!(plan_autostart(true, 80, false), AutoStart::Running);
    assert_eq!(plan_autostart(true, 1355, true), AutoStart::Running);
    assert_eq!(plan_autostart(false, 1355, false), AutoStart::Start);
    assert_eq!(plan_autostart(false, 1024, true), AutoStart::Start);
    assert_eq!(plan_autostart(false, 1023, true), AutoStart::Ask);
    assert_eq!(plan_autostart(false, 80, false), AutoStart::NeedsTerminal);
}

#[test]
fn test_supervisor_exit_code() {
    assert_eq!(supervisor_exit_code(ChildEnd::Code(0)), 0);
    assert_eq!(supervisor_exit_code(ChildEnd::Code(3)), 3);
    assert_eq!(supervisor_exit_code(ChildEnd::Code(-1)), -1);
    assert_eq!(supervisor_exit_code(ChildEnd::NoCode), 1);
    assert_eq!(supervisor_exit_code(ChildEnd::Unknown), 0);
}

#[test]
fn test_idle_proxy_to_stop() {
    let left = vec![Route { hostname: "a.localhost".to_string(), port: 4000, pid: 1 }];
    assert_eq!(idle_proxy_to_stop(&left, Some("4242")), None);
    assert_eq!(idle_proxy_to_stop(&[], Some("4242\n")), Some(4242));
    assert_eq!(idle_proxy_to_stop(&[], Some("x")), None);
    assert_eq!(idle_proxy_to_stop(&[], None), None);
}
