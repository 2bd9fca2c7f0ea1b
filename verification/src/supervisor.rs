//! What the command line does about a proxy: when it starts one, how it
//! stops one, and with which code a supervised run ends.

use vstd::prelude::*;
use crate::routes::{is_pid_alive, route_views};
use crate::text::{parse_signed, trim};
use crate::types::Route;
use crate::utils::{can_bind, is_privileged_port, parse_pid_text, PRIVILEGED_PORT_THRESHOLD};

verus! {

/// What is done when the proxy is asked to start.
#[derive(Debug, Clone, Copy, PartialEq, Eq, Structural)]
pub enum StartPlan {
    /// A proxy answers already and this is the detached child: leave
    /// without a word.
    LeaveQuietly,
    /// A proxy answers already: say so.
    AlreadyRunning,
    /// The port takes root and the user is not root: refuse.
    NeedsRoot,
    /// Serve in this process.
    Serve,
    /// Start a detached child that serves, and wait until it answers.
    Daemonize,
}

/// What is done when the proxy on `port` is asked to start by the user
/// `uid`, given whether a proxy answers on the port and whether the proxy
/// is to run in the foreground.
pub open spec fn start_plan_spec(answers: bool, foreground: bool, port: u16, uid: u32) -> StartPlan {
    if answers {
        if foreground {
            StartPlan::LeaveQuietly
        } else {
            StartPlan::AlreadyRunning
        }
    } else if port < PRIVILEGED_PORT_THRESHOLD && uid != 0 {
        StartPlan::NeedsRoot
    } else if foreground {
        StartPlan::Serve
    } else {
        StartPlan::Daemonize
    }
}

/// Decides what is done when the proxy on `port` is asked to start.
pub fn plan_start(answers: bool, foreground: bool, port: u16, uid: u32) -> (plan: StartPlan)
    ensures
        plan == start_plan_spec(answers, foreground, port, uid),
{
    if answers {
        if foreground {
            StartPlan::LeaveQuietly
        } else {
            StartPlan::AlreadyRunning
        }
    } else if !can_bind(port, uid) {
        StartPlan::NeedsRoot
    } else if foreground {
        StartPlan::Serve
    } else {
        StartPlan::Daemonize
    }
}

/// What is done when the proxy is asked to stop.
#[derive(Debug, Clone, Copy, PartialEq, Eq, Structural)]
pub enum StopPlan {
    /// There is no PID file and nothing answers: nothing to stop.
    NotRunning,
    /// There is no PID file but a proxy answers: look for the process that
    /// listens on the port and end it.
    EndListener,
    /// The PID file names no process identifier: remove it.
    RemoveCorruptPidFile,
    /// The process that the PID file names is gone: remove the PID file
    /// and the port file.
    CleanStaleFiles,
    /// The process that the PID file names runs, but no proxy answers: the
    /// identifier was given to another process. Remove the PID file.
    RemoveStalePidFile,
    /// End the process with this identifier.
    Terminate { pid: i32 },
}

/// What is done when the proxy is asked to stop, given the content of the
/// PID file, where there is one, whether the process that it names runs,
/// and whether a proxy answers on the port.
pub open spec fn stop_plan_spec(pid_text: Option<Seq<char>>, alive: bool, answers: bool) -> StopPlan {
    match pid_text {
        None => if answers {
            StopPlan::EndListener
        } else {
            StopPlan::NotRunning
        },
        Some(text) => match parse_signed(trim(text), i32::MIN as int, i32::MAX as int) {
            None => StopPlan::RemoveCorruptPidFile,
            Some(pid) => if !alive {
                StopPlan::CleanStaleFiles
            } else if !answers {
                StopPlan::RemoveStalePidFile
            } else {
                StopPlan::Terminate { pid: pid as i32 }
            },
        },
    }
}

/// The view of an optional text.
pub open spec fn text_view(text: Option<&str>) -> Option<Seq<char>> {
    match text {
        Some(t) => Some(t@),
        None => None,
    }
}

/// Decides what is done when the proxy is asked to stop, given the content
/// of the PID file, whether the process that it names runs, and whether a
/// proxy answers on the port.
pub fn stop_plan_for(pid_text: Option<&str>, alive: bool, answers: bool) -> (plan: StopPlan)
    ensures
        plan == stop_plan_spec(text_view(pid_text), alive, answers),
{
    match pid_text {
        None => {
            if answers {
                StopPlan::EndListener
            } else {
                StopPlan::NotRunning
            }
        },
        Some(text) => match parse_pid_text(text) {
            None => StopPlan::RemoveCorruptPidFile,
            Some(pid) => {
                if !alive {
                    StopPlan::CleanStaleFiles
                } else if !answers {
                    StopPlan::RemoveStalePidFile
                } else {
                    StopPlan::Terminate { pid }
                }
            },
        },
    }
}

/// Decides what is done when the proxy is asked to stop, given the content
/// of the PID file and whether a proxy answers on the port. The process
/// that the PID file names is probed; whatever the probe says, the plan is
/// the one for that answer.
pub fn plan_stop(pid_text: Option<&str>, answers: bool) -> (plan: StopPlan)
    ensures
        plan == stop_plan_spec(text_view(pid_text), true, answers) || plan == stop_plan_spec(
            text_view(pid_text),
            false,
            answers,
        ),
{
    let alive: bool = match pid_text {
        Some(text) => match parse_pid_text(text) {
            Some(pid) => is_pid_alive(pid as u32),
            None => false,
        },
        None => false,
    };
    stop_plan_for(pid_text, alive, answers)
}

/// What a supervised run does about a proxy before it starts its command.
#[derive(Debug, Clone, Copy, PartialEq, Eq, Structural)]
pub enum AutoStart {
    /// A proxy answers: go on.
    Running,
    /// The port takes root and there is no terminal to ask on: give up.
    NeedsTerminal,
    /// The port takes root: ask the user whether to start the proxy.
    Ask,
    /// Start the proxy.
    Start,
}

/// What a supervised run does about the proxy on `port`, given whether a
/// proxy answers there and whether there is a terminal to ask on.
pub fn plan_autostart(answers: bool, port: u16, terminal: bool) -> (plan: AutoStart)
    ensures
        plan == (if answers {
            AutoStart::Running
        } else if port >= PRIVILEGED_PORT_THRESHOLD {
            AutoStart::Start
        } else if terminal {
            AutoStart::Ask
        } else {
            AutoStart::NeedsTerminal
        }),
{
    if answers {
        AutoStart::Running
    } else if !is_privileged_port(port) {
        AutoStart::Start
    } else if terminal {
        AutoStart::Ask
    } else {
        AutoStart::NeedsTerminal
    }
}

/// How a supervised command ended.
#[derive(Debug, Clone, Copy, PartialEq, Eq, Structural)]
pub enum ChildEnd {
    /// Waiting for it failed.
    Unknown,
    /// It was ended without an exit code.
    NoCode,
    /// It left with this code.
    Code(i32),
}

/// The code with which a supervised run ends: that of its command, 1
/// where the command left no code, and 0 where nothing is known.
pub fn supervisor_exit_code(end: ChildEnd) -> (code: i32)
    ensures
        code == (match end {
            ChildEnd::Unknown => 0,
            ChildEnd::NoCode => 1,
            ChildEnd::Code(c) => c,
        }),
{
    match end {
        ChildEnd::Unknown => 0,
        ChildEnd::NoCode => 1,
        ChildEnd::Code(c) => c,
    }
}

/// The process to end once a supervised run is over: the one that the PID
/// file names, where no route is left; none where a route is left, or
/// there is no PID file, or it names no process identifier.
pub fn idle_proxy_to_stop(remaining: &[Route], pid_text: Option<&str>) -> (pid: Option<i32>)
    ensures
        pid == (if route_views(remaining@).len() > 0 {
            None
        } else {
            match text_view(pid_text) {
                Some(text) => match parse_signed(trim(text), i32::MIN as int, i32::MAX as int) {
                    Some(p) => Some(p as i32),
                    None => None,
                },
                None => None,
            }
        }),
{
    if remaining.len() > 0 {
        return None;
    }
    match pid_text {
        Some(text) => parse_pid_text(text),
        None => None,
    }
}

} // verus!
