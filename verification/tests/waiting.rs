use lport::kill::{ESCALATE_WAIT_MS, KILL_WAIT_MS, POLL_MS, RESTART_WAIT_MS};
use lport::wait::{pid_alive, pid_alive_ps, wait_for_exit, WaitStep};

fn wait(timeout_ms: u64, looks: &dyn Fn(u64) -> bool) -> (bool, u64) {
    let mut waited = 0;
    let mut n = 0;
    loop {
        n += 1;
        match wait_for_exit(waited, timeout_ms, looks(waited)) {
            WaitStep::Gone => return (true, n),
            WaitStep::StillAlive => return (false, n),
            WaitStep::Sleep { waited_ms } => waited = waited_ms,
        }
    }
}

#[test]
fn a_wait_ends_when_the_process_is_gone() {
    assert_eq!(wait(KILL_WAIT_MS, &|_| false), (true, 1));
    assert_eq!(wait(KILL_WAIT_MS, &|t| t < 500), (true, 6));
    assert_eq!(wait(KILL_WAIT_MS, &|t| t < 3000), (true, 31));
}

#[test]
fn a_wait_ends_when_the_time_is_up() {
    assert_eq!(wait(KILL_WAIT_MS, &|_| true), (false, 31));
    assert_eq!(wait(ESCALATE_WAIT_MS, &|_| true), (false, 21));
    assert_eq!(wait(150, &|_| true), (false, 3));
    assert_eq!(wait(0, &|_| true), (false, 1));
    assert_eq!((POLL_MS, RESTART_WAIT_MS), (100, 500));
}

#[test]
fn zombies_count_as_gone() {
    assert!(pid_alive(Some("10 (node) S 1 10 10 0 -1")));
    assert!(pid_alive(Some("10 (node) D 1")));
    assert!(!pid_alive(Some("10 (node) Z 1")));
    assert!(!pid_alive(Some("10 (node) X 1")));
    assert!(pid_alive(Some("10 (a) Z) R 1")));
    assert!(pid_alive(Some("10 (node)")));
    assert!(!pid_alive(Some("10 node S")));
    assert!(!pid_alive(None));
}

#[test]
fn mac_zombies_count_as_gone() {
    assert!(pid_alive_ps("S+\n"));
    assert!(pid_alive_ps("  R\n"));
    assert!(!pid_alive_ps("Z\n"));
    assert!(!pid_alive_ps("Z+"));
    assert!(!pid_alive_ps("\n"));
    assert!(!pid_alive_ps(""));
}
