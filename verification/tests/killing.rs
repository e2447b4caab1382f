use lport::command::CommandResult;
use lport::kill::{KillAction, KillEvent, KillRun, KillStep, Outcome};
use lport::messages::{agrees, Signal};
use lport::model::{DockerInfo, Entry, Proto};

fn local(proto: Proto, port: u32, pid: Option<u32>, process: &str) -> Entry {
    let mut e = Entry::new(proto, "0.0.0.0".to_string(), port, pid, process.to_string(), None);
    e.cwd = "/srv/app".to_string();
    e
}

fn container(port: u32, name: &str) -> Entry {
    let d = DockerInfo {
        name: name.to_string(),
        image: String::new(),
        running_for: String::new(),
        work_dir: None,
        container_port: port,
        compose_project: None,
    };
    Entry::new(Proto::Tcp, "0.0.0.0".to_string(), port, None, "?".to_string(), Some(d))
}

fn note(log: &mut Vec<String>, step: &KillStep) {
    for l in &step.lines {
        log.push(format!("{} {}", if l.err { "err" } else { "out" }, l.text));
    }
    match &step.action {
        KillAction::Ask { prompt } => log.push(format!("ask {}", prompt)),
        KillAction::Send { pid, signal } => log.push(format!("send {} {}", signal.flag(), pid)),
        KillAction::Wait { pid, timeout_ms } => log.push(format!("wait {} {}", pid, timeout_ms)),
        KillAction::Finish { code } => log.push(format!("exit {}", code)),
    }
}

fn play(run: &mut KillRun, events: Vec<KillEvent>) -> Vec<String> {
    let mut log = Vec::new();
    let step = run.begin();
    note(&mut log, &step);
    for event in events {
        let step = run.advance(event);
        note(&mut log, &step);
    }
    log
}

fn yes() -> KillEvent {
    KillEvent::Answer { yes: true }
}

fn no() -> KillEvent {
    KillEvent::Answer { yes: false }
}

fn gone() -> KillEvent {
    KillEvent::Waited { gone: true }
}

fn alive() -> KillEvent {
    KillEvent::Waited { gone: false }
}

#[test]
fn a_confirmed_process_is_killed() {
    let es = vec![local(Proto::Tcp, 3000, Some(42), "node")];
    let mut run = KillRun::new(es, &vec![3000], false, false, true);
    assert_eq!(
        play(&mut run, vec![yes(), KillEvent::Sent, gone()]),
        vec![
            "ask Kill pid 42 (node) on tcp/3000 [cwd: /srv/app] with SIGTERM? [y/N] ",
            "send -TERM 42",
            "wait 42 3000",
            "out killed pid 42 (node) on tcp/3000 [SIGTERM]",
            "exit 0",
        ]
    );
    assert!(run.freed_any());
}

#[test]
fn an_unknown_directory_is_a_dash_in_the_question() {
    let es = vec![Entry::new(Proto::Udp, "0.0.0.0".to_string(), 53, Some(9), "dns".to_string(), None)];
    let mut run = KillRun::new(es, &vec![53], true, false, true);
    assert_eq!(
        play(&mut run, vec![]),
        vec!["ask Kill pid 9 (dns) on udp/53 [cwd: -] with SIGKILL? [y/N] "]
    );
}

#[test]
fn a_refused_process_is_left_alone() {
    let es = vec![local(Proto::Tcp, 3000, Some(42), "node")];
    let mut run = KillRun::new(es, &vec![3000], false, false, true);
    let log = play(&mut run, vec![no()]);
    assert_eq!(log[1..], ["out skipped pid 42 (node).", "exit 0"]);
    assert!(!run.freed_any());
}

#[test]
fn without_a_terminal_nothing_is_signalled_unasked() {
    let es = vec![local(Proto::Tcp, 3000, Some(42), "node")];
    let mut run = KillRun::new(es, &vec![3000], true, false, false);
    assert_eq!(
        play(&mut run, vec![]),
        vec![
            "err port tcp/3000: refusing to kill pid 42 (node) without confirmation (no TTY).",
            "exit 1",
        ]
    );
}

#[test]
fn yes_skips_the_question() {
    let es = vec![local(Proto::Tcp, 3000, Some(42), "node")];
    let mut run = KillRun::new(es, &vec![3000], true, true, false);
    assert_eq!(
        play(&mut run, vec![KillEvent::Sent, gone()]),
        vec![
            "send -KILL 42",
            "wait 42 3000",
            "out killed pid 42 (node) on tcp/3000 [SIGKILL]",
            "exit 0",
        ]
    );
}

#[test]
fn one_process_gets_one_signal() {
    let es = vec![
        local(Proto::Tcp, 3000, Some(42), "node"),
        local(Proto::Udp, 3000, Some(42), "node"),
        local(Proto::Tcp, 3001, Some(42), "node"),
    ];
    let mut run = KillRun::new(es, &vec![3000, 3001], false, true, false);
    assert_eq!(
        play(&mut run, vec![KillEvent::Sent, gone()]),
        vec![
            "send -TERM 42",
            "wait 42 3000",
            "out killed pid 42 (node) on tcp/3000 [SIGTERM]",
            "out pid 42 already handled (also listens on udp/3000).",
            "out pid 42 already handled (also listens on tcp/3001).",
            "exit 0",
        ]
    );
}

#[test]
fn one_process_is_asked_about_once() {
    let es = vec![
        local(Proto::Tcp, 3000, Some(42), "node"),
        local(Proto::Udp, 3000, Some(42), "node"),
        local(Proto::Tcp, 3001, Some(43), "node"),
    ];
    let mut run = KillRun::new(es, &vec![3000, 3001, 3000], false, false, true);
    let log = play(&mut run, vec![no(), no()]);
    let asked: Vec<&String> = log.iter().filter(|l| l.starts_with("ask ")).collect();
    assert_eq!(
        asked,
        vec![
            "ask Kill pid 42 (node) on tcp/3000 [cwd: /srv/app] with SIGTERM? [y/N] ",
            "ask Kill pid 43 (node) on tcp/3001 [cwd: /srv/app] with SIGTERM? [y/N] ",
        ]
    );
    assert_eq!(log[log.len() - 1], "exit 0");
}

#[test]
fn containers_are_never_signalled() {
    let mut run = KillRun::new(vec![container(5432, "supabase_db_supabase-prod")], &vec![5432], true, true, true);
    assert_eq!(
        play(&mut run, vec![]),
        vec![
            "err port tcp/5432: owned by Docker container 'supabase_db_supabase-prod'. Use: docker stop supabase_db_supabase-prod",
            "exit 1",
        ]
    );
}

#[test]
fn free_ports_and_hidden_processes_are_reported() {
    let es = vec![local(Proto::Tcp, 22, None, "?")];
    let mut run = KillRun::new(es, &vec![21, 22], false, true, true);
    assert_eq!(
        play(&mut run, vec![]),
        vec![
            "err port 21: no listening process found.",
            "err port tcp/22: PID unknown (insufficient privileges?). Try `sudo lport kill 22`.",
            "exit 1",
        ]
    );
}

#[test]
fn a_failed_signal_is_reported_with_its_diagnostic() {
    let es = vec![local(Proto::Tcp, 80, Some(7), "nginx"), local(Proto::Tcp, 81, Some(8), "node")];
    let mut run = KillRun::new(es, &vec![80, 81], false, true, false);
    let failed = KillEvent::of_kill(&CommandResult::Ran {
        success: false,
        code: Some(1),
        stdout: Vec::new(),
        stderr: b"kill: (7): Operation Not Permitted\n".to_vec(),
    });
    let log = play(&mut run, vec![failed, KillEvent::Sent, gone()]);
    assert_eq!(
        log,
        vec![
            "send -TERM 7",
            "err port tcp/80: `kill -TERM 7` exited with status 1.",
            "err   kill: (7): Operation Not Permitted",
            "err hint: try `sudo lport kill 80`",
            "send -TERM 8",
            "wait 8 3000",
            "out killed pid 8 (node) on tcp/81 [SIGTERM]",
            "exit 1",
        ]
    );
}

#[test]
fn a_diagnostic_of_another_kind_gets_no_hint() {
    let es = vec![local(Proto::Tcp, 80, Some(7), "nginx")];
    let mut run = KillRun::new(es, &vec![80], true, true, false);
    let failed = KillEvent::of_kill(&CommandResult::Ran {
        success: false,
        code: None,
        stdout: Vec::new(),
        stderr: b"No such process".to_vec(),
    });
    let log = play(&mut run, vec![failed]);
    assert_eq!(
        log[1..],
        ["err port tcp/80: `kill -KILL 7` exited with status ?.", "err   No such process", "exit 1"]
    );
}

#[test]
fn outcomes_of_kill_become_events() {
    let done = CommandResult::Ran { success: true, code: Some(0), stdout: Vec::new(), stderr: Vec::new() };
    assert_eq!(KillEvent::of_kill(&done), KillEvent::Sent);
    let bytes = CommandResult::Ran { success: false, code: Some(2), stdout: Vec::new(), stderr: vec![0xff] };
    assert_eq!(
        KillEvent::of_kill(&bytes),
        KillEvent::Failed { code: Some(2), stderr: "\u{fffd}".to_string() }
    );
    let missing = CommandResult::NotSpawned { message: "no kill".to_string() };
    assert_eq!(
        KillEvent::of_kill(&missing),
        KillEvent::NotSpawned { message: "no kill".to_string() }
    );
}

#[test]
fn a_kill_that_does_not_start_is_reported() {
    let es = vec![local(Proto::Tcp, 80, Some(7), "nginx")];
    let mut run = KillRun::new(es, &vec![80], false, true, false);
    let log = play(&mut run, vec![KillEvent::NotSpawned { message: "os error 2".to_string() }]);
    assert_eq!(log[1..], ["err port tcp/80: failed to spawn `kill`: os error 2.", "exit 1"]);
}

#[test]
fn survivors_of_sigterm_may_be_escalated() {
    let es = vec![local(Proto::Tcp, 80, Some(7), "nginx")];
    let mut run = KillRun::new(es, &vec![80], false, false, true);
    assert_eq!(
        play(&mut run, vec![yes(), KillEvent::Sent, alive(), yes(), KillEvent::Sent, gone()])[3..],
        [
            "err port tcp/80: pid 7 (nginx) still alive 3s after SIGTERM.",
            "ask Escalate to SIGKILL? [y/N] ",
            "send -KILL 7",
            "wait 7 2000",
            "out killed pid 7 (nginx) on tcp/80 [SIGKILL]",
            "exit 0",
        ]
    );
}

#[test]
fn an_escalation_may_be_turned_down() {
    let es = vec![local(Proto::Tcp, 80, Some(7), "nginx")];
    let mut run = KillRun::new(es, &vec![80], false, false, true);
    let log = play(&mut run, vec![yes(), KillEvent::Sent, alive(), no()]);
    assert_eq!(log[5..], ["out skipped escalation for pid 7 (nginx).", "exit 1"]);
}

#[test]
fn an_escalation_may_fail_or_be_survived() {
    let es = vec![local(Proto::Tcp, 80, Some(7), "nginx")];
    let mut run = KillRun::new(es, &vec![80], false, false, true);
    let log = play(&mut run, vec![yes(), KillEvent::Sent, alive(), yes(), KillEvent::Sent, alive()]);
    assert_eq!(
        log[7..],
        ["err port tcp/80: pid 7 (nginx) still alive 2s after SIGKILL (uninterruptible I/O?).", "exit 1"]
    );
    let es = vec![local(Proto::Tcp, 80, Some(7), "nginx")];
    let mut run = KillRun::new(es, &vec![80], false, false, true);
    let refused = KillEvent::Failed { code: Some(1), stderr: String::new() };
    let log = play(&mut run, vec![yes(), KillEvent::Sent, alive(), yes(), refused]);
    assert_eq!(log[6..], ["err port tcp/80: `kill -KILL 7` exited with status 1.", "exit 1"]);
}

#[test]
fn unattended_runs_hint_at_the_stronger_signal() {
    let es = vec![local(Proto::Tcp, 80, Some(7), "nginx")];
    let mut run = KillRun::new(es, &vec![80], false, true, true);
    let log = play(&mut run, vec![KillEvent::Sent, alive()]);
    assert_eq!(
        log[2..],
        [
            "err port tcp/80: pid 7 (nginx) still alive 3s after SIGTERM.",
            "err hint: retry with `lport kill -9 80`",
            "exit 1",
        ]
    );
    assert!(!run.freed_any());
}

#[test]
fn survivors_of_sigkill_are_reported() {
    let es = vec![local(Proto::Tcp, 80, Some(7), "nginx")];
    let mut run = KillRun::new(es, &vec![80], true, true, false);
    let log = play(&mut run, vec![KillEvent::Sent, alive()]);
    assert_eq!(
        log[2..],
        ["err port tcp/80: pid 7 (nginx) still alive 3s after SIGKILL (uninterruptible I/O?).", "exit 1"]
    );
}

#[test]
fn every_port_is_visited_after_a_failure() {
    let es = vec![local(Proto::Tcp, 80, Some(7), "nginx")];
    let mut run = KillRun::new(es, &vec![1, 80, 2], false, true, false);
    assert_eq!(
        play(&mut run, vec![KillEvent::Sent, gone()]),
        vec![
            "err port 1: no listening process found.",
            "send -TERM 7",
            "wait 7 3000",
            "out killed pid 7 (nginx) on tcp/80 [SIGTERM]",
            "err port 2: no listening process found.",
            "exit 1",
        ]
    );
}

#[test]
fn a_restart_is_warned_about_once() {
    let es = vec![local(Proto::Tcp, 80, Some(7), "node"), local(Proto::Tcp, 81, Some(8), "node")];
    let mut run = KillRun::new(es, &vec![80, 81], false, true, false);
    play(&mut run, vec![KillEvent::Sent, gone(), KillEvent::Sent, alive()]);
    let again = vec![
        local(Proto::Tcp, 80, Some(7), "node"),
        local(Proto::Tcp, 80, Some(9), "node"),
        local(Proto::Tcp, 80, Some(9), "node"),
        local(Proto::Tcp, 80, None, "?"),
        local(Proto::Tcp, 81, Some(10), "node"),
        container(80, "web"),
        local(Proto::Udp, 80, Some(9), "node"),
    ];
    assert_eq!(
        run.restart_warnings(&again),
        vec![
            "warning: port tcp/80 is listening again (pid 9, node) — likely restarted by a supervisor (dev server, systemd). Inspect with `lport info 80`.",
            "warning: port udp/80 is listening again (pid 9, node) — likely restarted by a supervisor (dev server, systemd). Inspect with `lport info 80`.",
        ]
    );
}

#[test]
fn only_an_explicit_yes_agrees() {
    for a in ["y", "Y", "yes", "Yes", "YES", " y \n", "yes\r\n"] {
        assert!(agrees(a), "{:?}", a);
    }
    for a in ["", "\n", "n", "yEs", "yes please", "yy", "no"] {
        assert!(!agrees(a), "{:?}", a);
    }
}

#[test]
fn signals_and_outcomes_have_their_words() {
    assert_eq!((Signal::Term.name(), Signal::Term.flag()), ("SIGTERM", "-TERM"));
    assert_eq!((Signal::Kill.name(), Signal::Kill.flag()), ("SIGKILL", "-KILL"));
    assert!(!Outcome::Killed.is_failure());
    assert!(!Outcome::Skipped.is_failure());
    assert!(!Outcome::AlreadyHandled.is_failure());
    assert!(Outcome::Docker.is_failure());
    assert!(Outcome::EscalationDeclined.is_failure());
}
