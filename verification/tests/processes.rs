use lport::command::CommandResult;
use lport::model::{Entry, Proto};
use lport::process::{
    clean_cmdline, enrich_process_info, is_interpreter_exe, pid_list, read_cmdline_proc,
    read_cwd_proc, read_exe_basename_proc, read_has_tty_proc, read_user_launched_proc, unique_pids, ProcessInfo,
};
use lport::process_mac;

fn listener(pid: Option<u32>) -> Entry {
    Entry::new(Proto::Tcp, "0.0.0.0".to_string(), 80, pid, "p".to_string(), None)
}

fn ran(stdout: &str) -> CommandResult {
    CommandResult::Ran {
        success: true,
        code: Some(0),
        stdout: stdout.as_bytes().to_vec(),
        stderr: Vec::new(),
    }
}

#[test]
fn interpreters_are_known_with_their_versions() {
    for name in ["python", "python3", "python3.11", "node", "node18", "php-fpm8.2", "java", "uvicorn", "beam.smp"] {
        assert!(is_interpreter_exe(name), "{}", name);
    }
    for name in ["", "nginx", "pythonx", "Node", "3python", "postgres", "python-config"] {
        assert!(!is_interpreter_exe(name), "{}", name);
    }
}

#[test]
fn a_terminal_is_read_from_stat() {
    assert!(read_has_tty_proc(Some("10 (node) S 1 10 10 34816 10 0")));
    assert!(!read_has_tty_proc(Some("10 (node) S 1 10 10 0 -1 0")));
    assert!(read_has_tty_proc(Some("10 (a) b) c) S 1 10 10 34816 10")));
    assert!(!read_has_tty_proc(Some("10 (node) S 1 10 10")));
    assert!(!read_has_tty_proc(Some("no bracket")));
    assert!(!read_has_tty_proc(None));
}

#[test]
fn user_servers_have_a_terminal_or_an_interpreter() {
    let with = "10 (x) S 1 10 10 34816 10";
    let without = "10 (x) S 1 10 10 0 -1";
    assert!(read_user_launched_proc(Some(with), Some(b"/usr/sbin/nginx")));
    assert!(read_user_launched_proc(Some(without), Some(b"/usr/bin/python3.12")));
    assert!(!read_user_launched_proc(Some(without), Some(b"/opt/python/nginx")));
    assert!(!read_user_launched_proc(None, None));
    assert!(read_user_launched_proc(Some(with), None));
}

#[test]
fn executables_are_named_like_files() {
    for path in [
        "/usr/bin/node", "/usr/bin/", "/usr/bin/.", "/usr/bin/..", "/", "", ".", "..", "node", "./node", "a//b/././/",
        "/opt/my app/server (deleted)", "/a/..b", "/a/.b", "/./", "a/../.",
    ] {
        let expected = std::path::Path::new(path).file_name().map(|n| n.to_str().unwrap().to_string());
        assert_eq!(read_exe_basename_proc(Some(path.as_bytes())), expected, "{:?}", path);
    }
    assert_eq!(read_exe_basename_proc(Some(&[0x2f, 0x61, 0xff])), Some("a\u{fffd}".to_string()));
    assert_eq!(read_exe_basename_proc(None), None);
}

#[test]
fn command_lines_are_joined_with_spaces() {
    assert_eq!(read_cmdline_proc(Some(b"node\0server.js\0--port\03000\0")), "node server.js --port 3000");
    assert_eq!(read_cmdline_proc(Some(b"")), "-");
    assert_eq!(read_cmdline_proc(Some(b"\0\0")), "-");
    assert_eq!(read_cmdline_proc(None), "?");
    assert_eq!(read_cmdline_proc(Some(&[0x61, 0xff, 0, 0x62])), "a\u{fffd} b");
    assert_eq!(clean_cmdline("  a b "), "a b");
}

#[test]
fn unreadable_directories_are_marked() {
    assert_eq!(read_cwd_proc(Some(b"/srv/app")), "/srv/app");
    assert_eq!(read_cwd_proc(Some("/srv/프로젝트".as_bytes())), "/srv/프로젝트");
    assert_eq!(read_cwd_proc(Some(&[0x2f, 0xff])), "/\u{fffd}");
    assert_eq!(read_cwd_proc(None), "?");
}

#[test]
fn each_process_is_read_once() {
    let es = vec![listener(Some(7)), listener(None), listener(Some(3)), listener(Some(7))];
    let pids = unique_pids(&es);
    assert_eq!(pids, vec![7, 3]);
    assert_eq!(pid_list(&pids), "7,3");
    assert_eq!(pid_list(&vec![]), "");
}

#[test]
fn listeners_learn_about_their_process() {
    let mut es = vec![listener(Some(7)), listener(None), listener(Some(8)), listener(Some(7))];
    let info = vec![ProcessInfo {
        pid: 7,
        cwd: "/a".to_string(),
        cmdline: "node x".to_string(),
        user_launched: true,
    }];
    enrich_process_info(&mut es, &info);
    assert_eq!((es[0].cwd.as_str(), es[0].cmdline.as_str(), es[0].user_launched), ("/a", "node x", true));
    assert_eq!((es[1].cwd.as_str(), es[1].cmdline.as_str(), es[1].user_launched), ("-", "-", false));
    assert_eq!((es[2].cwd.as_str(), es[2].cmdline.as_str(), es[2].user_launched), ("", "", false));
    assert_eq!((es[3].cwd.as_str(), es[3].cmdline.as_str(), es[3].user_launched), ("/a", "node x", true));
}

#[test]
fn mac_listeners_learn_about_their_process() {
    let mut es = vec![listener(Some(7)), listener(None), listener(Some(8)), listener(Some(9))];
    process_mac::enrich_process_info(
        &mut es,
        &ran("    7 ttys001  /opt/bin/my server\n    8 ??       /usr/local/bin/python3.11\n    9 ??  /usr/sbin/mDNSResponder\n"),
        &ran("    7 my server --flag\n    8 python3.11  -m http.server \n"),
        &ran("p7\nfcwd\nn/Users/me/app\nn/second\np8\nfcwd\nn/Users/me/프로젝트\n"),
    );
    assert_eq!((es[0].cwd.as_str(), es[0].cmdline.as_str(), es[0].user_launched), ("/Users/me/app", "my server --flag", true));
    assert_eq!((es[1].cwd.as_str(), es[1].cmdline.as_str(), es[1].user_launched), ("-", "-", false));
    assert_eq!(
        (es[2].cwd.as_str(), es[2].cmdline.as_str(), es[2].user_launched),
        ("/Users/me/프로젝트", "python3.11  -m http.server", true)
    );
    assert_eq!((es[3].cwd.as_str(), es[3].cmdline.as_str(), es[3].user_launched), ("?", "?", false));
}

#[test]
fn a_pass_that_was_not_made_says_nothing() {
    let missing = CommandResult::NotSpawned { message: "gone".to_string() };
    let mut es = vec![listener(Some(7))];
    process_mac::enrich_process_info(&mut es, &missing, &missing, &missing);
    assert_eq!((es[0].cwd.as_str(), es[0].cmdline.as_str(), es[0].user_launched), ("?", "?", false));
}
