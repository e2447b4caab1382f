use lport::command::CommandResult;
use lport::args::Mode;
use lport::docker::{read_docker_ps, DockerMap};
use lport::listing::select_listeners;
use lport::lsof;
use lport::model::{Entry, Proto};
use lport::ss;

fn ran(stdout: &str) -> CommandResult {
    CommandResult::Ran {
        success: true,
        code: Some(0),
        stdout: stdout.as_bytes().to_vec(),
        stderr: Vec::new(),
    }
}

fn failed(code: Option<i32>, stderr: &str) -> CommandResult {
    CommandResult::Ran {
        success: false,
        code,
        stdout: Vec::new(),
        stderr: stderr.as_bytes().to_vec(),
    }
}

fn brief(e: &Entry) -> (Proto, u32, Option<u32>, &str, Option<&str>) {
    (e.proto, e.port, e.pid, e.process.as_str(), e.docker.as_ref().map(|d| d.name.as_str()))
}

fn one_line(line: &str) -> Vec<Entry> {
    let mut out = Vec::new();
    ss::parse_ss_line(line, Proto::Tcp, &DockerMap::empty(), &mut out);
    out
}

#[test]
fn users_column_names_processes() {
    assert_eq!(
        ss::parse_users("users:((\"nginx\",pid=7,fd=6),(\"nginx\",pid=8,fd=6))"),
        vec![("nginx".to_string(), 7), ("nginx".to_string(), 8)]
    );
}

#[test]
fn process_names_may_hold_spaces_and_brackets() {
    assert_eq!(
        ss::parse_users("users:((\"next-server (v1\",pid=4242,fd=19))"),
        vec![("next-server (v1".to_string(), 4242)]
    );
    let line = "LISTEN 0 511 *:3000 *:* users:((\"next-server (v1\",pid=4242,fd=19))";
    let es = one_line(line);
    assert_eq!(es.len(), 1);
    assert_eq!(brief(&es[0]), (Proto::Tcp, 3000, Some(4242), "next-server (v1", None));
}

#[test]
fn names_without_a_number_are_passed_over() {
    assert_eq!(
        ss::parse_users("users:((\"a\",fd=1),(\"b\",pid=,fd=2),(\"c\",pid=99999999999,fd=3),(\"d\",pid=4,fd=4))"),
        vec![("d".to_string(), 4)]
    );
    assert_eq!(ss::parse_users("users:((\"open"), vec![]);
    assert_eq!(ss::parse_users(""), vec![]);
}

#[test]
fn ss_lines_become_listeners() {
    let es = one_line("LISTEN 0 128 127.0.0.1:8080 0.0.0.0:* users:((\"node\",pid=10,fd=20),(\"node\",pid=11,fd=20))");
    assert_eq!(es.len(), 2);
    assert_eq!(brief(&es[0]), (Proto::Tcp, 8080, Some(10), "node", None));
    assert_eq!(brief(&es[1]), (Proto::Tcp, 8080, Some(11), "node", None));
    let es = one_line("LISTEN 0 128 [::]:22 [::]:*");
    assert_eq!(es.len(), 1);
    assert_eq!(brief(&es[0]), (Proto::Tcp, 22, None, "?", None));
    assert_eq!(es[0].cwd, "");
    assert!(!es[0].user_launched);
}

#[test]
fn lines_that_are_no_listeners_are_passed_over() {
    assert!(one_line("").is_empty());
    assert!(one_line("LISTEN 0 128").is_empty());
    assert!(one_line("LISTEN 0 128 127.0.0.1:* 0.0.0.0:*").is_empty());
    assert!(one_line("LISTEN 0 128 127.0.0.1:0 0.0.0.0:*").is_empty());
    assert!(one_line("LISTEN 0 128 nonsense 0.0.0.0:*").is_empty());
}

#[test]
fn tcp_comes_before_udp() {
    let tcp = ran("LISTEN 0 1 0.0.0.0:80 0.0.0.0:* users:((\"a\",pid=1,fd=1))\n");
    let udp = ran("UNCONN 0 0 0.0.0.0:53 0.0.0.0:*\n");
    let es = ss::collect_listening(&tcp, &udp, &DockerMap::empty()).unwrap();
    let rows: Vec<_> = es.iter().map(brief).collect();
    assert_eq!(
        rows,
        vec![(Proto::Tcp, 80, Some(1), "a", None), (Proto::Udp, 53, None, "?", None)]
    );
}

#[test]
fn bytes_that_are_no_text_do_not_hide_a_listener() {
    let mut stdout = b"LISTEN 0 1 0.0.0.0:80 0.0.0.0:* users:((\"a".to_vec();
    stdout.push(0xff);
    stdout.extend_from_slice(b"\",pid=1,fd=1))\n");
    let tcp = CommandResult::Ran { success: true, code: Some(0), stdout, stderr: Vec::new() };
    let es = ss::collect_listening(&tcp, &ran(""), &DockerMap::empty()).unwrap();
    assert_eq!(brief(&es[0]), (Proto::Tcp, 80, Some(1), "a\u{fffd}", None));
}

#[test]
fn a_failing_ss_is_reported() {
    let none = DockerMap::empty();
    assert_eq!(
        ss::collect_listening(&failed(Some(255), "Cannot open netlink socket\n"), &ran(""), &none),
        Err("error: `ss` exited with status 255.\n  Cannot open netlink socket".to_string())
    );
    assert_eq!(
        ss::collect_listening(&ran(""), &failed(None, " \n"), &none),
        Err("error: `ss` exited with status ?.".to_string())
    );
    let missing = CommandResult::NotSpawned { message: "No such file or directory".to_string() };
    assert_eq!(
        ss::collect_listening(&missing, &failed(Some(1), ""), &none),
        Err(
            "error: failed to run `ss`: No such file or directory. Install iproute2 (provides `ss`)."
                .to_string()
        )
    );
    assert_eq!(ss::collect_listening(&ran(""), &ran(""), &none), Ok(vec![]));
}

#[test]
fn sockets_find_their_container_by_address() {
    let map = read_docker_ps("web\t127.0.0.1:8080->80/tcp\t\tnginx\t2 hours ago\t\n");
    let mut out = Vec::new();
    ss::collect_ss(
        "LISTEN 0 1 127.0.0.1:8080 0.0.0.0:* users:((\"docker-proxy\",pid=5,fd=4))\nLISTEN 0 1 10.0.0.1:8080 0.0.0.0:* users:((\"node\",pid=6,fd=4))\n",
        Proto::Tcp,
        &map,
        &mut out,
    );
    let rows: Vec<_> = out.iter().map(brief).collect();
    assert_eq!(
        rows,
        vec![
            (Proto::Tcp, 8080, Some(5), "docker-proxy", Some("web")),
            (Proto::Tcp, 8080, Some(6), "node", None),
        ]
    );
}

#[test]
fn lsof_records_become_listeners() {
    let tcp = ran("p10\ncnode\nf20\nn*:3000\nf21\nn127.0.0.1:3001\np11\ncpython3.11\nf5\nn[::1]:8000\n");
    let udp = ran("p12\ncmDNSResponder\nf8\nn*:5353\nf9\nn192.168.0.2:68->192.168.0.1:67\nf10\nn*:*\n");
    let es = lsof::collect_listening(&tcp, &udp, &DockerMap::empty()).unwrap();
    let rows: Vec<_> = es.iter().map(brief).collect();
    assert_eq!(
        rows,
        vec![
            (Proto::Tcp, 3000, Some(10), "node", None),
            (Proto::Tcp, 3001, Some(10), "node", None),
            (Proto::Tcp, 8000, Some(11), "python3.11", None),
            (Proto::Udp, 5353, Some(12), "mDNSResponder", None),
        ]
    );
}

#[test]
fn a_failing_lsof_is_read_but_a_missing_one_is_reported() {
    let none = DockerMap::empty();
    let empty = failed(Some(1), "");
    assert_eq!(lsof::collect_listening(&empty, &empty, &none), Ok(vec![]));
    let missing = CommandResult::NotSpawned { message: "not found".to_string() };
    assert_eq!(
        lsof::collect_listening(&empty, &missing, &none),
        Err("error: failed to run `lsof`: not found.".to_string())
    );
}

#[test]
fn lsof_files_without_a_name_are_no_listeners() {
    let mut out = Vec::new();
    lsof::collect_lsof("p1\ncx\nf1\nf2\nn*:80 (LISTEN)\n\nf3\n", Proto::Tcp, &DockerMap::empty(), &mut out);
    let rows: Vec<_> = out.iter().map(brief).collect();
    assert_eq!(rows, vec![(Proto::Tcp, 80, Some(1), "x", None)]);
    let mut out = Vec::new();
    lsof::flush_lsof(
        Proto::Udp,
        None,
        "y",
        &Some("*:99 (IDLE)".to_string()),
        &DockerMap::empty(),
        &mut out,
    );
    let rows: Vec<_> = out.iter().map(brief).collect();
    assert_eq!(rows, vec![(Proto::Udp, 99, None, "y", None)]);
}

#[test]
fn both_stacks_of_a_container_come_out_as_one_row() {
    let map = read_docker_ps("db\t0.0.0.0:5432->5432/tcp, [::]:5432->5432/tcp\t\tpostgres\t1 hour ago\t\n");
    let tcp = ran(
        "LISTEN 0 4096 0.0.0.0:5432 0.0.0.0:* users:((\"docker-proxy\",pid=70,fd=4))\nLISTEN 0 128 [::1]:5433 [::]:* users:((\"postgres\",pid=71,fd=5))\nLISTEN 0 4096 [::]:5432 [::]:* users:((\"docker-proxy\",pid=72,fd=4))\n",
    );
    let mut es = ss::collect_listening(&tcp, &ran(""), &map).unwrap();
    assert_eq!(es.len(), 3);
    select_listeners(&mut es, &Mode::Dashboard { dev: false });
    let rows: Vec<_> = es.iter().map(brief).collect();
    assert_eq!(
        rows,
        vec![
            (Proto::Tcp, 5432, Some(70), "docker-proxy", Some("db")),
            (Proto::Tcp, 5433, Some(71), "postgres", None),
        ]
    );
}

#[test]
fn a_process_on_a_published_stack_is_the_containers_row() {
    let map = read_docker_ps("db\t0.0.0.0:5432->5432/tcp\n");
    let tcp = ran(
        "LISTEN 0 128 127.0.0.1:5432 0.0.0.0:* users:((\"postgres\",pid=71,fd=5))\nLISTEN 0 128 [::1]:5432 [::]:* users:((\"other\",pid=72,fd=5))\nLISTEN 0 128 [::ffff:10.0.0.1]:5432 *:* users:((\"java\",pid=73,fd=5))\n",
    );
    let es = ss::collect_listening(&tcp, &ran(""), &map).unwrap();
    let rows: Vec<_> = es.iter().map(brief).collect();
    assert_eq!(
        rows,
        vec![
            (Proto::Tcp, 5432, Some(71), "postgres", Some("db")),
            (Proto::Tcp, 5432, Some(72), "other", None),
            (Proto::Tcp, 5432, Some(73), "java", Some("db")),
        ]
    );
    let addrs: Vec<&str> = es.iter().map(|e| e.addr.as_str()).collect();
    assert_eq!(addrs, vec!["127.0.0.1", "::1", "10.0.0.1"]);
}

#[test]
fn listeners_keep_their_address() {
    let addr = |line: &str| one_line(line)[0].addr.clone();
    assert_eq!(addr("LISTEN 0 1 127.0.0.53%lo:53 0.0.0.0:*"), "127.0.0.53");
    assert_eq!(addr("LISTEN 0 1 [::]:53 [::]:*"), "::");
    assert_eq!(addr("LISTEN 0 1 *:53 *:*"), "*");
    assert_eq!(addr("LISTEN 0 1 [::ffff:1]:53 *:*"), "::ffff:1");
}
