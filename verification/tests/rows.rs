use lport::args::Mode;
use lport::info::missing_lines;
use lport::listing::{arrange_rows, merge_sockets, select_listeners};
use lport::model::{DockerInfo, Entry, Proto};
use lport::order::{comes_before, group_key, precedes, sort_rows, RowOrder};
use lport::process::{enrich_process_info, ProcessInfo};

fn local(proto: Proto, port: u32, pid: Option<u32>, cwd: &str) -> Entry {
    let mut e = Entry::new(proto, "0.0.0.0".to_string(), port, pid, "p".to_string(), None);
    e.cwd = cwd.to_string();
    e
}

fn container(port: u32, pid: Option<u32>, name: &str, project: Option<&str>) -> Entry {
    let d = DockerInfo {
        name: name.to_string(),
        image: String::new(),
        running_for: String::new(),
        work_dir: None,
        container_port: port,
        compose_project: project.map(|p| p.to_string()),
    };
    Entry::new(Proto::Tcp, "0.0.0.0".to_string(), port, pid, "docker-proxy".to_string(), Some(d))
}

fn at(addr: &str, mut e: Entry) -> Entry {
    e.addr = addr.to_string();
    e
}

fn ports(es: &Vec<Entry>) -> Vec<u32> {
    es.iter().map(|e| e.port).collect()
}

#[test]
fn text_is_ordered_by_characters() {
    for (a, b) in [("", "a"), ("a", "b"), ("a", "ab"), ("ab", "b"), ("Z", "a"), ("z", "가"), ("가", "😀")] {
        assert!(comes_before(a, b), "{} {}", a, b);
        assert!(!comes_before(b, a), "{} {}", b, a);
        assert!(a < b);
    }
    assert!(!comes_before("a", "a"));
}

#[test]
fn rows_sort_by_port_protocol_and_process() {
    let mut es = vec![
        local(Proto::Udp, 80, Some(1), ""),
        local(Proto::Tcp, 80, Some(9), ""),
        local(Proto::Tcp, 22, None, ""),
        local(Proto::Tcp, 80, None, ""),
        local(Proto::Tcp, 80, Some(2), ""),
    ];
    sort_rows(&mut es, RowOrder::Ports);
    let keys: Vec<_> = es.iter().map(|e| (e.port, e.proto.name(), e.pid)).collect();
    assert_eq!(
        keys,
        vec![
            (22, "tcp", None),
            (80, "tcp", None),
            (80, "tcp", Some(2)),
            (80, "tcp", Some(9)),
            (80, "udp", Some(1)),
        ]
    );
    assert!(precedes(&es[0], &es[1], RowOrder::Ports));
    assert!(!precedes(&es[1], &es[0], RowOrder::Ports));
}

#[test]
fn level_rows_stay_as_they_were() {
    let mut es = vec![
        local(Proto::Tcp, 80, Some(2), "/b"),
        local(Proto::Tcp, 80, Some(2), "/a"),
        local(Proto::Tcp, 79, Some(5), "/x"),
        local(Proto::Tcp, 80, Some(2), "/c"),
    ];
    sort_rows(&mut es, RowOrder::Ports);
    let dirs: Vec<&str> = es.iter().map(|e| e.cwd.as_str()).collect();
    assert_eq!(dirs, vec!["/x", "/b", "/a", "/c"]);
}

#[test]
fn rows_group_by_project_container_or_directory() {
    let a = container(1, None, "web", Some("shop"));
    let b = container(2, None, "db", None);
    let c = local(Proto::Tcp, 3, Some(1), "/srv");
    assert_eq!(group_key(&a), "shop");
    assert_eq!(group_key(&b), "db");
    assert_eq!(group_key(&c), "/srv");
    let mut es = vec![
        container(9, None, "zeta", Some("shop")),
        local(Proto::Tcp, 3, Some(1), "/srv"),
        container(5, None, "alpha", Some("shop")),
        container(4, None, "db", None),
        container(3, None, "alpha", Some("shop")),
    ];
    sort_rows(&mut es, RowOrder::Groups);
    assert_eq!(ports(&es), vec![3, 4, 3, 5, 9]);
    assert_eq!(es[0].cwd, "/srv");
}

#[test]
fn a_dual_stack_publish_is_one_row() {
    let mut es = vec![
        at("0.0.0.0", container(80, None, "web", None)),
        at("::", container(80, None, "web", None)),
        at("::", container(81, Some(7), "web", None)),
        at("0.0.0.0", container(81, Some(8), "web", None)),
        at("0.0.0.0", container(82, None, "web", None)),
        at("::", container(82, None, "other", None)),
    ];
    merge_sockets(&mut es);
    assert_eq!(ports(&es), vec![80, 81, 82, 82]);
    assert_eq!(es[1].pid, Some(7));
}

#[test]
fn a_container_on_two_host_addresses_has_two_rows() {
    let mut es = vec![
        at("10.0.0.1", container(80, Some(7), "web", None)),
        at("10.0.0.2", container(80, Some(8), "web", None)),
        at("127.0.0.1", container(81, None, "web", None)),
        at("127.0.0.1", container(81, None, "web", None)),
        at("0.0.0.0", container(82, Some(7), "web", None)),
        at("0.0.0.0", container(82, Some(8), "web", None)),
        at("10.0.0.1", container(83, Some(9), "web", None)),
        at("10.0.0.2", container(83, Some(9), "web", None)),
    ];
    merge_sockets(&mut es);
    assert_eq!(ports(&es), vec![80, 80, 81, 81, 82, 82, 83]);
}

#[test]
fn one_process_is_one_row_per_port_and_protocol() {
    let mut es = vec![
        local(Proto::Tcp, 80, Some(1), "first"),
        local(Proto::Tcp, 80, Some(2), ""),
        local(Proto::Tcp, 80, Some(1), "second"),
        local(Proto::Udp, 80, Some(1), ""),
        local(Proto::Tcp, 81, Some(1), ""),
    ];
    merge_sockets(&mut es);
    assert_eq!(es.len(), 4);
    assert_eq!(es[0].cwd, "first");
}

#[test]
fn unknown_processes_keep_one_row_per_socket() {
    let mut es = vec![local(Proto::Tcp, 80, None, ""), local(Proto::Tcp, 80, None, ""), local(Proto::Tcp, 80, None, "")];
    merge_sockets(&mut es);
    assert_eq!(es.len(), 3);
}

#[test]
fn queries_keep_their_ports_only() {
    let all = || {
        vec![
            local(Proto::Tcp, 90, Some(1), ""),
            local(Proto::Tcp, 80, Some(1), ""),
            local(Proto::Tcp, 70, Some(1), ""),
            local(Proto::Tcp, 80, Some(1), ""),
        ]
    };
    let mut es = all();
    select_listeners(&mut es, &Mode::Info { ports: vec![90, 80, 1] });
    assert_eq!(ports(&es), vec![80, 90]);
    let mut es = all();
    select_listeners(&mut es, &Mode::Kill { ports: vec![70], force: false, yes: false });
    assert_eq!(ports(&es), vec![70]);
    let mut es = all();
    select_listeners(&mut es, &Mode::Dashboard { dev: false });
    assert_eq!(ports(&es), vec![70, 80, 90]);
}

#[test]
fn the_dashboard_shows_user_servers_and_containers() {
    let all = || {
        let mut mine = local(Proto::Tcp, 3000, Some(1), "/home/me/app");
        mine.user_launched = true;
        vec![local(Proto::Tcp, 22, Some(2), "/"), mine, container(5432, None, "db", None)]
    };
    let mut es = all();
    arrange_rows(&mut es, &Mode::Dashboard { dev: false });
    assert_eq!(ports(&es), vec![3000, 5432]);
    let mut es = all();
    arrange_rows(&mut es, &Mode::Dashboard { dev: true });
    assert_eq!(ports(&es), vec![22, 3000, 5432]);
    let mut es = all();
    arrange_rows(&mut es, &Mode::Info { ports: vec![22] });
    assert_eq!(ports(&es), vec![22, 3000, 5432]);
}

#[test]
fn reading_less_shows_the_same() {
    let info = vec![
        ProcessInfo { pid: 1, cwd: "/a".to_string(), cmdline: "one".to_string(), user_launched: true },
        ProcessInfo { pid: 2, cwd: "/b".to_string(), cmdline: "two".to_string(), user_launched: false },
    ];
    let all = vec![
        local(Proto::Tcp, 80, Some(1), ""),
        local(Proto::Tcp, 81, Some(2), ""),
        local(Proto::Udp, 80, None, ""),
    ];
    let mode = Mode::Info { ports: vec![80] };
    let mut first: Vec<Entry> = all.clone();
    select_listeners(&mut first, &mode);
    enrich_process_info(&mut first, &info);
    let mut last: Vec<Entry> = all.clone();
    enrich_process_info(&mut last, &info);
    select_listeners(&mut last, &mode);
    assert_eq!(first, last);
    assert_eq!(first.len(), 2);
    assert_eq!(first[0].cwd, "/a");
}

#[test]
fn merged_sockets_are_not_missing() {
    let ports_asked = vec![80, 81, 82];
    let mut es = vec![
        local(Proto::Tcp, 80, Some(1), ""),
        local(Proto::Tcp, 80, Some(1), ""),
        container(82, None, "web", None),
        at("::", container(82, None, "web", None)),
        local(Proto::Tcp, 90, Some(1), ""),
    ];
    select_listeners(&mut es, &Mode::Info { ports: ports_asked.clone() });
    assert_eq!(ports(&es), vec![80, 82]);
    assert_eq!(missing_lines(&es, &ports_asked), vec!["port 81: no listening process found."]);
}
