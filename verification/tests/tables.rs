use lport::args::Mode;
use lport::info::{docker_info_rows, info_exit_code, info_lines, local_info_rows, missing_lines};
use lport::listing::arrange_rows;
use lport::model::{DockerInfo, Entry, Proto};
use lport::table::{empty_note, nz, pid_cell, shorten_path, table_lines};
use lport::width::{display_width, push_padded, push_repeated};

fn local(port: u32, pid: Option<u32>, process: &str, cwd: &str) -> Entry {
    let mut e = Entry::new(Proto::Tcp, "0.0.0.0".to_string(), port, pid, process.to_string(), None);
    e.cwd = cwd.to_string();
    e
}

fn container(port: u32, name: &str, project: Option<&str>) -> Entry {
    let d = DockerInfo {
        name: name.to_string(),
        image: "postgres:16".to_string(),
        running_for: "3 days ago".to_string(),
        work_dir: project.map(|p| format!("/srv/{}", p)),
        container_port: 5432,
        compose_project: project.map(|p| p.to_string()),
    };
    Entry::new(Proto::Tcp, "0.0.0.0".to_string(), port, None, "?".to_string(), Some(d))
}

#[test]
fn unknown_figures_are_dashes() {
    assert_eq!(nz(""), "-");
    assert_eq!(nz("1%"), "1%");
    assert_eq!(pid_cell(None), "-");
    assert_eq!(pid_cell(Some(42)), "42");
}

#[test]
fn home_is_a_tilde() {
    let home = Some("/home/me");
    assert_eq!(shorten_path("/home/me", home), "~");
    assert_eq!(shorten_path("/home/me/a/b", home), "~/a/b");
    assert_eq!(shorten_path("/home/me/프로젝트/데모", home), "~/프로젝트/데모");
    assert_eq!(shorten_path("/home/me2/a", home), "/home/me2/a");
    assert_eq!(shorten_path("/home", home), "/home");
    assert_eq!(shorten_path("/home/me/a", None), "/home/me/a");
    for plain in ["", "-", "?", "/"] {
        assert_eq!(shorten_path(plain, Some(plain)), plain);
    }
    assert_eq!(shorten_path("/x", Some("")), "~/x");
    assert_eq!(shorten_path("/x", Some("/")), "/x");
}

#[test]
fn long_paths_are_not_cut() {
    let path = format!("/srv/{}", "deep/".repeat(200));
    assert_eq!(shorten_path(&path, Some("/home/me")), path);
    let lines = table_lines(&vec![local(80, Some(1), "p", &path)], Some("/home/me"));
    assert!(lines[2].contains(&path));
}

#[test]
fn widths_count_columns() {
    assert_eq!(display_width(""), 0);
    assert_eq!(display_width("abc"), 3);
    assert_eq!(display_width("프로젝트"), 8);
    assert_eq!(display_width("デモ"), 4);
    assert_eq!(display_width("漢字"), 4);
    assert_eq!(display_width("😀"), 2);
    assert_eq!(display_width("🚀🚀"), 4);
    assert_eq!(display_width("é"), 1);
    assert_eq!(display_width("e\u{301}"), 1);
    assert_eq!(display_width("\u{1112}\u{1161}\u{11ab}"), 2);
    assert_eq!(display_width("ｱ"), 1);
    assert_eq!(display_width("Ａ"), 2);
}

#[test]
fn padding_fills_columns() {
    let mut s = String::new();
    push_padded(&mut s, "데모", 6);
    s.push('|');
    push_padded(&mut s, "too long", 3);
    s.push('|');
    push_repeated(&mut s, '-', 3);
    assert_eq!(s, "데모  |too long|---");
}

#[test]
fn the_table_lays_out_rows() {
    let mut a = local(3000, Some(42), "node", "/home/me/app");
    a.stats.cpu = "1.5%".to_string();
    a.stats.mem = "120M".to_string();
    a.stats.uptime = "1h2m".to_string();
    let lines = table_lines(&vec![a, local(8000, None, "?", "-")], Some("/home/me"));
    assert_eq!(
        lines,
        vec![
            "PROTO  PORT  PID  PROCESS  JOB    CPU   MEM   UPTIME",
            "-----  ----  ---  -------  -----  ----  ----  ------",
            "tcp    3000  42   node     ~/app  1.5%  120M  1h2m  ",
            "tcp    8000  -    ?        -      -     -     -     ",
        ]
    );
}

#[test]
fn containers_stand_in_blocks() {
    let mut es = vec![
        container(5432, "shop_db", Some("shop")),
        local(3000, Some(1), "node", "/a"),
        container(8080, "shop_web", Some("shop")),
        container(9000, "solo", None),
    ];
    es[1].user_launched = true;
    arrange_rows(&mut es, &Mode::Dashboard { dev: false });
    let lines = table_lines(&es, None);
    assert_eq!(
        lines,
        vec![
            "PROTO  PORT  PID  PROCESS  JOB       CPU  MEM  UPTIME",
            "-----  ----  ---  -------  --------  ---  ---  ------",
            "tcp    3000  1    node     /a        -    -    -     ",
            "",
            "[ shop ]",
            "tcp    5432  -    docker   shop_db   -    -    -     ",
            "tcp    8080  -    docker   shop_web  -    -    -     ",
            "",
            "[ solo ]",
            "tcp    9000  -    docker   solo      -    -    -     ",
        ]
    );
}

#[test]
fn a_first_block_has_no_blank_line() {
    let lines = table_lines(&vec![container(1, "c", None), local(2, None, "p", "/z")], None);
    assert_eq!(lines[2], "[ c ]");
    assert_eq!(lines.len(), 5);
}

#[test]
fn wide_text_keeps_the_columns_aligned() {
    let es = vec![
        local(3000, Some(1), "node", "/home/me/프로젝트/데모"),
        local(3001, Some(2), "노드", "/home/me/x"),
        local(3002, Some(3), "😀", "/e\u{301}"),
    ];
    let lines = table_lines(&es, Some("/home/me"));
    let width = display_width(&lines[0]);
    for l in &lines {
        assert_eq!(display_width(l), width, "{}", l);
    }
    assert_eq!(lines[2], "tcp    3000  1    node     ~/프로젝트/데모  -    -    -     ");
    assert_eq!(lines[3], "tcp    3001  2    노드     ~/x              -    -    -     ");
}

#[test]
fn an_empty_table_has_a_note() {
    let lines = table_lines(&vec![], None);
    assert_eq!(lines.len(), 2);
    assert_eq!(lines[0], "PROTO  PORT  PID  PROCESS  JOB  CPU  MEM  UPTIME");
    assert_eq!(empty_note(true), "\n(no listening ports found — try running with sudo)");
    assert_eq!(
        empty_note(false),
        "\n(no user servers to display — run `lport --dev` to see everything)"
    );
}

#[test]
fn local_details_leave_out_what_is_unknown() {
    let mut e = local(3000, Some(42), "node", "/srv/app");
    e.cmdline = "node server.js".to_string();
    let labels = |e: &Entry| -> Vec<&'static str> { local_info_rows(e).iter().map(|r| r.0).collect() };
    assert_eq!(labels(&e), vec!["PORT", "PROCESS", "PID", "CPU", "MEM", "UPTIME", "CWD", "CMD"]);
    e.stats.user = Some("me".to_string());
    e.stats.threads = Some(7);
    e.stats.cpu = "1%".to_string();
    let rows = local_info_rows(&e);
    let pairs: Vec<(&str, &str)> = rows.iter().map(|r| (r.0, r.1.as_str())).collect();
    assert_eq!(
        pairs,
        vec![
            ("PORT", "tcp/3000"),
            ("PROCESS", "node"),
            ("PID", "42"),
            ("USER", "me"),
            ("CPU", "1%"),
            ("MEM", "-"),
            ("THREADS", "7"),
            ("UPTIME", "-"),
            ("CWD", "/srv/app"),
            ("CMD", "node server.js"),
        ]
    );
}

#[test]
fn container_details_show_where_the_port_leads() {
    let e = container(15432, "db", Some("shop"));
    let d = e.docker.clone().unwrap();
    let rows = docker_info_rows(&e, &d);
    let pairs: Vec<(&str, &str)> = rows.iter().map(|r| (r.0, r.1.as_str())).collect();
    assert_eq!(
        pairs,
        vec![
            ("PORT", "tcp/15432 → 5432 (in container)"),
            ("TYPE", "docker container"),
            ("CONTAINER", "db"),
            ("IMAGE", "postgres:16"),
            ("WORKDIR", "/srv/shop"),
            ("CPU", "-"),
            ("MEM", "-"),
            ("UPTIME", "-"),
        ]
    );
}

#[test]
fn plain_containers_have_no_directory() {
    let e = container(15432, "db", None);
    let d = e.docker.clone().unwrap();
    assert_eq!(docker_info_rows(&e, &d)[4], ("WORKDIR", "-".to_string()));
}

#[test]
fn details_stand_in_blocks() {
    let lines = info_lines(&vec![local(80, Some(1), "p", "/a"), container(81, "c", None)]);
    assert_eq!(
        lines,
        vec![
            "─────────────────────────────────────────────",
            "  PORT     tcp/80",
            "  PROCESS  p",
            "  PID      1",
            "  CPU      -",
            "  MEM      -",
            "  UPTIME   -",
            "  CWD      /a",
            "  CMD      ",
            "",
            "─────────────────────────────────────────────",
            "  PORT       tcp/81 → 5432 (in container)",
            "  TYPE       docker container",
            "  CONTAINER  c",
            "  IMAGE      postgres:16",
            "  WORKDIR    -",
            "  CPU        -",
            "  MEM        -",
            "  UPTIME     -",
        ]
    );
    assert!(info_lines(&vec![]).is_empty());
}

#[test]
fn every_missing_port_is_reported() {
    let es = vec![local(80, Some(1), "p", "/a")];
    assert_eq!(
        missing_lines(&es, &vec![79, 80, 81]),
        vec!["port 79: no listening process found.", "port 81: no listening process found."]
    );
    assert_eq!(info_exit_code(&es, &vec![79, 80]), 1);
    assert_eq!(info_exit_code(&es, &vec![80, 80]), 0);
    assert!(missing_lines(&es, &vec![80]).is_empty());
}
