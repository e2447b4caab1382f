use lport::command::CommandResult;
use lport::docker::{
    apply_docker_stats, container_names, enrich_docker_stats, load_docker_ports, parse_port_range,
    read_docker_ps, retry_names, set_docker_uptime, still_running, DockerMap,
};
use lport::model::{DockerInfo, Entry, Proto};
use lport::text::chars_of;

fn result(success: bool, stdout: &str) -> CommandResult {
    CommandResult::Ran {
        success,
        code: Some(if success { 0 } else { 1 }),
        stdout: stdout.as_bytes().to_vec(),
        stderr: Vec::new(),
    }
}

fn owner(map: &DockerMap, proto: Proto, addr: &str, port: u32) -> Option<String> {
    map.lookup(proto, &chars_of(addr), port).map(|d| d.name)
}

fn row(name: &str, running_for: &str) -> Entry {
    let d = DockerInfo {
        name: name.to_string(),
        image: "img".to_string(),
        running_for: running_for.to_string(),
        work_dir: None,
        container_port: 80,
        compose_project: None,
    };
    Entry::new(Proto::Tcp, "0.0.0.0".to_string(), 80, None, "?".to_string(), Some(d))
}

fn local(pid: u32) -> Entry {
    Entry::new(Proto::Tcp, "0.0.0.0".to_string(), 81, Some(pid), "node".to_string(), None)
}

#[test]
fn port_ranges_are_read() {
    assert_eq!(parse_port_range("80"), Some((80, 80)));
    assert_eq!(parse_port_range("8080-8082"), Some((8080, 8082)));
    assert_eq!(parse_port_range("80-"), None);
    assert_eq!(parse_port_range("-80"), None);
    assert_eq!(parse_port_range("x"), None);
    assert_eq!(parse_port_range(""), None);
}

#[test]
fn containers_are_read_with_their_labels() {
    let map = read_docker_ps(
        "db\t0.0.0.0:5432->5433/tcp, [::]:5432->5433/tcp\t/srv/app \tpostgres:16\t3 days ago\tapp\nplain\t0.0.0.0:53->53/udp\t\tdns\t1 hour ago\t\n",
    );
    let d = map.lookup(Proto::Tcp, &chars_of("0.0.0.0"), 5432).unwrap();
    assert_eq!(d.name, "db");
    assert_eq!(d.image, "postgres:16");
    assert_eq!(d.running_for, "3 days ago");
    assert_eq!(d.work_dir, Some("/srv/app".to_string()));
    assert_eq!(d.container_port, 5433);
    assert_eq!(d.compose_project, Some("app".to_string()));
    let p = map.lookup(Proto::Udp, &chars_of("0.0.0.0"), 53).unwrap();
    assert_eq!(p.name, "plain");
    assert_eq!(p.work_dir, None);
    assert_eq!(p.compose_project, None);
    assert_eq!(owner(&map, Proto::Tcp, "0.0.0.0", 53), None);
}

#[test]
fn short_lines_get_dashes() {
    let map = read_docker_ps("c\t0.0.0.0:1->2/tcp\n");
    let d = map.lookup(Proto::Tcp, &chars_of("0.0.0.0"), 1).unwrap();
    assert_eq!((d.image.as_str(), d.running_for.as_str()), ("-", "-"));
}

#[test]
fn published_ranges_count_container_ports_along() {
    let map = read_docker_ps("c\t0.0.0.0:8080-8082->80-82/tcp\n");
    for i in 0..3 {
        let d = map.lookup(Proto::Tcp, &chars_of("0.0.0.0"), 8080 + i).unwrap();
        assert_eq!(d.container_port, 80 + i);
    }
    assert_eq!(owner(&map, Proto::Tcp, "0.0.0.0", 8083), None);
    assert_eq!(owner(&map, Proto::Tcp, "0.0.0.0", 8079), None);
}

#[test]
fn unpublished_and_odd_ports_are_passed_over() {
    let map = read_docker_ps("c\t80/tcp, 0.0.0.0:90->90/sctp, :::91->91, 0.0.0.0:x->1/tcp, 0.0.0.0:92->92/tcp\nnoports\n");
    for p in [80, 90, 91, 1] {
        assert_eq!(owner(&map, Proto::Tcp, "0.0.0.0", p), None);
    }
    assert_eq!(owner(&map, Proto::Tcp, "0.0.0.0", 92), Some("c".to_string()));
}

#[test]
fn a_container_on_one_address_claims_no_other() {
    let map = read_docker_ps("c\t127.0.0.1:8080->80/tcp\n");
    assert_eq!(owner(&map, Proto::Tcp, "127.0.0.1", 8080), Some("c".to_string()));
    for addr in ["10.0.0.1", "0.0.0.0", "::", "*", "::1"] {
        assert_eq!(owner(&map, Proto::Tcp, addr, 8080), None, "{}", addr);
    }
}

#[test]
fn a_container_on_one_stack_claims_no_other() {
    let map = read_docker_ps("four\t0.0.0.0:8080->80/tcp\nsix\t[::]:9090->80/tcp\n");
    assert_eq!(owner(&map, Proto::Tcp, "0.0.0.0", 8080), Some("four".to_string()));
    assert_eq!(owner(&map, Proto::Tcp, "::", 8080), None);
    assert_eq!(owner(&map, Proto::Tcp, "::", 9090), Some("six".to_string()));
    assert_eq!(owner(&map, Proto::Tcp, "0.0.0.0", 9090), None);
    assert_eq!(owner(&map, Proto::Tcp, "*", 8080), Some("four".to_string()));
    assert_eq!(owner(&map, Proto::Tcp, "127.0.0.1", 8080), Some("four".to_string()));
    assert_eq!(owner(&map, Proto::Tcp, "::1", 8080), None);
    assert_eq!(owner(&map, Proto::Tcp, "fe80::1", 9090), Some("six".to_string()));
    assert_eq!(owner(&map, Proto::Tcp, "127.0.0.1", 9090), None);
}

#[test]
fn without_docker_nothing_is_claimed() {
    let line = "c\t0.0.0.0:80->80/tcp\n";
    let map = load_docker_ports(&result(true, line));
    assert_eq!(owner(&map, Proto::Tcp, "0.0.0.0", 80), Some("c".to_string()));
    let map = load_docker_ports(&result(false, line));
    assert_eq!(owner(&map, Proto::Tcp, "0.0.0.0", 80), None);
    let map = load_docker_ports(&CommandResult::NotSpawned { message: "no docker".to_string() });
    assert_eq!(owner(&map, Proto::Tcp, "0.0.0.0", 80), None);
}

#[test]
fn container_uptime_loses_its_suffix() {
    let mut es = vec![row("a", "3 days ago"), row("b", "Up ago ago"), row("c", "-"), local(1)];
    set_docker_uptime(&mut es);
    let ups: Vec<&str> = es.iter().map(|e| e.stats.uptime.as_str()).collect();
    assert_eq!(ups, vec!["3 days", "Up", "-", ""]);
}

#[test]
fn containers_are_asked_for_once() {
    let es = vec![row("b", ""), row("a", ""), local(1), row("b", "")];
    assert_eq!(container_names(&es), vec!["b".to_string(), "a".to_string()]);
}

#[test]
fn container_usage_is_filled_in() {
    let mut es = vec![row("a", ""), row("b", ""), local(1)];
    apply_docker_stats(&mut es, "a\t1.25%\t10MiB / 2GiB\nb\t3%\nother\t9%\t1MiB / 2MiB\n");
    assert_eq!((es[0].stats.cpu.as_str(), es[0].stats.mem.as_str()), ("1.25%", "10MiB"));
    assert_eq!((es[1].stats.cpu.as_str(), es[1].stats.mem.as_str()), ("", ""));
    assert_eq!((es[2].stats.cpu.as_str(), es[2].stats.mem.as_str()), ("", ""));
    apply_docker_stats(&mut es, "b\t1%\t1MiB\nb\t2%\t2MiB / 1GiB\n");
    assert_eq!((es[1].stats.cpu.as_str(), es[1].stats.mem.as_str()), ("2%", "2MiB"));
}

#[test]
fn failed_docker_stats_change_nothing() {
    let line = "a\t1.25%\t10MiB / 2GiB\n";
    let mut es = vec![row("a", "")];
    enrich_docker_stats(&mut es, &result(false, line));
    assert_eq!(es[0].stats.cpu, "");
    enrich_docker_stats(&mut es, &result(true, line));
    assert_eq!(es[0].stats.cpu, "1.25%");
}

#[test]
fn containers_that_still_run_are_asked_for_again() {
    let names: Vec<String> = ["a", "b", "c"].iter().map(|s| s.to_string()).collect();
    assert_eq!(still_running(&names, "c\na\nx\n"), vec!["a".to_string(), "c".to_string()]);
    let down = result(false, "");
    let up = result(true, "");
    assert_eq!(
        retry_names(&names, &down, &result(true, "c\na\n")),
        Some(vec!["a".to_string(), "c".to_string()])
    );
    assert_eq!(retry_names(&names, &up, &result(true, "c\na\n")), None);
    assert_eq!(retry_names(&names, &down, &result(true, "a\nb\nc\n")), None);
    assert_eq!(retry_names(&names, &down, &result(true, "")), None);
    assert_eq!(retry_names(&names, &down, &result(false, "a\n")), None);
}
