use lport::command::CommandResult;
use lport::model::{DockerInfo, Entry, Proto};
use lport::stats::{apply_local_stats, enrich_local_stats, format_etime, format_mem, local_pids};

fn by_floats(bytes: u64) -> String {
    const KB: u64 = 1024;
    const MB: u64 = KB * 1024;
    const GB: u64 = MB * 1024;
    if bytes >= GB {
        format!("{:.1}G", bytes as f64 / GB as f64)
    } else if bytes >= MB {
        format!("{:.0}M", bytes as f64 / MB as f64)
    } else if bytes >= KB {
        format!("{}K", bytes / KB)
    } else {
        format!("{}B", bytes)
    }
}

fn local(pid: u32) -> Entry {
    Entry::new(Proto::Tcp, "0.0.0.0".to_string(), 80, Some(pid), "p".to_string(), None)
}

fn container() -> Entry {
    let d = DockerInfo {
        name: "c".to_string(),
        image: String::new(),
        running_for: String::new(),
        work_dir: None,
        container_port: 1,
        compose_project: None,
    };
    Entry::new(Proto::Tcp, "0.0.0.0".to_string(), 80, Some(5), "docker-proxy".to_string(), Some(d))
}

#[test]
fn sizes_have_one_unit() {
    assert_eq!(format_mem(0), "0B");
    assert_eq!(format_mem(1023), "1023B");
    assert_eq!(format_mem(1024), "1K");
    assert_eq!(format_mem(1024 * 1024 - 1), "1023K");
    assert_eq!(format_mem(1024 * 1024), "1M");
    assert_eq!(format_mem(123 * 1024 * 1024), "123M");
    assert_eq!(format_mem(1024 * 1024 * 1024), "1.0G");
    assert_eq!(format_mem(3 * 512 * 1024 * 1024), "1.5G");
    assert_eq!(format_mem(u64::MAX), "17179869184.0G");
}

#[test]
fn halves_go_to_the_even_neighbour() {
    const MB: u64 = 1024 * 1024;
    const GB: u64 = 1024 * MB;
    assert_eq!(format_mem(MB + MB / 2), "2M");
    assert_eq!(format_mem(2 * MB + MB / 2), "2M");
    assert_eq!(format_mem(3 * MB + MB / 2), "4M");
    assert_eq!(format_mem(GB + GB / 4), "1.2G");
    assert_eq!(format_mem(GB + 3 * (GB / 4)), "1.8G");
}

#[test]
fn sizes_agree_with_floating_point() {
    let mut n: u64 = 1;
    let mut step: u64 = 0x9e37_79b9_7f4a_7c15;
    for _ in 0..20000 {
        assert_eq!(format_mem(n), by_floats(n), "{}", n);
        step = step.wrapping_mul(6364136223846793005).wrapping_add(1442695040888963407);
        n = step >> (step % 60);
    }
    for shift in 20..64 {
        let p = 1u64 << shift;
        for d in 0..20 {
            for m in [p.wrapping_sub(d), p.wrapping_add(d), p.wrapping_add(p >> 1).wrapping_add(d)] {
                assert_eq!(format_mem(m), by_floats(m), "{}", m);
            }
        }
    }
    let gb: u64 = 1 << 30;
    for k in 0..4000u64 {
        let m = gb + k * (gb / 40);
        assert_eq!(format_mem(m), by_floats(m), "{}", m);
    }
}

#[test]
fn uptimes_show_two_units() {
    assert_eq!(format_etime("00:05"), "5s");
    assert_eq!(format_etime("05"), "5s");
    assert_eq!(format_etime("01:00"), "1m0s");
    assert_eq!(format_etime("59:59"), "59m59s");
    assert_eq!(format_etime("01:02:03"), "1h2m");
    assert_eq!(format_etime("2-03:04:05"), "2d3h");
    assert_eq!(format_etime("1-00:00:00"), "1d0h");
    assert_eq!(format_etime("25:00:00"), "1d1h");
}

#[test]
fn odd_uptimes_are_taken_as_they_come() {
    assert_eq!(format_etime("1:2:3:4"), "1:2:3:4");
    assert_eq!(format_etime("x"), "0s");
    assert_eq!(format_etime(""), "0s");
    assert_eq!(format_etime("x-00:07"), "7s");
    assert_eq!(format_etime("a:b:9"), "9s");
}

#[test]
fn ps_lines_fill_in_figures() {
    let mut es = vec![local(10), local(11), container(), local(12)];
    assert_eq!(local_pids(&es), vec![10, 11, 12]);
    apply_local_stats(
        &mut es,
        "   10  1.5  2048    7    01:02:03 alice\n   11 0.0 short\n    5  9.9 1 1 00:01 root\n   12 0.2 x y 00:09 bob extra\n",
        true,
    );
    let s = &es[0].stats;
    assert_eq!((s.cpu.as_str(), s.mem.as_str(), s.uptime.as_str()), ("1.5%", "2M", "1h2m"));
    assert_eq!((s.threads, s.user.as_deref()), (Some(7), Some("alice")));
    assert_eq!(es[1].stats.cpu, "");
    assert_eq!(es[2].stats.cpu, "");
    let s = &es[3].stats;
    assert_eq!((s.cpu.as_str(), s.mem.as_str(), s.uptime.as_str()), ("0.2%", "0B", "9s"));
    assert_eq!((s.threads, s.user.as_deref()), (None, Some("bob")));
}

#[test]
fn ps_without_a_thread_column_is_read_too() {
    let mut es = vec![local(10)];
    let out = CommandResult::Ran {
        success: true,
        code: Some(0),
        stdout: b"   10  1.5  2048   01:02:03 alice\n   10  2.5  1024   00:03 carol\n".to_vec(),
        stderr: Vec::new(),
    };
    enrich_local_stats(&mut es, &out, false);
    let s = &es[0].stats;
    assert_eq!((s.cpu.as_str(), s.mem.as_str(), s.uptime.as_str()), ("2.5%", "1M", "3s"));
    assert_eq!((s.threads, s.user.as_deref()), (None, Some("carol")));
    let before = es[0].clone();
    enrich_local_stats(&mut es, &CommandResult::NotSpawned { message: "no ps".to_string() }, false);
    assert_eq!(es[0], before);
}
