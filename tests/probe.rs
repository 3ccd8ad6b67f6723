use sshmap::health::{check_all, check_one, finish_check, parse_ping_rtt, probe_status};
use sshmap::host::{Host, HostStatus};

fn host(alias: &str, hostname: &str) -> Host {
    Host {
        alias: alias.to_string(),
        hostname: hostname.to_string(),
        user: String::new(),
        port: 22,
        identity_file: None,
        group: "default".to_string(),
        status: HostStatus::Unknown,
    }
}

#[test]
fn linux_summary_line_gives_average() {
    let out = "PING h (1.1.1.1) 56(84) bytes of data.\n64 bytes from 1.1.1.1: icmp_seq=1 ttl=57 time=3.40 ms\n\n--- h ping statistics ---\n1 packets transmitted, 1 received, 0% packet loss, time 0ms\nrtt min/avg/max/mdev = 1.200/3.400/5.600/0.500 ms\n";
    assert_eq!(parse_ping_rtt(out), Some(3400));
    assert_eq!(parse_ping_rtt("rtt min/avg/max/mdev = 1.200/3.400/5.600/0.500 ms"), Some(3400));
}

#[test]
fn macos_summary_line_gives_average() {
    let out = "round-trip min/avg/max/stddev = 1.234/2.345/3.456/0.123 ms\n";
    assert_eq!(parse_ping_rtt(out), Some(2345));
}

#[test]
fn figures_without_summary_give_nothing() {
    assert_eq!(parse_ping_rtt(""), None);
    assert_eq!(parse_ping_rtt("64 bytes from x: time=1.0 ms\n"), None);
    assert_eq!(parse_ping_rtt("rtt min/avg/max = 1.0/abc/2.0 ms\n"), None);
    assert_eq!(parse_ping_rtt("avg/x = 12/7.25\n"), Some(7250));
}

#[test]
fn probe_status_prefers_reported_latency() {
    assert_eq!(probe_status(false, "rtt min/avg/max/mdev = 1/2/3/4 ms", 9), HostStatus::Down);
    assert_eq!(probe_status(true, "rtt min/avg/max/mdev = 1/2/3/4 ms", 9), HostStatus::Up(2000));
    assert_eq!(probe_status(true, "no summary", 9000), HostStatus::Up(9000));
}

#[test]
fn check_all_marks_every_record() {
    let mut hosts = vec![host("a", "ha"), host("b", "hb")];
    hosts[1].status = HostStatus::Up(5);
    let targets = check_all(&mut hosts);
    assert_eq!(targets, vec!["ha".to_string(), "hb".to_string()]);
    assert!(hosts.iter().all(|h| h.status == HostStatus::Checking));
    assert_eq!(hosts[1].alias, "b");
}

#[test]
fn check_one_then_finish_moves_through_checking() {
    let mut hosts = vec![host("a", "ha"), host("b", "hb")];
    hosts[0].status = HostStatus::Down;
    assert_eq!(check_one(&mut hosts, 0), Some("ha".to_string()));
    assert_eq!(hosts[0].status, HostStatus::Checking);
    assert_eq!(hosts[1].status, HostStatus::Unknown);
    finish_check(&mut hosts, 0, true, "rtt min/avg/max/mdev = 0.1/0.25/0.3/0 ms", 7);
    assert_eq!(hosts[0].status, HostStatus::Up(250));
    check_one(&mut hosts, 1);
    finish_check(&mut hosts, 1, false, "", 7);
    assert_eq!(hosts[1].status, HostStatus::Down);
}

#[test]
fn out_of_range_index_changes_nothing() {
    let mut hosts = vec![host("a", "ha")];
    assert_eq!(check_one(&mut hosts, 3), None);
    finish_check(&mut hosts, 3, true, "", 1);
    assert_eq!(hosts[0].status, HostStatus::Unknown);
}
