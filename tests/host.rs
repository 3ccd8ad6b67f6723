use sshmap::host::{Host, HostStatus};

fn host(user: &str, port: u16, key: Option<&str>) -> Host {
    Host {
        alias: "a".to_string(),
        hostname: "example.org".to_string(),
        user: user.to_string(),
        port,
        identity_file: key.map(|k| k.to_string()),
        group: "default".to_string(),
        status: HostStatus::Unknown,
    }
}

#[test]
fn ssh_command_plain() {
    assert_eq!(host("", 22, None).ssh_command(), vec!["ssh", "example.org"]);
}

#[test]
fn ssh_command_with_port_key_and_user() {
    assert_eq!(
        host("bob", 2222, Some("/k/id")).ssh_command(),
        vec!["ssh", "-p", "2222", "-i", "/k/id", "bob@example.org"]
    );
}

#[test]
fn status_labels() {
    let mut h = host("", 22, None);
    assert_eq!(h.status_label(), "?");
    assert_eq!(h.rtt_label(), "\u{2014}");
    h.status = HostStatus::Checking;
    assert_eq!(h.status_label(), "...");
    h.status = HostStatus::Down;
    assert_eq!(h.status_label(), "DOWN");
    h.status = HostStatus::Up(3400);
    assert_eq!(h.status_label(), "UP");
    assert_eq!(h.rtt_label(), "3ms");
    h.status = HostStatus::Up(3500);
    assert_eq!(h.rtt_label(), "4ms");
    h.status = HostStatus::Up(2500);
    assert_eq!(h.rtt_label(), "2ms");
    h.status = HostStatus::Up(12600);
    assert_eq!(h.rtt_label(), "13ms");
}
