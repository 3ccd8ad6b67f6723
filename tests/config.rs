use sshmap::config::{create_sample_config, parse_ssh_config, ssh_config_path, sshmap_config_path};
use sshmap::directory::{load_hosts, merge_hosts, sort_hosts};
use sshmap::host::{Host, HostStatus};

fn host(alias: &str, hostname: &str, group: &str) -> Host {
    Host {
        alias: alias.to_string(),
        hostname: hostname.to_string(),
        user: String::new(),
        port: 22,
        identity_file: None,
        group: group.to_string(),
        status: HostStatus::Unknown,
    }
}

fn aliases(hosts: &[Host]) -> Vec<&str> {
    hosts.iter().map(|h| h.alias.as_str()).collect()
}

#[test]
fn block_without_group_tag_gets_default_group() {
    let text = "Host db1\n    Hostname 10.0.0.5\n    User admin\n    Port 2222\n";
    let hosts = parse_ssh_config(text, "/home/me");
    assert_eq!(hosts.len(), 1);
    let h = &hosts[0];
    assert_eq!(h.alias, "db1");
    assert_eq!(h.hostname, "10.0.0.5");
    assert_eq!(h.user, "admin");
    assert_eq!(h.port, 2222);
    assert_eq!(h.group, "default");
    assert_eq!(h.identity_file, None);
    assert_eq!(h.status, HostStatus::Unknown);
}

#[test]
fn wildcard_blocks_yield_no_record() {
    let text = "Host *\n  User root\nHost web?\n  Hostname w\nHost a\nHost b\n  Hostname bee\n";
    let hosts = parse_ssh_config(text, "/h");
    assert_eq!(aliases(&hosts), vec!["a", "b"]);
    assert_eq!(hosts[0].hostname, "a");
    assert_eq!(hosts[1].hostname, "bee");
}

#[test]
fn keys_match_without_regard_to_case() {
    let text = "HOST x\nHOSTNAME 1.2.3.4\nuSeR bob\nPORT 23\n";
    let hosts = parse_ssh_config(text, "/h");
    assert_eq!(hosts.len(), 1);
    assert_eq!(hosts[0].hostname, "1.2.3.4");
    assert_eq!(hosts[0].user, "bob");
    assert_eq!(hosts[0].port, 23);
}

#[test]
fn unreadable_port_falls_back_to_default() {
    let text = "Host a\nPort abc\nHost b\nPort 70000\nHost c\nPort +80\nHost d\nPort -1\n";
    let hosts = parse_ssh_config(text, "/h");
    let ports: Vec<u16> = hosts.iter().map(|h| h.port).collect();
    assert_eq!(ports, vec![22, 22, 80, 22]);
}

#[test]
fn group_tags_apply_to_later_blocks() {
    let text = "Host a\n# group: production\nHost b\n#group:staging\nHost c\n# other comment\nHost d\n";
    let hosts = parse_ssh_config(text, "/h");
    let groups: Vec<&str> = hosts.iter().map(|h| h.group.as_str()).collect();
    assert_eq!(aliases(&hosts), vec!["a", "b", "c", "d"]);
    assert_eq!(groups, vec!["default", "production", "staging", "staging"]);
}

#[test]
fn identity_file_tilde_is_replaced_textually() {
    let text = "Host a\n  IdentityFile ~/.ssh/id_~x\n";
    let hosts = parse_ssh_config(text, "/home/me");
    assert_eq!(hosts[0].identity_file, Some("/home/me/.ssh/id_/home/mex".to_string()));
}

#[test]
fn windows_line_endings_and_blank_lines() {
    let text = "\r\n  Host   a  \r\n\tHostName   h1 \r\n\r\n";
    let hosts = parse_ssh_config(text, "/h");
    assert_eq!(aliases(&hosts), vec!["a"]);
    assert_eq!(hosts[0].hostname, "h1");
}

#[test]
fn empty_text_yields_nothing() {
    assert!(parse_ssh_config("", "/h").is_empty());
    assert!(parse_ssh_config("User nobody\nPort 1\n", "/h").is_empty());
}

#[test]
fn merge_keeps_primary_and_drops_duplicate_aliases() {
    let primary = vec![host("a", "p-a", "g"), host("b", "p-b", "g")];
    let extra = vec![host("b", "s-b", "g"), host("c", "s-c", "g"), host("c", "s-c2", "g")];
    let merged = merge_hosts(primary, extra);
    assert_eq!(aliases(&merged), vec!["a", "b", "c"]);
    assert_eq!(merged[1].hostname, "p-b");
    assert_eq!(merged[2].hostname, "s-c");
}

#[test]
fn sort_orders_by_group_then_alias_stably() {
    let v = vec![
        host("b", "1", "prod"),
        host("a", "2", "staging"),
        host("a", "3", "prod"),
        host("B", "4", "prod"),
        host("a", "5", "prod"),
    ];
    let s = sort_hosts(v);
    let hn: Vec<&str> = s.iter().map(|h| h.hostname.as_str()).collect();
    assert_eq!(hn, vec!["4", "3", "5", "1", "2"]);
}

#[test]
fn load_merges_then_sorts_and_reload_is_unchanged() {
    let primary = vec![host("z", "pz", "b"), host("y", "py", "a")];
    let extra = Some(vec![host("z", "sz", "a"), host("x", "sx", "b")]);
    let loaded = load_hosts(primary, extra);
    assert_eq!(aliases(&loaded), vec!["y", "x", "z"]);
    assert_eq!(loaded[2].hostname, "pz");
    let again = load_hosts(loaded.clone(), None);
    assert_eq!(aliases(&again), aliases(&loaded));
    let hn: Vec<&str> = again.iter().map(|h| h.hostname.as_str()).collect();
    assert_eq!(hn, vec!["py", "sx", "pz"]);
}

#[test]
fn load_without_any_source_is_empty() {
    assert!(load_hosts(Vec::new(), None).is_empty());
}

#[test]
fn sample_config_only_when_missing() {
    assert!(create_sample_config(true).is_none());
    let sample = create_sample_config(false).unwrap();
    assert_eq!(aliases(&sample), vec!["web-prod-1", "web-staging", "db-prod", "dev-box"]);
    assert_eq!(sample[2].port, 2222);
    assert_eq!(sample[3].group, "dev");
}

#[test]
fn config_paths_under_home() {
    assert_eq!(sshmap_config_path("/home/me"), "/home/me/.config/sshmap/hosts.json");
    assert_eq!(sshmap_config_path("/home/me/"), "/home/me/.config/sshmap/hosts.json");
    assert_eq!(ssh_config_path("/root"), "/root/.ssh/config");
}
