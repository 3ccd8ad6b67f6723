use sshmap::app::{group_tone, App, GroupTone};
use sshmap::host::{status_counts, Host, HostStatus};

fn host(alias: &str, hostname: &str, user: &str, group: &str) -> Host {
    Host {
        alias: alias.to_string(),
        hostname: hostname.to_string(),
        user: user.to_string(),
        port: 22,
        identity_file: None,
        group: group.to_string(),
        status: HostStatus::Unknown,
    }
}

fn sample() -> Vec<Host> {
    vec![
        host("web-prod-1", "192.168.1.10", "deploy", "production"),
        host("web-staging", "192.168.1.20", "deploy", "staging"),
    ]
}

fn with_filter(text: &str) -> App {
    let mut app = App::new();
    app.set_filter(text.to_string());
    app
}

#[test]
fn filter_prod_returns_only_the_production_host() {
    let hosts = sample();
    assert_eq!(with_filter("prod").filtered_indices(&hosts), vec![0]);
}

#[test]
fn filter_ignores_case_and_empty_matches_all() {
    let hosts = sample();
    assert_eq!(with_filter("").filtered_indices(&hosts), vec![0, 1]);
    assert_eq!(with_filter("STAGING").filtered_indices(&hosts), vec![1]);
    assert_eq!(with_filter("Deploy").filtered_indices(&hosts), vec![0, 1]);
    assert_eq!(with_filter(".1.20").filtered_indices(&hosts), vec![1]);
    assert!(with_filter("nothing").filtered_indices(&hosts).is_empty());
}

#[test]
fn longer_filter_never_lets_more_through() {
    let hosts = sample();
    let mut prev = with_filter("").filtered_indices(&hosts);
    for text in ["w", "we", "web", "web-", "web-s", "web-st"] {
        let now = with_filter(text).filtered_indices(&hosts);
        assert!(now.len() <= prev.len());
        assert!(now.iter().all(|i| prev.contains(i)));
        prev = now;
    }
    assert_eq!(prev, vec![1]);
}

#[test]
fn cursor_moves_are_clamped() {
    let hosts = sample();
    let mut app = App::new();
    app.select_up();
    assert_eq!(app.selected, 0);
    app.select_down(&hosts);
    assert_eq!(app.selected, 1);
    app.select_down(&hosts);
    assert_eq!(app.selected, 1);
    app.page_up(10);
    assert_eq!(app.selected, 0);
    app.page_down(&hosts, 10);
    assert_eq!(app.selected, 1);
    app.page_down(&hosts, usize::MAX);
    assert_eq!(app.selected, 1);
}

#[test]
fn cursor_stays_in_range_after_filtering() {
    let hosts = sample();
    let mut app = App::new();
    app.select_down(&hosts);
    app.set_filter("prod".to_string());
    assert_eq!(app.selected, 0);
    assert_eq!(app.scroll_offset, 0);
    app.select_down(&hosts);
    assert_eq!(app.selected, 0);
    assert_eq!(app.selected_host_index(&hosts), Some(0));
    app.set_filter("zzz".to_string());
    app.select_down(&hosts);
    app.page_down(&hosts, 5);
    assert_eq!(app.selected, 0);
    assert_eq!(app.selected_host_index(&hosts), None);
}

#[test]
fn connect_resolves_filtered_position() {
    let hosts = sample();
    let mut app = with_filter("staging");
    app.connect_selected(&hosts);
    assert_eq!(app.connect_index, Some(1));
    let mut none = with_filter("zzz");
    none.connect_selected(&hosts);
    assert_eq!(none.connect_index, None);
}

#[test]
fn groups_are_sorted_and_distinct() {
    let mut hosts = sample();
    hosts.push(host("x", "x", "", "dev"));
    hosts.push(host("y", "y", "", "production"));
    let app = App::new();
    assert_eq!(app.groups(&hosts), vec!["dev", "production", "staging"]);
}

#[test]
fn scroll_follows_cursor() {
    let mut app = App::new();
    app.selected = 12;
    app.adjust_scroll(5);
    assert_eq!(app.scroll_offset, 8);
    app.selected = 3;
    app.adjust_scroll(5);
    assert_eq!(app.scroll_offset, 3);
    app.adjust_scroll(5);
    assert_eq!(app.scroll_offset, 3);
}

#[test]
fn group_tones() {
    assert_eq!(group_tone("Production"), GroupTone::Production);
    assert_eq!(group_tone("STAGE"), GroupTone::Staging);
    assert_eq!(group_tone("dev"), GroupTone::Development);
    assert_eq!(group_tone("Testing"), GroupTone::Testing);
    assert_eq!(group_tone("lab"), GroupTone::Other);
}

#[test]
fn counts_of_up_and_down() {
    let mut hosts = sample();
    hosts[0].status = HostStatus::Up(1);
    hosts.push(host("z", "z", "", "g"));
    hosts[2].status = HostStatus::Down;
    assert_eq!(status_counts(&hosts), (1, 1));
}

#[test]
fn clamp_brings_stale_cursor_back() {
    let hosts = sample();
    let mut app = App::new();
    app.selected = 7;
    app.clamp_cursor(&hosts);
    assert_eq!(app.selected, 1);
    app.set_filter("zzz".to_string());
    app.selected = 4;
    app.clamp_cursor(&hosts);
    assert_eq!(app.selected, 0);
}
