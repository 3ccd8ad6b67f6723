use sshmap::app::{matches_folded, tone_of_folded, GroupTone};
use sshmap::config::{alias_has_wildcard, directive_of_folded, Directive};
use sshmap::host::{Host, HostStatus};
use sshmap::text::{chars_of, contains_text, parse_u16_range, same_chars, trim_range};

fn chars(s: &str) -> Vec<char> {
    s.chars().collect()
}

#[test]
fn directives_from_folded_keys() {
    assert_eq!(directive_of_folded(&chars("host")), Directive::Host);
    assert_eq!(directive_of_folded(&chars("hostname")), Directive::HostName);
    assert_eq!(directive_of_folded(&chars("user")), Directive::User);
    assert_eq!(directive_of_folded(&chars("port")), Directive::Port);
    assert_eq!(directive_of_folded(&chars("identityfile")), Directive::IdentityFile);
    assert_eq!(directive_of_folded(&chars("HOST")), Directive::Other);
    assert_eq!(directive_of_folded(&chars("proxyjump")), Directive::Other);
}

#[test]
fn folded_query_matching() {
    let h = Host {
        alias: "Web-Prod-1".to_string(),
        hostname: "10.0.0.1".to_string(),
        user: "deploy".to_string(),
        port: 22,
        identity_file: None,
        group: "production".to_string(),
        status: HostStatus::Unknown,
    };
    assert!(matches_folded(&h, &chars("web-prod")));
    assert!(matches_folded(&h, &chars("0.0.1")));
    assert!(matches_folded(&h, &chars("ploy")));
    assert!(!matches_folded(&h, &chars("staging")));
}

#[test]
fn tones_from_folded_labels() {
    assert_eq!(tone_of_folded(&chars("prod")), GroupTone::Production);
    assert_eq!(tone_of_folded(&chars("development")), GroupTone::Development);
    assert_eq!(tone_of_folded(&chars("Prod")), GroupTone::Other);
}

#[test]
fn wildcard_aliases() {
    assert!(alias_has_wildcard("web-*"));
    assert!(alias_has_wildcard("db?"));
    assert!(!alias_has_wildcard("db1"));
}

#[test]
fn substring_search() {
    assert!(contains_text(&chars("production"), &chars("prod")));
    assert!(contains_text(&chars("abc"), &chars("")));
    assert!(!contains_text(&chars("ab"), &chars("abc")));
    assert!(!contains_text(&chars("staging"), &chars("prod")));
    assert!(same_chars(&chars_of("héllo"), &chars("héllo")));
}

#[test]
fn port_numbers_and_trimming() {
    let v = chars(" 65535 |65536|+7|");
    assert_eq!(trim_range(&v, 0, 7), (1, 6));
    assert_eq!(parse_u16_range(&v, 1, 6), Some(65535));
    assert_eq!(parse_u16_range(&v, 8, 13), None);
    assert_eq!(parse_u16_range(&v, 14, 16), Some(7));
    assert_eq!(parse_u16_range(&v, 14, 15), None);
    assert_eq!(parse_u16_range(&v, 0, 0), None);
}
