use github_hosts::hosts::{get_hosts_path, managed_hosts, rewrite_hosts, MARKER};

fn apply(content: &str, ip: &str) -> String {
    rewrite_hosts(content, ip, &managed_hosts())
}

fn block(ip: &str) -> String {
    format!(
        "\n{}\n{} github.com\n{} assets-cdn.github.com\n{} github.global.ssl.fastly.net\n",
        MARKER, ip, ip, ip
    )
}

#[test]
fn managed_hosts_are_fixed() {
    assert_eq!(
        managed_hosts(),
        vec!["github.com", "assets-cdn.github.com", "github.global.ssl.fastly.net"]
    );
    assert_eq!(MARKER, "# GitHub Fastest IP (Auto Updated)");
}

#[test]
fn rewrite_replaces_old_entry() {
    let out = apply("127.0.0.1 localhost\n1.1.1.1 github.com\n", "9.9.9.9");
    assert_eq!(
        out,
        "127.0.0.1 localhost\n\n# GitHub Fastest IP (Auto Updated)\n9.9.9.9 github.com\n9.9.9.9 assets-cdn.github.com\n9.9.9.9 github.global.ssl.fastly.net\n"
    );
}

#[test]
fn rewrite_twice_is_unchanged() {
    let once = apply("127.0.0.1 localhost\n# note\n8.8.8.8 github.com\n", "9.9.9.9");
    let twice = apply(&once, "9.9.9.9");
    assert_eq!(once, twice);
}

#[test]
fn second_winner_replaces_first() {
    let old_text = "127.0.0.1 localhost\n::1 localhost\n";
    let after_a = apply(old_text, "1.2.3.4");
    let after_b = apply(&after_a, "5.6.7.8");
    assert_eq!(after_b, apply(old_text, "5.6.7.8"));
    assert!(!after_b.contains("1.2.3.4"));
    assert_eq!(after_b.matches(MARKER).count(), 1);
}

#[test]
fn unmanaged_lines_keep_order() {
    let old_text = "a.example 1\n2.2.2.2 github.com\nb.example 2\n3.3.3.3 github.global.ssl.fastly.net\nc.example 3";
    let out = apply(old_text, "7.7.7.7");
    assert_eq!(out, format!("a.example 1\nb.example 2\nc.example 3\n{}", block("7.7.7.7")));
}

#[test]
fn blank_lines_are_dropped() {
    let out = apply("\n  \n127.0.0.1 localhost\n\t\n", "7.7.7.7");
    assert_eq!(out, format!("127.0.0.1 localhost\n{}", block("7.7.7.7")));
}

#[test]
fn crlf_lines_are_kept_verbatim() {
    let out = apply("127.0.0.1 localhost\r\n10.0.0.1 github.com\r\n", "7.7.7.7");
    assert_eq!(out, format!("127.0.0.1 localhost\r\n{}", block("7.7.7.7")));
    assert_eq!(apply(&out, "7.7.7.7"), out);
}

#[test]
fn trailing_carriage_return_is_stable() {
    let once = apply("a\r", "7.7.7.7");
    assert_eq!(once, format!("a\r\n{}", block("7.7.7.7")));
    assert_eq!(apply(&once, "7.7.7.7"), once);
    let doubled = apply("b\r\r\n", "7.7.7.7");
    assert_eq!(doubled, format!("b\r\r\n{}", block("7.7.7.7")));
    assert_eq!(apply(&doubled, "7.7.7.7"), doubled);
}

#[test]
fn line_that_mentions_marker_is_kept() {
    let old_text = "x # GitHub Fastest IP (Auto Updated)\n10.0.0.1 example.net # GitHub Fastest IP (Auto Updated)\n";
    let out = apply(old_text, "7.7.7.7");
    assert_eq!(out, format!("{}{}", old_text, block("7.7.7.7")));
    assert_eq!(apply(&out, "7.7.7.7"), out);
}

#[test]
fn indented_marker_line_is_replaced() {
    let out = apply("keep\n  # GitHub Fastest IP (Auto Updated)\t\n", "7.7.7.7");
    assert_eq!(out, format!("keep\n{}", block("7.7.7.7")));
    assert_eq!(out.matches(MARKER).count(), 1);
}

#[test]
fn empty_file_gets_only_block() {
    assert_eq!(apply("", "7.7.7.7"), block("7.7.7.7"));
}

#[test]
fn alias_lines_are_managed() {
    let out = apply("1.1.1.1 assets-cdn.github.com\nkeep me\n", "7.7.7.7");
    assert_eq!(out, format!("keep me\n{}", block("7.7.7.7")));
}

#[test]
fn other_host_lists_are_used() {
    let hosts = vec!["example.org".to_string()];
    let out = rewrite_hosts("1.1.1.1 example.org\n2.2.2.2 github.com\n", "3.3.3.3", &hosts);
    assert_eq!(
        out,
        "2.2.2.2 github.com\n\n# GitHub Fastest IP (Auto Updated)\n3.3.3.3 example.org\n"
    );
}

#[test]
fn hosts_path_by_platform() {
    assert_eq!(get_hosts_path(false), "/etc/hosts");
    assert_eq!(get_hosts_path(true), "C:\\Windows\\System32\\drivers\\etc\\hosts");
}
