use github_hosts::meta::{get_github_ips, Ip, Meta};

fn strs(v: &[&str]) -> Vec<String> {
    v.iter().map(|s| s.to_string()).collect()
}

#[test]
fn from_entry_strips_mask() {
    let ip = Ip::from_entry(&"140.82.112.0/20".to_string());
    assert_eq!(ip.0, "140.82.112.0");
}

#[test]
fn from_entry_keeps_plain_address() {
    let ip = Ip::from_entry(&"1.2.3.4".to_string());
    assert_eq!(ip.0, "1.2.3.4");
}

#[test]
fn from_entry_keeps_ipv6_before_mask() {
    let ip = Ip::from_entry(&"2a0a:a440::/29".to_string());
    assert_eq!(ip.0, "2a0a:a440::");
}

#[test]
fn from_entry_of_empty_and_bare_mask() {
    assert_eq!(Ip::from_entry(&String::new()).0, "");
    assert_eq!(Ip::from_entry(&"/24".to_string()).0, "");
}

#[test]
fn from_trait_matches_from_entry() {
    let s = "5.6.7.8/32".to_string();
    let ip: Ip = Ip::from(&s);
    assert_eq!(ip.0, "5.6.7.8");
}

#[test]
fn candidates_are_normalized() {
    let raw = strs(&["1.2.3.4", "5.6.7.8/32", "not-an-ip"]);
    let ips: Vec<String> = raw.iter().map(|s| Ip::from(s).0).collect();
    assert_eq!(ips, vec!["1.2.3.4", "5.6.7.8", "not-an-ip"]);
}

#[test]
fn github_ips_in_git_api_web_order() {
    let meta = Meta::from_groups(
        strs(&["192.30.252.0/22", "185.199.108.0/22"]),
        strs(&["140.82.112.0/20"]),
        strs(&["143.55.64.0/20", "2a0a:a440::/29"]),
    );
    let ips: Vec<String> = get_github_ips(&meta).into_iter().map(|ip| ip.0).collect();
    assert_eq!(
        ips,
        vec!["143.55.64.0", "2a0a:a440::", "140.82.112.0", "192.30.252.0", "185.199.108.0"]
    );
}

#[test]
fn github_ips_of_empty_groups() {
    let meta = Meta::from_groups(Vec::new(), Vec::new(), Vec::new());
    assert!(get_github_ips(&meta).is_empty());
    assert!(meta.web.is_empty());
}
