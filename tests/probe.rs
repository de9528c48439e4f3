use github_hosts::meta::Ip;
use github_hosts::probe::{
    endpoint, probe_targets, select_fastest, ProbeResult, Resolved, PROBE_PORT, PROBE_TIMEOUT_MS,
};

fn result(ms: u64, addr: &str) -> ProbeResult {
    ProbeResult { elapsed_ms: ms, address: addr.to_string() }
}

fn winner_of(results: &Vec<ProbeResult>) -> Option<String> {
    select_fastest(results).map(|ip| ip.0)
}

#[test]
fn endpoint_adds_port() {
    assert_eq!(endpoint(&Ip("1.2.3.4".to_string())), "1.2.3.4:443");
    assert_eq!(PROBE_PORT, 443);
    assert_eq!(PROBE_TIMEOUT_MS, 100);
}

#[test]
fn empty_candidates_give_no_winner() {
    let targets = probe_targets(&Vec::new());
    assert!(targets.is_empty());
    assert_eq!(winner_of(&Vec::new()), None);
}

#[test]
fn only_non_ipv4_gives_no_winner() {
    let resolved = vec![Resolved::Other, Resolved::Other];
    let targets = probe_targets(&resolved);
    assert!(targets.is_empty());
    let results: Vec<ProbeResult> = targets.iter().map(|t| result(5, &t.0)).collect();
    assert_eq!(winner_of(&results), None);
}

#[test]
fn one_ipv4_candidate_gives_a_winner() {
    let resolved = vec![Resolved::Other, Resolved::Ipv4("5.6.7.8".to_string()), Resolved::Other];
    let targets = probe_targets(&resolved);
    let addrs: Vec<String> = targets.iter().map(|t| t.0.clone()).collect();
    assert_eq!(addrs, vec!["5.6.7.8"]);
    let results: Vec<ProbeResult> = targets.iter().map(|t| result(100, &t.0)).collect();
    assert_eq!(winner_of(&results), Some("5.6.7.8".to_string()));
}

#[test]
fn mixed_candidates_keep_ipv4_in_order() {
    let resolved = vec![
        Resolved::Ipv4("1.2.3.4".to_string()),
        Resolved::Ipv4("5.6.7.8".to_string()),
        Resolved::Other,
    ];
    let addrs: Vec<String> = probe_targets(&resolved).into_iter().map(|t| t.0).collect();
    assert_eq!(addrs, vec!["1.2.3.4", "5.6.7.8"]);
}

#[test]
fn fastest_result_wins() {
    let results = vec![result(40, "1.1.1.1"), result(7, "2.2.2.2"), result(90, "3.3.3.3")];
    assert_eq!(winner_of(&results), Some("2.2.2.2".to_string()));
}

#[test]
fn tie_goes_to_first_in_order() {
    let results = vec![result(30, "1.1.1.1"), result(12, "2.2.2.2"), result(12, "3.3.3.3")];
    assert_eq!(winner_of(&results), Some("2.2.2.2".to_string()));
}

#[test]
fn fast_failure_can_win() {
    // a refused connection that failed after 1 ms beats a slow success
    let results = vec![result(80, "1.1.1.1"), result(1, "9.9.9.9")];
    assert_eq!(winner_of(&results), Some("9.9.9.9".to_string()));
}

#[test]
fn largest_elapsed_values() {
    let results = vec![result(u64::MAX, "1.1.1.1"), result(u64::MAX - 1, "2.2.2.2")];
    assert_eq!(winner_of(&results), Some("2.2.2.2".to_string()));
    let single = vec![result(u64::MAX, "1.1.1.1")];
    assert_eq!(winner_of(&single), Some("1.1.1.1".to_string()));
}
