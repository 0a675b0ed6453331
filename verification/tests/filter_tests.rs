use sshp::config::SshHost;
use sshp::selector::filter::{filter_and_rank_hosts, rank_matches, try_filter_and_rank_hosts};

fn host(name: &str) -> SshHost {
    SshHost {
        name: name.to_string(),
        group: None,
    }
}

#[test]
fn test_empty_query_returns_alphabetical() {
    let hosts = vec![host("zebra"), host("Apple"), host("banana"), host("cherry")];

    let matches = filter_and_rank_hosts(&hosts, "");

    assert_eq!(matches.len(), 4);
    assert_eq!(matches[0].host.name, "Apple");
    assert_eq!(matches[1].host.name, "banana");
    assert_eq!(matches[2].host.name, "cherry");
    assert_eq!(matches[3].host.name, "zebra");
}

#[test]
fn test_prefix_matches_rank_higher() {
    let hosts = vec![host("production"), host("my-prod-server")];

    let matches = filter_and_rank_hosts(&hosts, "prod");

    assert_eq!(matches.len(), 2);
    assert_eq!(matches[0].host.name, "production");
    assert!(matches[0].score > matches[1].score);
}

#[test]
fn test_fuzzy_matching_works() {
    let hosts = vec![host("production-web-server"), host("dev-server"), host("staging-server")];

    let matches = filter_and_rank_hosts(&hosts, "pws");

    assert_eq!(matches.len(), 1);
    assert_eq!(matches[0].host.name, "production-web-server");
}

#[test]
fn test_case_insensitive_fuzzy_matching() {
    let hosts = vec![host("Production-Server"), host("dev-server")];

    let matches_lower = filter_and_rank_hosts(&hosts, "prod");
    let matches_upper = filter_and_rank_hosts(&hosts, "PROD");

    assert_eq!(matches_lower.len(), 1);
    assert_eq!(matches_upper.len(), 1);
    assert_eq!(matches_lower[0].host.name, "Production-Server");
    assert_eq!(matches_upper[0].host.name, "Production-Server");
}

#[test]
fn test_no_match_returns_empty() {
    let hosts = vec![host("server1"), host("server2")];

    let matches = filter_and_rank_hosts(&hosts, "nonexistent");

    assert_eq!(matches.len(), 0);
}

#[test]
fn test_alphabetical_tiebreaker() {
    let hosts = vec![host("zebra-prod"), host("alpha-prod"), host("beta-prod")];

    let matches = filter_and_rank_hosts(&hosts, "prod");

    assert_eq!(matches.len(), 3);
    let names: Vec<_> = matches.iter().map(|m| m.host.name.as_str()).collect();
    let mut sorted_names = names.clone();
    sorted_names.sort_by(|a, b| a.to_lowercase().cmp(&b.to_lowercase()));

    assert!(names.contains(&"alpha-prod"));
    assert!(names.contains(&"beta-prod"));
    assert!(names.contains(&"zebra-prod"));
}

#[test]
fn test_exact_match_scores_highest() {
    let hosts = vec![host("prod"), host("production"), host("my-prod-server")];

    let matches = filter_and_rank_hosts(&hosts, "prod");

    assert_eq!(matches.len(), 3);
    assert_eq!(matches[0].host.name, "prod");
}

#[test]
fn test_empty_host_list() {
    let hosts: Vec<SshHost> = vec![];

    let matches = filter_and_rank_hosts(&hosts, "anything");

    assert_eq!(matches.len(), 0);
}

#[test]
fn test_special_characters_in_query() {
    let hosts = vec![host("my-server.example.com"), host("my_server_2"), host("server@host")];

    let matches = filter_and_rank_hosts(&hosts, "my-server");
    assert_eq!(matches.len(), 1);
    assert_eq!(matches[0].host.name, "my-server.example.com");

    let matches_underscore = filter_and_rank_hosts(&hosts, "my_server");
    assert_eq!(matches_underscore.len(), 1);
    assert_eq!(matches_underscore[0].host.name, "my_server_2");
}

#[test]
fn rank_orders_by_score_then_lowercase_name() {
    let hosts = vec![host("b"), host("A"), host("c"), host("D"), host("e")];
    let scores = vec![Some(5), Some(5), None, Some(9), Some(1)];
    let ranked = rank_matches(&hosts, &scores);
    let names: Vec<&str> = ranked.iter().map(|m| m.host.name.as_str()).collect();
    assert_eq!(names, vec!["D", "A", "b", "e"]);
    let got: Vec<u16> = ranked.iter().map(|m| m.score).collect();
    assert_eq!(got, vec![9, 5, 5, 1]);
}

#[test]
fn rank_is_stable_for_ties() {
    let hosts = vec![
        SshHost { name: "Web".to_string(), group: Some("b".to_string()) },
        SshHost { name: "web".to_string(), group: Some("a".to_string()) },
        SshHost { name: "WEB".to_string(), group: None },
    ];
    let scores = vec![Some(3), Some(3), Some(3)];
    let ranked = rank_matches(&hosts, &scores);
    let names: Vec<&str> = ranked.iter().map(|m| m.host.name.as_str()).collect();
    assert_eq!(names, vec!["Web", "web", "WEB"]);
}

#[test]
fn empty_query_lists_every_host_with_score_zero() {
    let hosts = vec![host("b"), host("a"), host("b")];
    let matches = filter_and_rank_hosts(&hosts, "");
    assert_eq!(matches.len(), 3);
    assert!(matches.iter().all(|m| m.score == 0));
    let names: Vec<&str> = matches.iter().map(|m| m.host.name.as_str()).collect();
    assert_eq!(names, vec!["a", "b", "b"]);
}

#[test]
fn try_filter_agrees_for_ordinary_names() {
    let hosts = vec![host("alpha"), host("beta")];
    let a = try_filter_and_rank_hosts(&hosts, "a").unwrap();
    let b = filter_and_rank_hosts(&hosts, "a");
    assert_eq!(a.len(), b.len());
    for (x, y) in a.iter().zip(b.iter()) {
        assert_eq!(x.host.name, y.host.name);
        assert_eq!(x.score, y.score);
    }
}

#[test]
fn ranked_results_are_sorted_by_score() {
    let hosts = vec![host("prod-db"), host("production"), host("x-prod"), host("p-r-o-d"), host("none")];
    let matches = filter_and_rank_hosts(&hosts, "prod");
    for w in matches.windows(2) {
        assert!(w[0].score > w[1].score
            || (w[0].score == w[1].score && w[0].host.name.to_lowercase() <= w[1].host.name.to_lowercase()));
    }
    assert!(matches.iter().all(|m| m.host.name != "none"));
}

#[test]
fn ascii_query_case_does_not_change_the_ranking() {
    let hosts = vec![host("Web-Prod"), host("db-prod"), host("PROXY"), host("stage")];
    let query = "pRo";
    let as_is = filter_and_rank_hosts(&hosts, query);
    let upper = filter_and_rank_hosts(&hosts, &query.to_uppercase());
    let lower = filter_and_rank_hosts(&hosts, &query.to_lowercase());
    let view = |ms: &[sshp::selector::HostMatch]| -> Vec<(String, u16)> {
        ms.iter().map(|m| (m.host.name.clone(), m.score)).collect()
    };
    assert!(!as_is.is_empty());
    assert_eq!(view(&upper), view(&as_is));
    assert_eq!(view(&lower), view(&as_is));
}
