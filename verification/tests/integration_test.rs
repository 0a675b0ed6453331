use sshp::config::parse_ssh_config_str;
use sshp::selector::filter::filter_and_rank_hosts;
use sshp::SshHost;

#[test]
fn test_full_workflow_parse_and_filter() {
    let config_content = r#"
Host production-web-01
    HostName 10.0.1.10
    User admin

Host production-db-01
    HostName 10.0.1.20
    User postgres

Host staging-web-01
    HostName 10.0.2.10
    User admin

Host development-local
    HostName localhost
    Port 2222

Host *
    User default
"#;
    let hosts = parse_ssh_config_str(config_content);

    assert_eq!(hosts.len(), 4);
    assert!(hosts.iter().any(|h| h.name == "production-web-01"));
    assert!(hosts.iter().any(|h| h.name == "production-db-01"));
    assert!(hosts.iter().any(|h| h.name == "staging-web-01"));
    assert!(hosts.iter().any(|h| h.name == "development-local"));

    let filtered = filter_and_rank_hosts(&hosts, "production");
    assert_eq!(filtered.len(), 2);

    let filtered_web = filter_and_rank_hosts(&hosts, "web");
    assert_eq!(filtered_web.len(), 2);

    let filtered_specific = filter_and_rank_hosts(&hosts, "staging-web");
    assert_eq!(filtered_specific.len(), 1);
    assert_eq!(filtered_specific[0].host.name, "staging-web-01");
}

#[test]
fn test_parse_handles_various_formats() {
    let config_content = r#"
# Comment at the start

Host simple
    HostName example.com

Host   with-extra-spaces
    HostName example.com

Host multiple-options
    HostName example.com
    User admin
    Port 2222
    IdentityFile ~/.ssh/id_rsa

# Inline comment
Host after-comment
    HostName example.com
"#;
    let hosts = parse_ssh_config_str(config_content);

    assert_eq!(hosts.len(), 4);
    assert!(hosts.iter().any(|h| h.name == "simple"));
    assert!(hosts.iter().any(|h| h.name == "with-extra-spaces"));
    assert!(hosts.iter().any(|h| h.name == "multiple-options"));
    assert!(hosts.iter().any(|h| h.name == "after-comment"));
}

#[test]
fn test_ssh_host_equality() {
    let host1 = SshHost {
        name: "server1".to_string(),
        group: None,
    };

    let host2 = SshHost {
        name: "server1".to_string(),
        group: None,
    };

    let host3 = SshHost {
        name: "server2".to_string(),
        group: None,
    };

    assert_eq!(host1, host2);
    assert_ne!(host1, host3);
}

#[test]
fn test_large_config_file() {
    let mut config_content = String::new();
    for i in 1..=50 {
        config_content.push_str(&format!(
            "Host server-{:03}\n    HostName 10.0.{}.{}\n    User admin\n\n",
            i,
            i / 255 + 1,
            i % 255 + 1
        ));
    }

    let hosts = parse_ssh_config_str(&config_content);

    assert_eq!(hosts.len(), 50);
    assert_eq!(hosts[0].name, "server-001");
    assert_eq!(hosts[49].name, "server-050");

    let filtered = filter_and_rank_hosts(&hosts, "server-0");
    assert_eq!(filtered.len(), 50);

    let filtered_specific = filter_and_rank_hosts(&hosts, "server-025");
    assert_eq!(filtered_specific.len(), 1);
    assert_eq!(filtered_specific[0].host.name, "server-025");
}

#[test]
fn test_group_functionality() {
    let config_content = r#"
# Regular comment - should be ignored

#group:production
Host prod-web-01
    HostName 10.0.1.10
    User admin

Host prod-db-01
    HostName 10.0.1.20
    User postgres

#group:staging
Host stage-web-01
    HostName 10.0.2.10
    User admin

Host stage-db-01
    HostName 10.0.2.20
    User postgres

# Personal servers (ungrouped - no #group: comment to reset)
# Note: dev-local will inherit staging group from above
# To have no group, it would need to appear before any #group: comment

#group:development
Host dev-local
    HostName localhost
    Port 2222
"#;
    let hosts = parse_ssh_config_str(config_content);

    assert_eq!(hosts.len(), 5);

    let prod_web = hosts.iter().find(|h| h.name == "prod-web-01").unwrap();
    assert_eq!(prod_web.group, Some("production".to_string()));

    let prod_db = hosts.iter().find(|h| h.name == "prod-db-01").unwrap();
    assert_eq!(prod_db.group, Some("production".to_string()));

    let stage_web = hosts.iter().find(|h| h.name == "stage-web-01").unwrap();
    assert_eq!(stage_web.group, Some("staging".to_string()));

    let stage_db = hosts.iter().find(|h| h.name == "stage-db-01").unwrap();
    assert_eq!(stage_db.group, Some("staging".to_string()));

    let dev_local = hosts.iter().find(|h| h.name == "dev-local").unwrap();
    assert_eq!(dev_local.group, Some("development".to_string()));

    let web_hosts = filter_and_rank_hosts(&hosts, "web");
    assert_eq!(web_hosts.len(), 2);
}

#[test]
fn test_fuzzy_matching() {
    let config_content = r#"
Host production-web-server
    HostName 10.0.1.10

Host production-database-server
    HostName 10.0.1.20

Host staging-web-server
    HostName 10.0.2.10
"#;
    let hosts = parse_ssh_config_str(config_content);

    let matches = filter_and_rank_hosts(&hosts, "pws");
    assert_eq!(matches.len(), 1);
    assert_eq!(matches[0].host.name, "production-web-server");

    let matches = filter_and_rank_hosts(&hosts, "pdbs");
    assert!(matches.len() >= 1);
    assert_eq!(matches[0].host.name, "production-database-server");

    let matches = filter_and_rank_hosts(&hosts, "prod");
    assert_eq!(matches.len(), 2);
    assert!(matches[0].host.name.starts_with("production"));
}

#[test]
fn test_alphabetical_sorting() {
    let config_content = r#"
Host zebra-server
    HostName 10.0.1.1

Host alpha-server
    HostName 10.0.1.2

Host beta-server
    HostName 10.0.1.3
"#;
    let hosts = parse_ssh_config_str(config_content);

    let matches = filter_and_rank_hosts(&hosts, "");
    assert_eq!(matches.len(), 3);
    assert_eq!(matches[0].host.name, "alpha-server");
    assert_eq!(matches[1].host.name, "beta-server");
    assert_eq!(matches[2].host.name, "zebra-server");
}
