use sshp::config::{config_home, parse_ssh_config_str, SshHost};

#[test]
fn test_parse_ssh_config_with_valid_hosts() {
    let config_content = r#"
Host server1
    HostName 192.168.1.1
    User admin

Host server2
    HostName example.com
    Port 2222

Host server3
    HostName test.local
"#;
    let hosts = parse_ssh_config_str(config_content);

    assert_eq!(hosts.len(), 3);
    assert_eq!(hosts[0].name, "server1");
    assert_eq!(hosts[0].group, None);
    assert_eq!(hosts[1].name, "server2");
    assert_eq!(hosts[1].group, None);
    assert_eq!(hosts[2].name, "server3");
    assert_eq!(hosts[2].group, None);
}

#[test]
fn test_parse_ssh_config_excludes_wildcards() {
    let config_content = r#"
Host server1
    HostName 192.168.1.1

Host *
    User default

Host *.example.com
    Port 22

Host server2
    HostName example.com
"#;
    let hosts = parse_ssh_config_str(config_content);

    assert_eq!(hosts.len(), 2);
    assert_eq!(hosts[0].name, "server1");
    assert_eq!(hosts[0].group, None);
    assert_eq!(hosts[1].name, "server2");
    assert_eq!(hosts[1].group, None);
}

#[test]
fn test_parse_ssh_config_empty_file() {
    let hosts = parse_ssh_config_str("");
    assert_eq!(hosts.len(), 0);
}

#[test]
fn test_parse_ssh_config_only_comments() {
    let config_content = r#"
# This is a comment
# Another comment
    # Indented comment
"#;
    let hosts = parse_ssh_config_str(config_content);
    assert_eq!(hosts.len(), 0);
}

#[test]
fn test_ssh_host_struct() {
    let host = SshHost {
        name: "test-server".to_string(),
        group: None,
    };

    assert_eq!(host.name, "test-server");
    assert_eq!(host.group, None);
}

#[test]
fn test_ssh_host_clone() {
    let host1 = SshHost {
        name: "server1".to_string(),
        group: Some("production".to_string()),
    };

    let host2 = host1.clone();

    assert_eq!(host1, host2);
}

#[test]
fn test_group_comment_applies_to_subsequent_hosts() {
    let config_content = r#"
# This is a regular comment - should be ignored

#group:production
Host prod-web
    HostName 10.0.1.10

Host prod-db
    HostName 10.0.1.20

#group:staging
Host stage-web
    HostName 10.0.2.10
"#;
    let hosts = parse_ssh_config_str(config_content);

    assert_eq!(hosts.len(), 3);

    assert_eq!(hosts[0].name, "prod-web");
    assert_eq!(hosts[0].group, Some("production".to_string()));

    assert_eq!(hosts[1].name, "prod-db");
    assert_eq!(hosts[1].group, Some("production".to_string()));

    assert_eq!(hosts[2].name, "stage-web");
    assert_eq!(hosts[2].group, Some("staging".to_string()));
}

#[test]
fn test_regular_comments_are_ignored() {
    let config_content = r#"
# This is a regular comment
## This is also a regular comment
# TODO: fix this server

Host server1
    HostName 10.0.1.1

#group:production
# Another regular comment
Host server2
    HostName 10.0.1.2
"#;
    let hosts = parse_ssh_config_str(config_content);

    assert_eq!(hosts.len(), 2);
    assert_eq!(hosts[0].name, "server1");
    assert_eq!(hosts[0].group, None);
    assert_eq!(hosts[1].name, "server2");
    assert_eq!(hosts[1].group, Some("production".to_string()));
}

#[test]
fn test_hosts_before_group_comment_have_no_group() {
    let config_content = r#"
Host ungrouped-server
    HostName 192.168.1.1

#group:production
Host grouped-server
    HostName 10.0.1.1
"#;
    let hosts = parse_ssh_config_str(config_content);

    assert_eq!(hosts.len(), 2);
    assert_eq!(hosts[0].name, "ungrouped-server");
    assert_eq!(hosts[0].group, None);
    assert_eq!(hosts[1].name, "grouped-server");
    assert_eq!(hosts[1].group, Some("production".to_string()));
}

#[test]
fn test_empty_group_comment_is_ignored() {
    let config_content = "\n#group:\nHost server1\n    HostName 10.0.1.1\n";
    let hosts = parse_ssh_config_str(config_content);

    assert_eq!(hosts.len(), 1);
    assert_eq!(hosts[0].name, "server1");
    assert_eq!(hosts[0].group, None);
}

#[test]
fn test_group_whitespace_handling() {
    let config_content = "\n#group:  production\nHost server1\n    HostName 10.0.1.1\n";
    let hosts = parse_ssh_config_str(config_content);

    assert_eq!(hosts.len(), 1);
    assert_eq!(hosts[0].name, "server1");
    assert_eq!(hosts[0].group, Some("production".to_string()));
}

#[test]
fn test_group_case_normalization() {
    let config_content = r#"
#group:PRODUCTION
Host server1
    HostName 10.0.1.1

#group:StAgInG
Host server2
    HostName 10.0.2.1
"#;
    let hosts = parse_ssh_config_str(config_content);

    assert_eq!(hosts.len(), 2);
    assert_eq!(hosts[0].group, Some("production".to_string()));
    assert_eq!(hosts[1].group, Some("staging".to_string()));
}

#[test]
fn crlf_line_endings_and_tabs_are_trimmed() {
    let hosts = parse_ssh_config_str("Host alpha\r\n\t#group:\tOps \r\n\tHost   beta\t\r\nHost gamma");
    assert_eq!(hosts.len(), 3);
    assert_eq!(hosts[0], SshHost { name: "alpha".to_string(), group: None });
    assert_eq!(hosts[1], SshHost { name: "beta".to_string(), group: Some("ops".to_string()) });
    assert_eq!(hosts[2], SshHost { name: "gamma".to_string(), group: Some("ops".to_string()) });
}

#[test]
fn host_lines_need_a_name_and_the_exact_keyword() {
    let hosts = parse_ssh_config_str("Host \nHost    \nhost lower\nHostName x\nHost\ttabbed\n  Host spaced-out  \n");
    assert_eq!(hosts.len(), 1);
    assert_eq!(hosts[0].name, "spaced-out");
}

#[test]
fn wildcard_anywhere_on_the_line_excludes_it() {
    let hosts = parse_ssh_config_str("Host web-? db*\nHost a b\nHost *\n");
    assert_eq!(hosts.len(), 1);
    assert_eq!(hosts[0].name, "a b");
}

#[test]
fn commented_host_line_is_ignored() {
    let hosts = parse_ssh_config_str("# Host hidden\n#Host hidden2\nHost shown\n");
    assert_eq!(hosts.len(), 1);
    assert_eq!(hosts[0].name, "shown");
}

#[test]
fn non_ascii_group_names_are_lowercased() {
    let hosts = parse_ssh_config_str("#group:ÉQUIPE\nHost box\n");
    assert_eq!(hosts[0].group, Some("équipe".to_string()));
}

#[test]
fn config_home_prefers_home() {
    let r = config_home(Some("/home/u".to_string()), Some("C:\\Users\\u".to_string()));
    assert_eq!(r, Ok("/home/u".to_string()));
    let r = config_home(None, Some("C:\\Users\\u".to_string()));
    assert_eq!(r, Ok("C:\\Users\\u".to_string()));
    let r = config_home(None, None);
    assert_eq!(r, Err("Neither HOME nor USERPROFILE environment variable is set".to_string()));
}
