use sshp::config::SshHost;
use sshp::selector::filter::HostMatch;
use sshp::ui::renderer::{calculate_visible_items, group_matches, GroupedHost, RenderItem};

fn line(item: &RenderItem) -> String {
    match item {
        RenderItem::GroupHeader(Some(g)) => format!("#{}", g),
        RenderItem::GroupHeader(None) => "#Other".to_string(),
        RenderItem::Host { match_item, is_selected } => {
            if *is_selected {
                format!(">{}", match_item.host.name)
            } else {
                match_item.host.name.clone()
            }
        }
    }
}

fn lines(items: &[RenderItem]) -> Vec<String> {
    items.iter().map(line).collect()
}

#[test]
fn test_group_matches_hides_other_header_when_no_groups() {
    let host1 = SshHost {
        name: "server1".to_string(),
        group: None,
    };
    let host2 = SshHost {
        name: "server2".to_string(),
        group: None,
    };

    let matches = vec![
        HostMatch {
            host: &host1,
            score: 100,
        },
        HostMatch {
            host: &host2,
            score: 100,
        },
    ];

    let grouped = group_matches(&matches, false);
    assert_eq!(grouped.len(), 1);
    assert!(!grouped[0].show_header);
    assert_eq!(grouped[0].hosts.len(), 2);
}

#[test]
fn test_group_matches_shows_other_header_when_groups_exist() {
    let host1 = SshHost {
        name: "prod-server".to_string(),
        group: Some("production".to_string()),
    };
    let host2 = SshHost {
        name: "ungrouped-server".to_string(),
        group: None,
    };

    let matches = vec![
        HostMatch {
            host: &host1,
            score: 100,
        },
        HostMatch {
            host: &host2,
            score: 100,
        },
    ];

    let grouped = group_matches(&matches, true);
    assert_eq!(grouped.len(), 2);

    assert_eq!(grouped[0].group_name, Some("production".to_string()));
    assert!(grouped[0].show_header);

    assert_eq!(grouped[1].group_name, None);
    assert!(grouped[1].show_header);
}

#[test]
fn test_group_matches_all_grouped_no_other_section() {
    let host1 = SshHost {
        name: "prod-server".to_string(),
        group: Some("production".to_string()),
    };
    let host2 = SshHost {
        name: "dev-server".to_string(),
        group: Some("development".to_string()),
    };

    let matches = vec![
        HostMatch {
            host: &host1,
            score: 100,
        },
        HostMatch {
            host: &host2,
            score: 100,
        },
    ];

    let grouped = group_matches(&matches, true);
    assert_eq!(grouped.len(), 2);

    assert!(grouped[0].group_name.is_some());
    assert!(grouped[1].group_name.is_some());
}

fn sample_hosts() -> Vec<SshHost> {
    vec![
        SshHost { name: "p1".to_string(), group: Some("prod".to_string()) },
        SshHost { name: "o1".to_string(), group: None },
        SshHost { name: "d1".to_string(), group: Some("dev".to_string()) },
        SshHost { name: "p2".to_string(), group: Some("prod".to_string()) },
        SshHost { name: "o2".to_string(), group: None },
    ]
}

#[test]
fn grouping_sorts_sections_and_keeps_match_order() {
    let hosts = sample_hosts();
    let matches: Vec<HostMatch> = hosts.iter().map(|h| HostMatch { host: h, score: 0 }).collect();
    let grouped = group_matches(&matches, true);
    let names: Vec<Option<String>> = grouped.iter().map(|g| g.group_name.clone()).collect();
    assert_eq!(names, vec![Some("dev".to_string()), Some("prod".to_string()), None]);
    let members: Vec<Vec<&str>> = grouped
        .iter()
        .map(|g| g.hosts.iter().map(|m| m.host.name.as_str()).collect())
        .collect();
    assert_eq!(members, vec![vec!["d1"], vec!["p1", "p2"], vec!["o1", "o2"]]);
    assert!(grouped.iter().all(|g| g.show_header));
}

#[test]
fn visible_items_run_bottom_up_with_headers_above_hosts() {
    let hosts = sample_hosts();
    let matches: Vec<HostMatch> = hosts.iter().map(|h| HostMatch { host: h, score: 0 }).collect();
    let grouped = group_matches(&matches, true);
    // section order: dev [d1], prod [p1, p2], Other [o1, o2]; host 2 is p2
    let items = calculate_visible_items(&grouped, 2, 100);
    assert_eq!(
        lines(&items),
        vec!["o2", "o1", "#Other", ">p2", "p1", "#prod", "d1", "#dev"]
    );
}

#[test]
fn visible_items_scroll_to_keep_selection() {
    let hosts: Vec<SshHost> = (0..10)
        .map(|i| SshHost { name: format!("h{}", i), group: None })
        .collect();
    let matches: Vec<HostMatch> = hosts.iter().map(|h| HostMatch { host: h, score: 0 }).collect();
    let grouped: Vec<GroupedHost> = group_matches(&matches, false);
    // bottom-up lines: h9 .. h0; host 0 is the 10th line from the bottom
    let items = calculate_visible_items(&grouped, 0, 3);
    assert_eq!(lines(&items), vec!["h2", "h1", ">h0"]);
    let items = calculate_visible_items(&grouped, 9, 3);
    assert_eq!(lines(&items), vec![">h9", "h8", "h7"]);
}

#[test]
fn visible_items_window_across_sections() {
    let hosts = vec![
        SshHost { name: "a1".to_string(), group: Some("a".to_string()) },
        SshHost { name: "b1".to_string(), group: Some("b".to_string()) },
        SshHost { name: "b2".to_string(), group: Some("b".to_string()) },
    ];
    let matches: Vec<HostMatch> = hosts.iter().map(|h| HostMatch { host: h, score: 0 }).collect();
    let grouped = group_matches(&matches, true);
    // bottom-up: b2, b1, #b, a1, #a; host 0 (a1) is line 3
    let items = calculate_visible_items(&grouped, 0, 3);
    // the window of three lines ends at the selected host
    assert_eq!(lines(&items), vec!["b1", "#b", ">a1"]);
    // host 1 (b1) is line 1, in the first screenful
    let items = calculate_visible_items(&grouped, 1, 2);
    assert_eq!(lines(&items), vec!["b2", ">b1"]);
}

#[test]
fn visible_items_keep_the_selected_host_in_view() {
    let hosts = vec![
        SshHost { name: "a1".to_string(), group: Some("a".to_string()) },
        SshHost { name: "a2".to_string(), group: Some("a".to_string()) },
        SshHost { name: "b1".to_string(), group: Some("b".to_string()) },
    ];
    let matches: Vec<HostMatch> = hosts.iter().map(|h| HostMatch { host: h, score: 0 }).collect();
    let grouped = group_matches(&matches, true);
    // bottom-up: b1, #b, a2, a1, #a; host 0 (a1) is line 3: the window of
    // two lines ends at it
    let items = calculate_visible_items(&grouped, 0, 2);
    assert_eq!(lines(&items), vec!["a2", ">a1"]);
    // a single line shows the selected host alone
    let items = calculate_visible_items(&grouped, 2, 1);
    assert_eq!(lines(&items), vec![">b1"]);
}

#[test]
fn visible_items_are_empty_without_room() {
    let hosts = vec![SshHost { name: "a1".to_string(), group: Some("a".to_string()) }];
    let matches: Vec<HostMatch> = hosts.iter().map(|h| HostMatch { host: h, score: 0 }).collect();
    let grouped = group_matches(&matches, true);
    let items = calculate_visible_items(&grouped, 0, 0);
    assert!(items.is_empty());
}

#[test]
fn grouping_with_and_without_other_header_agree() {
    let hosts = vec![
        SshHost { name: "x".to_string(), group: None },
        SshHost { name: "y".to_string(), group: Some("g".to_string()) },
    ];
    let matches: Vec<HostMatch> = hosts.iter().map(|h| HostMatch { host: h, score: 0 }).collect();
    let with = group_matches(&matches, true);
    let without = group_matches(&matches, false);
    assert_eq!(with.len(), without.len());
    for (a, b) in with.iter().zip(without.iter()) {
        assert_eq!(a.group_name, b.group_name);
        let an: Vec<&str> = a.hosts.iter().map(|m| m.host.name.as_str()).collect();
        let bn: Vec<&str> = b.hosts.iter().map(|m| m.host.name.as_str()).collect();
        assert_eq!(an, bn);
    }
    assert!(with[1].show_header);
    assert!(!without[1].show_header);
}
