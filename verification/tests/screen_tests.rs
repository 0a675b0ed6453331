use sshp::config::SshHost;
use sshp::selector::filter::HostMatch;
use sshp::ui::renderer::{calculate_visible_items, group_matches};
use sshp::ui::screen::{max_visible_lines, screen_commands, Color, Draw};

fn describe(d: &Draw) -> String {
    match d {
        Draw::ClearAll => "clear".to_string(),
        Draw::MoveTo(x, y) => format!("at {},{}", x, y),
        Draw::MoveToNextLine => "nl".to_string(),
        Draw::Foreground(c) => format!("fg {}", color(c)),
        Draw::Background(c) => format!("bg {}", color(c)),
        Draw::ResetColor => "reset".to_string(),
        Draw::Text(t) => format!("'{}'", t),
        Draw::Repeat(c, n) => format!("{}x{}", c, n),
        Draw::HostName(n) => format!("host {}", n),
    }
}

fn color(c: &Color) -> &'static str {
    match c {
        Color::Black => "black",
        Color::Red => "red",
        Color::Green => "green",
        Color::Yellow => "yellow",
        Color::Blue => "blue",
        Color::Cyan => "cyan",
        Color::White => "white",
        Color::DarkGrey => "grey",
    }
}

#[test]
fn screen_lists_hosts_upwards_above_the_search_bar() {
    let hosts = vec![
        SshHost { name: "db".to_string(), group: None },
        SshHost { name: "web".to_string(), group: Some("prod".to_string()) },
    ];
    let matches: Vec<HostMatch> = hosts.iter().map(|h| HostMatch { host: h, score: 0 }).collect();
    let grouped = group_matches(&matches, true);
    let visible = calculate_visible_items(&grouped, 0, max_visible_lines(10));
    let draws: Vec<String> = screen_commands(&visible, "w", 20, 10).iter().map(describe).collect();
    let expected: Vec<&str> = vec![
        "clear", "at 0,0", "fg cyan", "'SSH Host Selector'", "reset", "nl",
        "fg blue", "─x20", "reset", "nl",
        "at 0,2", " x20", "at 0,3", " x20", "at 0,4", " x20", "at 0,5", " x20", "at 0,6", " x20", "at 0,7", " x20",
        // bottom-up: db (Other), the Other header, web (selected), the prod header
        "at 0,7", "fg white", "'    '", "host db", "reset",
        "at 0,6", "fg cyan", "'Other'", "reset",
        "at 0,5", "bg blue", "fg white", "'  ▶ '", "host web", "reset",
        "at 0,4", "fg cyan", "'prod'", "reset",
        "at 0,8", "fg cyan", "'Search: '", "reset", "fg yellow", "'w'", "'_'", "reset",
        "at 0,9", "fg grey", "'Use '", "fg green", "'↑/↓'", "fg grey", "' to navigate, '", "fg green",
        "'type'", "fg grey", "' to search, '", "fg green", "'Enter'", "fg grey", "' to connect, '",
        "fg red", "'Esc/Ctrl+C'", "fg grey", "' to quit'", "reset",
    ];
    assert_eq!(draws, expected);
}

#[test]
fn empty_query_shows_a_placeholder() {
    let draws: Vec<String> = screen_commands(&[], "", 5, 2).iter().map(describe).collect();
    assert_eq!(
        &draws[10..16],
        &["at 0,0", "fg cyan", "'Search: '", "fg grey", "'___'", "reset"]
    );
}

#[test]
fn visible_line_count_leaves_room_for_the_frame() {
    assert_eq!(max_visible_lines(24), 18);
    assert_eq!(max_visible_lines(6), 0);
    assert_eq!(max_visible_lines(3), 0);
}

/// The help line, styling left out, reads as the README shows it.
#[test]
fn help_line_reads_as_documented() {
    let draws = screen_commands(&[], "", 10, 5);
    let texts: String = draws
        .iter()
        .skip_while(|d| !matches!(d, Draw::MoveTo(0, 4)))
        .filter_map(|d| match d {
            Draw::Text(t) => Some(t.to_string()),
            _ => None,
        })
        .collect();
    assert_eq!(texts, "Use ↑/↓ to navigate, type to search, Enter to connect, Esc/Ctrl+C to quit");
}

#[test]
fn tiny_terminals_are_laid_out_without_rows_to_spare() {
    let hosts = vec![SshHost { name: "db".to_string(), group: None }];
    let matches: Vec<HostMatch> = hosts.iter().map(|h| HostMatch { host: h, score: 0 }).collect();
    let grouped = group_matches(&matches, false);
    for height in 0..7u16 {
        let visible = calculate_visible_items(&grouped, 0, max_visible_lines(height));
        assert!(visible.is_empty());
        let draws: Vec<String> = screen_commands(&visible, "", 4, height).iter().map(describe).collect();
        let search_row = if height >= 2 { height - 2 } else { 0 };
        let help_row = if height >= 1 { height - 1 } else { 0 };
        assert!(draws.contains(&format!("at 0,{}", search_row)));
        assert!(draws.contains(&format!("at 0,{}", help_row)));
    }
}

#[test]
fn layout_marks_the_host_enter_picks() {
    let hosts = vec![
        SshHost { name: "web1".to_string(), group: Some("b".to_string()) },
        SshHost { name: "box".to_string(), group: Some("a".to_string()) },
    ];
    // ranked: web1 before box; listed: group a (box) above group b (web1)
    let matches = vec![HostMatch { host: &hosts[0], score: 9 }, HostMatch { host: &hosts[1], score: 1 }];
    let draws: Vec<String> = sshp::ui::screen::layout_screen(&matches, 0, "", true, 20, 12)
        .iter()
        .map(describe)
        .collect();
    let marker = draws.iter().position(|d| d == "'  ▶ '").unwrap();
    assert_eq!(draws[marker + 1], "host box");
    assert_eq!(draws.iter().filter(|d| d.as_str() == "'  ▶ '").count(), 1);
}
