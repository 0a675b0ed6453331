use sshp::config::SshHost;
use sshp::selector::runner::{has_any_groups, Action, Key, Selector};
use sshp::ui::renderer::{calculate_visible_items, group_matches, RenderItem};

fn hosts() -> Vec<SshHost> {
    vec![
        SshHost { name: "web-1".to_string(), group: None },
        SshHost { name: "db-1".to_string(), group: None },
        SshHost { name: "web-2".to_string(), group: Some("prod".to_string()) },
    ]
}

fn quit_name(a: Action) -> Option<Option<String>> {
    match a {
        Action::Quit(n) => Some(n),
        Action::Redraw => None,
    }
}

#[test]
fn enter_picks_the_selected_host_as_listed() {
    let hs = hosts();
    let mut s = Selector::new(&hs).unwrap();
    assert_eq!(s.query(), "");
    assert_eq!(s.selected(), 0);
    // empty query ranks db-1, web-1, web-2; the list shows group prod
    // (web-2) first, then the others: db-1, web-1
    assert!(quit_name(s.handle_key(Key::Down)).is_none());
    assert_eq!(s.selected(), 1);
    assert_eq!(quit_name(s.handle_key(Key::Enter)), Some(Some("db-1".to_string())));
}

#[test]
fn enter_picks_the_marked_host() {
    let hs = vec![
        SshHost { name: "web1".to_string(), group: Some("b".to_string()) },
        SshHost { name: "box".to_string(), group: Some("a".to_string()) },
    ];
    let mut s = Selector::new(&hs).unwrap();
    s.handle_key(Key::Char { c: 'b', ctrl: false });
    let matches = s.matches();
    let grouped = group_matches(&matches, true);
    let items = calculate_visible_items(&grouped, s.selected(), 10);
    let marked: Vec<&str> = items
        .iter()
        .filter_map(|it| match it {
            RenderItem::Host { match_item, is_selected: true } => Some(match_item.host.name.as_str()),
            _ => None,
        })
        .collect();
    assert_eq!(marked.len(), 1);
    let marked_name = marked[0].to_string();
    assert_eq!(quit_name(s.handle_key(Key::Enter)), Some(Some(marked_name)));
}

#[test]
fn up_at_the_top_and_down_at_the_bottom_change_nothing() {
    let hs = hosts();
    let mut s = Selector::new(&hs).unwrap();
    s.handle_key(Key::Up);
    assert_eq!(s.selected(), 0);
    s.handle_key(Key::Down);
    s.handle_key(Key::Down);
    s.handle_key(Key::Down);
    s.handle_key(Key::Down);
    assert_eq!(s.selected(), 2);
}

#[test]
fn typing_filters_and_resets_selection() {
    let hs = hosts();
    let mut s = Selector::new(&hs).unwrap();
    s.handle_key(Key::Down);
    s.handle_key(Key::Down);
    s.handle_key(Key::Down);
    assert_eq!(s.selected(), 2);
    s.handle_key(Key::Char { c: 'w', ctrl: false });
    assert_eq!(s.query(), "w");
    assert_eq!(s.selected(), 0);
    assert_eq!(s.matches().len(), 2);
    s.handle_key(Key::Up);
    assert_eq!(s.selected(), 0);
}

#[test]
fn backspace_keeps_selection_in_range() {
    let hs = hosts();
    let mut s = Selector::new(&hs).unwrap();
    s.handle_key(Key::Char { c: 'w', ctrl: false });
    s.handle_key(Key::Down);
    assert_eq!(s.selected(), 1);
    s.handle_key(Key::Char { c: 'z', ctrl: false });
    assert_eq!(s.matches().len(), 0);
    assert!(quit_name(s.handle_key(Key::Enter)).is_none());
    s.handle_key(Key::Backspace);
    assert_eq!(s.query(), "w");
    assert_eq!(s.selected(), 0);
    s.handle_key(Key::Backspace);
    s.handle_key(Key::Backspace);
    assert_eq!(s.query(), "");
}

#[test]
fn escape_and_ctrl_c_cancel() {
    let hs = hosts();
    let mut s = Selector::new(&hs).unwrap();
    assert_eq!(quit_name(s.handle_key(Key::Esc)), Some(None));
    assert_eq!(quit_name(s.handle_key(Key::Char { c: 'c', ctrl: true })), Some(None));
    assert!(quit_name(s.handle_key(Key::Char { c: 'x', ctrl: true })).is_none());
    assert_eq!(s.query(), "x");
    assert!(quit_name(s.handle_key(Key::Other)).is_none());
}

#[test]
fn groups_are_detected() {
    assert!(has_any_groups(&hosts()));
    assert!(!has_any_groups(&hosts()[..2]));
}

#[test]
fn selection_stays_in_the_list_over_many_keys() {
    let hs = hosts();
    let mut s = Selector::new(&hs).unwrap();
    let keys = vec![
        Key::Down, Key::Down, Key::Down, Key::Char { c: 'w', ctrl: false }, Key::Down, Key::Down,
        Key::Char { c: 'e', ctrl: false }, Key::Down, Key::Backspace, Key::Backspace, Key::Down,
        Key::Char { c: 'q', ctrl: false }, Key::Up, Key::Backspace, Key::Other, Key::Down,
    ];
    for k in keys {
        s.handle_key(k);
        let n = s.matches().len();
        assert!(s.selected() == 0 || s.selected() < n);
    }
}
