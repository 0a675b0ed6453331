//! The selector's whole screen as a list of terminal commands: title,
//! separator, the host list drawn upwards from above the search bar, the
//! search bar and the help line.

use crate::selector::filter::HostMatch;
use crate::ui::renderer::{
    all_items, calculate_visible_items, group_matches, is_grouping, item_view, items_view, lemma_groupings_same_lines,
    visible_window,
    GroupedHost, ItemView, RenderItem,
};
use vstd::prelude::*;

verus! {

/// The colours the screen uses.
pub enum Color {
    Black,
    Red,
    Green,
    Yellow,
    Blue,
    Cyan,
    White,
    DarkGrey,
}

/// One terminal command.
pub enum Draw<'a> {
    /// Clear the whole screen.
    ClearAll,
    /// Move the cursor to column, row.
    MoveTo(u16, u16),
    /// Move the cursor to the start of the next line.
    MoveToNextLine,
    Foreground(Color),
    Background(Color),
    ResetColor,
    /// Print a text.
    Text(String),
    /// Print a character the given number of times.
    Repeat(char, u16),
    /// Print a host name, with the parts that match the query highlighted.
    HostName(&'a str),
}

/// A command as a value.
pub enum DrawView {
    ClearAll,
    MoveTo(u16, u16),
    MoveToNextLine,
    Foreground(Color),
    Background(Color),
    ResetColor,
    Text(Seq<char>),
    Repeat(char, u16),
    HostName(Seq<char>),
}

/// The value of a command.
pub open spec fn draw_view(d: Draw) -> DrawView {
    match d {
        Draw::ClearAll => DrawView::ClearAll,
        Draw::MoveTo(x, y) => DrawView::MoveTo(x, y),
        Draw::MoveToNextLine => DrawView::MoveToNextLine,
        Draw::Foreground(c) => DrawView::Foreground(c),
        Draw::Background(c) => DrawView::Background(c),
        Draw::ResetColor => DrawView::ResetColor,
        Draw::Text(s) => DrawView::Text(s@),
        Draw::Repeat(c, n) => DrawView::Repeat(c, n),
        Draw::HostName(s) => DrawView::HostName(s@),
    }
}

/// The values of commands.
pub open spec fn draws_view(s: Seq<Draw>) -> Seq<DrawView> {
    s.map_values(|d: Draw| draw_view(d))
}

/// The title and the separator below it.
pub open spec fn title_draws(width: u16) -> Seq<DrawView> {
    seq![
        DrawView::ClearAll,
        DrawView::MoveTo(0, 0),
        DrawView::Foreground(Color::Cyan),
        DrawView::Text("SSH Host Selector"@),
        DrawView::ResetColor,
        DrawView::MoveToNextLine,
        DrawView::Foreground(Color::Blue),
        DrawView::Repeat('─', width),
        DrawView::ResetColor,
        DrawView::MoveToNextLine,
    ]
}

/// Blanking rows `from` up to (not including) `to`.
pub open spec fn clear_draws(width: u16, from: int, to: int) -> Seq<DrawView>
    decreases to - from,
{
    if from >= to {
        Seq::empty()
    } else {
        seq![DrawView::MoveTo(0, from as u16), DrawView::Repeat(' ', width)] + clear_draws(
            width,
            from + 1,
            to,
        )
    }
}

/// The commands for one line of the host list at row `row`: a header shows
/// its group's name ("Other" for none); a host is indented, with a marker
/// and colours when it is the selected one.
pub open spec fn item_draws(it: ItemView, row: u16) -> Seq<DrawView> {
    match it {
        ItemView::Header(name) => seq![
            DrawView::MoveTo(0, row),
            DrawView::Foreground(Color::Cyan),
            DrawView::Text(
                match name {
                    Some(n) => n,
                    None => "Other"@,
                },
            ),
            DrawView::ResetColor,
        ],
        ItemView::Host(m, selected) => if selected {
            seq![
                DrawView::MoveTo(0, row),
                DrawView::Background(Color::Blue),
                DrawView::Foreground(Color::White),
                DrawView::Text("  ▶ "@),
                DrawView::HostName(m.host.name@),
                DrawView::ResetColor,
            ]
        } else {
            seq![
                DrawView::MoveTo(0, row),
                DrawView::Foreground(Color::White),
                DrawView::Text("    "@),
                DrawView::HostName(m.host.name@),
                DrawView::ResetColor,
            ]
        },
    }
}

/// The row above `row`, staying at 0.
pub open spec fn row_above(row: u16) -> u16 {
    if row > 0 {
        (row - 1) as u16
    } else {
        0
    }
}

/// The commands for the lines `items`, the first at row `row` and each next
/// one a row higher.
pub open spec fn items_draws(items: Seq<ItemView>, row: u16) -> Seq<DrawView>
    decreases items.len(),
{
    if items.len() == 0 {
        Seq::empty()
    } else {
        item_draws(items[0], row) + items_draws(items.drop_first(), row_above(row))
    }
}

/// The search bar at row `row`: the query followed by a cursor mark, or a
/// placeholder for an empty query.
pub open spec fn search_draws(query: Seq<char>, row: u16) -> Seq<DrawView> {
    seq![DrawView::MoveTo(0, row), DrawView::Foreground(Color::Cyan), DrawView::Text("Search: "@)]
        + if query.len() == 0 {
        seq![DrawView::Foreground(Color::DarkGrey), DrawView::Text("___"@), DrawView::ResetColor]
    } else {
        seq![
            DrawView::ResetColor,
            DrawView::Foreground(Color::Yellow),
            DrawView::Text(query),
            DrawView::Text("_"@),
            DrawView::ResetColor,
        ]
    }
}

/// The help line at row `row`.
pub open spec fn help_draws(row: u16) -> Seq<DrawView> {
    seq![
        DrawView::MoveTo(0, row),
        DrawView::Foreground(Color::DarkGrey),
        DrawView::Text("Use "@),
        DrawView::Foreground(Color::Green),
        DrawView::Text("↑/↓"@),
        DrawView::Foreground(Color::DarkGrey),
        DrawView::Text(" to navigate, "@),
        DrawView::Foreground(Color::Green),
        DrawView::Text("type"@),
        DrawView::Foreground(Color::DarkGrey),
        DrawView::Text(" to search, "@),
        DrawView::Foreground(Color::Green),
        DrawView::Text("Enter"@),
        DrawView::Foreground(Color::DarkGrey),
        DrawView::Text(" to connect, "@),
        DrawView::Foreground(Color::Red),
        DrawView::Text("Esc/Ctrl+C"@),
        DrawView::Foreground(Color::DarkGrey),
        DrawView::Text(" to quit"@),
        DrawView::ResetColor,
    ]
}

/// The search bar's row: the second-to-last, or the top row of a terminal
/// too short for that.
pub open spec fn search_row(height: u16) -> u16 {
    if height >= 2 {
        (height - 2) as u16
    } else {
        0
    }
}

/// The help line's row: the last, or row 0 of a terminal without rows.
pub open spec fn help_row(height: u16) -> u16 {
    if height >= 1 {
        (height - 1) as u16
    } else {
        0
    }
}

/// The whole screen for a terminal of `width` by `height`: the title and
/// separator, the list area blanked, the lines `items` drawn upwards from
/// the row above the search bar, the search bar on the second-to-last row
/// and the help on the last.
pub open spec fn screen_draws(items: Seq<ItemView>, query: Seq<char>, width: u16, height: u16) -> Seq<
    DrawView,
> {
    let search = search_row(height);
    title_draws(width) + clear_draws(width, 2, search as int) + items_draws(items, row_above(search))
        + search_draws(query, search) + help_draws(help_row(height))
}

/// The number of host-list lines that fit on a terminal `height` rows high:
/// all rows but the title, the separator, the search bar, the help line and
/// two more.
pub open spec fn list_room(height: u16) -> int {
    if height >= 6 {
        height - 6
    } else {
        0
    }
}

/// The number of host-list lines that fit on a terminal `height` rows high.
pub fn max_visible_lines(height: u16) -> (r: usize)
    ensures
        r == list_room(height),
{
    let h = height as usize;
    if h >= 6 {
        h - 6
    } else {
        0
    }
}

/// Appends `d` to `out`.
fn emit<'a>(out: &mut Vec<Draw<'a>>, d: Draw<'a>)
    ensures
        draws_view(final(out)@) == draws_view(old(out)@).push(draw_view(d)),
{
    out.push(d);
    assert(draws_view(out@) =~= draws_view(old(out)@).push(draw_view(d)));
}

/// Appends the title and separator.
fn push_title<'a>(out: &mut Vec<Draw<'a>>, width: u16)
    ensures
        draws_view(final(out)@) == draws_view(old(out)@) + title_draws(width),
{
    emit(out, Draw::ClearAll);
    emit(out, Draw::MoveTo(0, 0));
    emit(out, Draw::Foreground(Color::Cyan));
    emit(out, Draw::Text("SSH Host Selector".to_owned()));
    emit(out, Draw::ResetColor);
    emit(out, Draw::MoveToNextLine);
    emit(out, Draw::Foreground(Color::Blue));
    emit(out, Draw::Repeat('─', width));
    emit(out, Draw::ResetColor);
    emit(out, Draw::MoveToNextLine);
    assert(draws_view(out@) =~= draws_view(old(out)@) + title_draws(width));
}

/// Appends the blanking of rows 2 up to `search_row`.
fn push_clear<'a>(out: &mut Vec<Draw<'a>>, width: u16, search_row: u16)
    ensures
        draws_view(final(out)@) == draws_view(old(out)@) + clear_draws(width, 2, search_row as int),
{
    let ghost start = draws_view(out@);
    let mut row: u16 = 2;
    while row < search_row
        invariant
            2 <= row,
            draws_view(out@) + clear_draws(width, row as int, search_row as int) == start
                + clear_draws(width, 2, search_row as int),
        decreases search_row - row,
    {
        let ghost prev = draws_view(out@);
        emit(out, Draw::MoveTo(0, row));
        emit(out, Draw::Repeat(' ', width));
        assert(draws_view(out@) + clear_draws(width, row + 1, search_row as int) =~= prev
            + clear_draws(width, row as int, search_row as int));
        row = row + 1;
    }
    assert(clear_draws(width, row as int, search_row as int) == Seq::<DrawView>::empty());
    assert(draws_view(out@) =~= draws_view(out@) + Seq::<DrawView>::empty());
}

/// Appends the commands for one list line at row `row`.
fn push_item<'a>(out: &mut Vec<Draw<'a>>, item: &RenderItem<'a>, row: u16)
    ensures
        draws_view(final(out)@) == draws_view(old(out)@) + item_draws(item_view(*item), row),
{
    match item {
        RenderItem::GroupHeader(group_name_opt) => {
            emit(out, Draw::MoveTo(0, row));
            emit(out, Draw::Foreground(Color::Cyan));
            let display_name: String = match group_name_opt {
                Some(n) => n.clone(),
                None => "Other".to_owned(),
            };
            emit(out, Draw::Text(display_name));
            emit(out, Draw::ResetColor);
        },
        RenderItem::Host { match_item, is_selected } => {
            emit(out, Draw::MoveTo(0, row));
            if *is_selected {
                emit(out, Draw::Background(Color::Blue));
                emit(out, Draw::Foreground(Color::White));
                emit(out, Draw::Text("  ▶ ".to_owned()));
            } else {
                emit(out, Draw::Foreground(Color::White));
                emit(out, Draw::Text("    ".to_owned()));
            }
            let m: &'a HostMatch<'a> = *match_item;
            let host: &'a crate::config::SshHost = m.host;
            emit(out, Draw::HostName(host.name.as_str()));
            emit(out, Draw::ResetColor);
        },
    }
    assert(draws_view(out@) =~= draws_view(old(out)@) + item_draws(item_view(*item), row));
}

/// Appends the commands for the list lines `visible`, upwards from `row`.
fn push_items<'a>(out: &mut Vec<Draw<'a>>, visible: &[RenderItem<'a>], row: u16)
    ensures
        draws_view(final(out)@) == draws_view(old(out)@) + items_draws(items_view(visible@), row),
{
    let ghost start = draws_view(out@);
    let ghost all_items = items_view(visible@);
    let mut current_line: u16 = row;
    let mut i: usize = 0;
    assert(all_items.skip(0) =~= all_items);
    while i < visible.len()
        invariant
            i <= visible@.len(),
            all_items == items_view(visible@),
            draws_view(out@) + items_draws(all_items.skip(i as int), current_line) == start
                + items_draws(all_items, row),
        decreases visible@.len() - i,
    {
        let ghost prev = draws_view(out@);
        let ghost rest = all_items.skip(i as int);
        assert(rest[0] == item_view(visible@[i as int]));
        assert(rest.drop_first() =~= all_items.skip(i + 1));
        push_item(out, &visible[i], current_line);
        assert(draws_view(out@) + items_draws(all_items.skip(i + 1), row_above(current_line)) =~= prev
            + items_draws(rest, current_line));
        current_line = if current_line > 0 {
            current_line - 1
        } else {
            0
        };
        i = i + 1;
    }
    assert(items_draws(all_items.skip(i as int), current_line) == Seq::<DrawView>::empty());
    assert(draws_view(out@) =~= draws_view(out@) + Seq::<DrawView>::empty());
}

/// Appends the search bar at row `row`.
fn push_search<'a>(out: &mut Vec<Draw<'a>>, query: &str, row: u16)
    ensures
        draws_view(final(out)@) == draws_view(old(out)@) + search_draws(query@, row),
{
    emit(out, Draw::MoveTo(0, row));
    emit(out, Draw::Foreground(Color::Cyan));
    emit(out, Draw::Text("Search: ".to_owned()));
    if query.is_empty() {
        emit(out, Draw::Foreground(Color::DarkGrey));
        emit(out, Draw::Text("___".to_owned()));
        emit(out, Draw::ResetColor);
    } else {
        emit(out, Draw::ResetColor);
        emit(out, Draw::Foreground(Color::Yellow));
        emit(out, Draw::Text(query.to_owned()));
        emit(out, Draw::Text("_".to_owned()));
        emit(out, Draw::ResetColor);
    }
    assert(draws_view(out@) =~= draws_view(old(out)@) + search_draws(query@, row));
}

/// Appends the help line at row `row`.
fn push_help<'a>(out: &mut Vec<Draw<'a>>, row: u16)
    ensures
        draws_view(final(out)@) == draws_view(old(out)@) + help_draws(row),
{
    emit(out, Draw::MoveTo(0, row));
    emit(out, Draw::Foreground(Color::DarkGrey));
    emit(out, Draw::Text("Use ".to_owned()));
    emit(out, Draw::Foreground(Color::Green));
    emit(out, Draw::Text("↑/↓".to_owned()));
    emit(out, Draw::Foreground(Color::DarkGrey));
    emit(out, Draw::Text(" to navigate, ".to_owned()));
    emit(out, Draw::Foreground(Color::Green));
    emit(out, Draw::Text("type".to_owned()));
    emit(out, Draw::Foreground(Color::DarkGrey));
    emit(out, Draw::Text(" to search, ".to_owned()));
    emit(out, Draw::Foreground(Color::Green));
    emit(out, Draw::Text("Enter".to_owned()));
    emit(out, Draw::Foreground(Color::DarkGrey));
    emit(out, Draw::Text(" to connect, ".to_owned()));
    emit(out, Draw::Foreground(Color::Red));
    emit(out, Draw::Text("Esc/Ctrl+C".to_owned()));
    emit(out, Draw::Foreground(Color::DarkGrey));
    emit(out, Draw::Text(" to quit".to_owned()));
    emit(out, Draw::ResetColor);
    assert(draws_view(out@) =~= draws_view(old(out)@) + help_draws(row));
}

/// The commands that draw the screen: `visible` are the host-list lines
/// from the bottom up, `query` the search text; the terminal is `width` by
/// `height` cells. A terminal too short for the search bar and the help
/// line gets them on its top row.
pub fn screen_commands<'a>(visible: &[RenderItem<'a>], query: &str, width: u16, height: u16) -> (r: Vec<Draw<'a>>)
    ensures
        draws_view(r@) == screen_draws(items_view(visible@), query@, width, height),
{
    let mut out: Vec<Draw<'a>> = Vec::new();
    assert(draws_view(out@) =~= Seq::<DrawView>::empty());
    let search_row = if height >= 2 {
        height - 2
    } else {
        0
    };
    let help_row = if height >= 1 {
        height - 1
    } else {
        0
    };
    push_title(&mut out, width);
    push_clear(&mut out, width, search_row);
    let first_row = if search_row > 0 {
        search_row - 1
    } else {
        0
    };
    push_items(&mut out, visible, first_row);
    push_search(&mut out, query, search_row);
    push_help(&mut out, help_row);
    assert(draws_view(out@) =~= screen_draws(items_view(visible@), query@, width, height));
    out
}

/// The whole screen for the ranked `matches`, with host `selected` of the
/// list (counted section after section) marked, on a terminal `width` by
/// `height` cells: the matches grouped for display, the lines that fit
/// around the selected one, and the frame around them. All groupings of the
/// matches show the same lines, so the screen is the same whichever is
/// named.
pub fn layout_screen<'a>(
    matches: &'a [HostMatch<'a>],
    selected: usize,
    query: &str,
    has_any_groups: bool,
    width: u16,
    height: u16,
) -> (r: Vec<Draw<'a>>)
    ensures
        exists|g: Seq<GroupedHost<'a>>| #[trigger] is_grouping(matches@, has_any_groups, g),
        forall|g: Seq<GroupedHost<'a>>|
            #[trigger] is_grouping(matches@, has_any_groups, g) ==> draws_view(r@) == screen_draws(
                visible_window(all_items(g, selected as int), list_room(height)),
                query@,
                width,
                height,
            ),
{
    let grouped = group_matches(matches, has_any_groups);
    let room = max_visible_lines(height);
    let visible = calculate_visible_items(grouped.as_slice(), selected, room);
    let r = screen_commands(visible.as_slice(), query, width, height);
    assert(is_grouping(matches@, has_any_groups, grouped@));
    assert forall|g: Seq<GroupedHost<'a>>| #[trigger] is_grouping(matches@, has_any_groups, g) implies draws_view(r@)
        == screen_draws(visible_window(all_items(g, selected as int), list_room(height)), query@, width, height) by {
        lemma_groupings_same_lines(matches@, has_any_groups, grouped@, g, selected as int);
    }
    r
}

/// The row a command moves the cursor to, if it moves it to a row.
pub open spec fn target_row(d: DrawView) -> Option<u16> {
    match d {
        DrawView::MoveTo(_, r) => Some(r),
        _ => None,
    }
}

/// The list lines drawn from row `row` upwards move the cursor only to the
/// rows they occupy: `row` and the `items.len() - 1` rows above it.
proof fn lemma_items_rows(items: Seq<ItemView>, row: u16)
    requires
        items.len() <= row + 1,
    ensures
        forall|k: int|
            0 <= k < items_draws(items, row).len() ==> ((#[trigger] target_row(items_draws(items, row)[k]))
                matches Some(r) ==> row + 1 - items.len() <= r <= row),
    decreases items.len(),
{
    if items.len() > 0 {
        let first = item_draws(items[0], row);
        let rest = items_draws(items.drop_first(), row_above(row));
        if items.len() > 1 {
            lemma_items_rows(items.drop_first(), row_above(row));
        }
        assert(items_draws(items, row) == first + rest);
        assert forall|k: int|
            0 <= k < items_draws(items, row).len() implies ((#[trigger] target_row(items_draws(items, row)[k]))
                matches Some(r) ==> row + 1 - items.len() <= r <= row) by {
            if k < first.len() {
                assert(items_draws(items, row)[k] == first[k]);
            } else {
                assert(items_draws(items, row)[k] == rest[k - first.len()]);
                if items.len() == 1 {
                    assert(rest.len() == 0);
                }
            }
        }
    }
}

/// When no more lines are drawn than `max_visible_lines` allows, the list
/// stays between the separator and the search bar: every row it moves to is
/// below row 1 and above the search bar's row.
pub proof fn law_list_stays_inside_frame(items: Seq<ItemView>, height: u16)
    requires
        height >= 2,
        items.len() <= list_room(height),
    ensures
        ({
            let draws = items_draws(items, row_above(search_row(height)));
            forall|k: int|
                0 <= k < draws.len() ==> ((#[trigger] target_row(draws[k])) matches Some(r) ==> 2 <= r
                    < search_row(height))
        }),
{
    let sr = search_row(height);
    if items.len() > 0 {
        lemma_items_rows(items, row_above(sr));
    } else {
        assert(items_draws(items, row_above(sr)).len() == 0);
    }
}

/// Whether the commands `d` hold the search bar at `k`, on row `row`: the
/// `Search: ` label, then a non-empty `query` exactly as given, in yellow,
/// followed by the cursor mark, or the placeholder for an empty one.
pub open spec fn search_bar_at(d: Seq<DrawView>, k: int, query: Seq<char>, row: u16) -> bool {
    &&& 0 <= k
    &&& k + 7 <= d.len()
    &&& d[k] == DrawView::MoveTo(0, row)
    &&& d[k + 1] == DrawView::Foreground(Color::Cyan)
    &&& d[k + 2] == DrawView::Text("Search: "@)
    &&& query.len() > 0 ==> d[k + 3] == DrawView::ResetColor && d[k + 4] == DrawView::Foreground(Color::Yellow)
        && d[k + 5] == DrawView::Text(query) && d[k + 6] == DrawView::Text("_"@)
    &&& query.len() == 0 ==> d[k + 3] == DrawView::Foreground(Color::DarkGrey) && d[k + 4] == DrawView::Text(
        "___"@,
    )
}

/// The search bar echoes the query exactly as typed: on the search bar's
/// row, after the `Search: ` label, a non-empty query is printed in yellow
/// followed by the cursor mark, and an empty one shows the placeholder.
pub proof fn law_search_bar_echoes_query(items: Seq<ItemView>, query: Seq<char>, width: u16, height: u16)
    ensures
        exists|k: int| #[trigger] search_bar_at(screen_draws(items, query, width, height), k, query, search_row(height)),
{
    let sr = search_row(height);
    let head = title_draws(width) + clear_draws(width, 2, sr as int) + items_draws(items, row_above(sr));
    let sb = search_draws(query, sr);
    let d = screen_draws(items, query, width, height);
    assert(d == head + sb + help_draws(help_row(height)));
    let k = head.len() as int;
    assert(sb.len() >= 6);
    assert forall|j: int| 0 <= j < sb.len() implies d[k + j] == #[trigger] sb[j] by {
        assert((head + sb)[k + j] == sb[j]);
    }
    assert(d[k] == sb[0]);
    assert(d[k + 1] == sb[1]);
    assert(d[k + 2] == sb[2]);
    assert(d[k + 3] == sb[3]);
    assert(d[k + 4] == sb[4]);
    if query.len() > 0 {
        assert(d[k + 5] == sb[5]);
        assert(d[k + 6] == sb[6]);
    }
    assert(help_draws(help_row(height)).len() > 0);
    assert(search_bar_at(d, k, query, sr));
}

} // verus!
