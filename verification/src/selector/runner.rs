//! The interactive selector's decisions: how each key changes the query and
//! the selection, and when the selector ends, with which host.

use crate::config::SshHost;
use crate::selector::filter::{filter_and_rank_hosts, fits_matcher, hosts_fit_matcher, ranked_hosts, HostMatch};
use crate::ui::renderer::{
    display_hosts, display_order, flat_items, group_matches, is_grouping, is_selected_item, lemma_display_hosts_are_matches,
    lemma_display_order, lemma_flat_selected, nth_shown, GroupedHost, ItemView,
};
use vstd::prelude::*;

verus! {

/// A key press, as the selector distinguishes keys.
pub enum Key {
    /// A character key; `ctrl` when Control was held.
    Char { c: char, ctrl: bool },
    Esc,
    Up,
    Down,
    Enter,
    Backspace,
    /// Any other key.
    Other,
}

/// What the selector does after a key.
pub enum Action {
    /// Keep running and draw the list again.
    Redraw,
    /// Stop, with the chosen host's name, or `None` when cancelled.
    Quit(Option<String>),
}

/// An action as a value.
pub enum ActionView {
    Redraw,
    Quit(Option<Seq<char>>),
}

/// The value of an action.
pub open spec fn action_view(a: Action) -> ActionView {
    match a {
        Action::Redraw => ActionView::Redraw,
        Action::Quit(None) => ActionView::Quit(None),
        Action::Quit(Some(s)) => ActionView::Quit(Some(s@)),
    }
}

/// `n - 1`, or 0 for `n == 0`.
pub open spec fn last_index(n: int) -> int {
    if n > 0 {
        n - 1
    } else {
        0
    }
}

/// The number of hosts listed for `query`.
pub open spec fn listed<'a>(hosts: &'a [SshHost], query: Seq<char>) -> int {
    ranked_hosts(hosts, query).len() as int
}

/// The query, selection and action after `key`, from query `q` and
/// selection `sel`: Ctrl+C and Esc cancel; Up and Down move the selection
/// within the list; Enter chooses the selected host, counted in the order the
/// host list shows the ranked matches (group by group), when there is one; Backspace removes the query's last character and keeps the
/// selection within the new list; another character extends the query and
/// selects the first host; anything else changes nothing.
pub open spec fn step<'a>(hosts: &'a [SshHost], q: Seq<char>, sel: int, key: Key) -> (Seq<char>, int, ActionView) {
    let n = listed(hosts, q);
    match key {
        Key::Char { c, ctrl } => {
            if ctrl && c == 'c' {
                (q, sel, ActionView::Quit(None))
            } else {
                (q.push(c), 0, ActionView::Redraw)
            }
        },
        Key::Esc => (q, sel, ActionView::Quit(None)),
        Key::Up => (q, if sel > 0 { sel - 1 } else { sel }, ActionView::Redraw),
        Key::Down => (q, if sel < last_index(n) { sel + 1 } else { sel }, ActionView::Redraw),
        Key::Enter => {
            if n > 0 {
                (q, sel, ActionView::Quit(Some(display_order(ranked_hosts(hosts, q))[sel].host.name@)))
            } else {
                (q, sel, ActionView::Redraw)
            }
        },
        Key::Backspace => {
            let q2 = if q.len() > 0 {
                q.drop_last()
            } else {
                q
            };
            let m = last_index(listed(hosts, q2));
            (q2, if sel < m { sel } else { m }, ActionView::Redraw)
        },
        Key::Other => (q, sel, ActionView::Redraw),
    }
}

/// Calls `String::push`, which appends `c`.
#[verifier::external_body]
fn push_char(s: &mut String, c: char)
    ensures
        final(s)@ == old(s)@.push(c),
{
    s.push(c)
}

/// Calls `String::pop`, which removes and returns the last character, if any.
#[verifier::external_body]
fn pop_char(s: &mut String) -> (r: Option<char>)
    ensures
        old(s)@.len() == 0 ==> r is None && final(s)@ == old(s)@,
        old(s)@.len() > 0 ==> r == Some(old(s)@.last()) && final(s)@ == old(s)@.drop_last(),
{
    s.pop()
}

/// The selector's state: the hosts to pick from, the query typed so far,
/// and the index of the selected host in the host list as shown, section
/// after section.
pub struct Selector<'a> {
    hosts: &'a [SshHost],
    query: String,
    selected: usize,
}

impl<'a> Selector<'a> {
    /// The matcher can take every host, and the selection lies in the list
    /// (or is 0 for an empty list).
    #[verifier::type_invariant]
    spec fn well_formed(self) -> bool {
        &&& fits_matcher(self.hosts@)
        &&& (self.selected == 0 || self.selected < listed(self.hosts, self.query@))
    }

    /// The hosts to pick from.
    pub closed spec fn host_list(self) -> &'a [SshHost] {
        self.hosts
    }

    /// The query typed so far.
    pub closed spec fn query_chars(self) -> Seq<char> {
        self.query@
    }

    /// The index of the selected host.
    pub closed spec fn selection(self) -> int {
        self.selected as int
    }

    /// A selector over `hosts` with an empty query and the first host
    /// selected; `None` when some lower-cased host name is too long for the
    /// matcher.
    pub fn new(hosts: &'a [SshHost]) -> (r: Option<Selector<'a>>)
        ensures
            r is Some <==> fits_matcher(hosts@),
            r matches Some(s) ==> s.host_list() == hosts && s.query_chars() == Seq::<char>::empty()
                && s.selection() == 0,
    {
        if !hosts_fit_matcher(hosts) {
            return None;
        }
        Some(Selector { hosts, query: String::new(), selected: 0 })
    }

    /// The query typed so far.
    pub fn query(&self) -> (r: &str)
        ensures
            r@ == self.query_chars(),
    {
        self.query.as_str()
    }

    /// The index of the selected host.
    pub fn selected(&self) -> (r: usize)
        ensures
            r == self.selection(),
    {
        self.selected
    }

    /// The hosts to pick from.
    pub fn hosts(&self) -> (r: &'a [SshHost])
        ensures
            r == self.host_list(),
    {
        self.hosts
    }

    /// The hosts listed for the current query, ranked.
    pub fn matches(&self) -> (r: Vec<HostMatch<'a>>)
        ensures
            r@ == ranked_hosts(self.host_list(), self.query_chars()),
    {
        proof {
            use_type_invariant(self);
        }
        filter_and_rank_hosts(self.hosts, self.query.as_str())
    }

    /// Handles one key as `step` describes.
    pub fn handle_key(&mut self, key: Key) -> (a: Action)
        ensures
            final(self).host_list() == old(self).host_list(),
            final(self).selection() == 0 || final(self).selection() < listed(
                final(self).host_list(),
                final(self).query_chars(),
            ),
            (final(self).query_chars(), final(self).selection(), action_view(a)) == step(
                old(self).host_list(),
                old(self).query_chars(),
                old(self).selection(),
                key,
            ),
            action_view(a) matches ActionView::Quit(Some(name)) ==> exists|i: int|
                0 <= i < old(self).host_list()@.len() && (#[trigger] old(self).host_list()@[i]).name@ == name,
    {
        proof {
            use_type_invariant(&*self);
        }
        let hosts = self.hosts;
        match key {
            Key::Char { c, ctrl } => {
                if ctrl && c == 'c' {
                    return Action::Quit(None);
                }
                let mut q = self.query.clone();
                push_char(&mut q, c);
                *self = Selector { hosts, query: q, selected: 0 };
                Action::Redraw
            },
            Key::Esc => Action::Quit(None),
            Key::Up => {
                if self.selected > 0 {
                    let q = self.query.clone();
                    *self = Selector { hosts, query: q, selected: self.selected - 1 };
                }
                Action::Redraw
            },
            Key::Down => {
                let n = filter_and_rank_hosts(hosts, self.query.as_str()).len();
                let last = if n > 0 {
                    n - 1
                } else {
                    0
                };
                if self.selected < last {
                    let q = self.query.clone();
                    *self = Selector { hosts, query: q, selected: self.selected + 1 };
                }
                Action::Redraw
            },
            Key::Enter => {
                let listed_now = filter_and_rank_hosts(hosts, self.query.as_str());
                if listed_now.len() > 0 {
                    let grouped = group_matches(listed_now.as_slice(), false);
                    proof {
                        lemma_display_order(listed_now@, false, grouped@);
                        law_chosen_host_is_listed(hosts, self.query@, self.selected as int, false, grouped@);
                    }
                    let chosen = nth_shown(grouped.as_slice(), self.selected);
                    let name = chosen.host.name.clone();
                    Action::Quit(Some(name))
                } else {
                    Action::Redraw
                }
            },
            Key::Backspace => {
                let mut q = self.query.clone();
                let _ = pop_char(&mut q);
                let n = filter_and_rank_hosts(hosts, q.as_str()).len();
                let last = if n > 0 {
                    n - 1
                } else {
                    0
                };
                let sel = if self.selected < last {
                    self.selected
                } else {
                    last
                };
                *self = Selector { hosts, query: q, selected: sel };
                Action::Redraw
            },
            Key::Other => Action::Redraw,
        }
    }
}

/// Whether some host belongs to a group.
pub fn has_any_groups(hosts: &[SshHost]) -> (r: bool)
    ensures
        r == exists|i: int| 0 <= i < hosts@.len() && (#[trigger] hosts@[i]).group is Some,
{
    let mut i: usize = 0;
    while i < hosts.len()
        invariant
            i <= hosts@.len(),
            forall|k: int| 0 <= k < i ==> (#[trigger] hosts@[k]).group is None,
        decreases hosts@.len() - i,
    {
        if hosts[i].group.is_some() {
            assert(hosts@[i as int].group is Some);
            return true;
        }
        i = i + 1;
    }
    false
}

/// Backspace takes back a typed character: typing `c` and then Backspace
/// restores the query.
pub proof fn law_backspace_undoes_typing<'a>(hosts: &'a [SshHost], q: Seq<char>, sel: int, c: char, ctrl: bool)
    requires
        !(ctrl && c == 'c'),
    ensures
        ({
            let (q1, s1, _) = step(hosts, q, sel, Key::Char { c, ctrl });
            step(hosts, q1, s1, Key::Backspace).0 == q
        }),
{
    assert(q.push(c).drop_last() =~= q);
}

/// Esc and Ctrl+C end the selector without a host and change nothing.
pub proof fn law_cancel_keeps_state<'a>(hosts: &'a [SshHost], q: Seq<char>, sel: int)
    ensures
        step(hosts, q, sel, Key::Esc) == (q, sel, ActionView::Quit(None)),
        step(hosts, q, sel, Key::Char { c: 'c', ctrl: true }) == (q, sel, ActionView::Quit(None)),
{
}

/// A chosen host is one of the hosts: Enter, with the selection inside the
/// list, names a host of `hosts` (`r` is how the list shows the matches).
pub proof fn law_chosen_host_is_listed<'a>(
    hosts: &'a [SshHost],
    q: Seq<char>,
    sel: int,
    has_any_groups: bool,
    r: Seq<GroupedHost<'a>>,
)
    requires
        sel == 0 || (0 <= sel < listed(hosts, q)),
        listed(hosts, q) > 0,
        is_grouping(ranked_hosts(hosts, q), has_any_groups, r),
    ensures
        step(hosts, q, sel, Key::Enter).2 matches ActionView::Quit(Some(name)) && exists|i: int|
            0 <= i < hosts@.len() && (#[trigger] hosts@[i]).name@ == name,
{
    let ms = ranked_hosts(hosts, q);
    lemma_display_order(ms, has_any_groups, r);
    lemma_display_hosts_are_matches(ms, has_any_groups, r, r.len() as int);
    let m = display_order(ms)[sel];
    assert(display_hosts(r, r.len() as int)[sel] == m);
    assert(ms.contains(m));
    let k = choose|k: int| 0 <= k < ms.len() && ms[k] == m;
    crate::selector::filter::law_ranked_hosts_matched(hosts, q, k);
}

/// The marked host is the one Enter picks: with the selection inside the
/// list, the lines of the grouped list (with or without the "Other" header)
/// mark exactly one line, the host at the selection's place in the list as
/// shown, and Enter ends the selector with that host's name.
pub proof fn law_marked_host_is_chosen<'a>(
    hosts: &'a [SshHost],
    q: Seq<char>,
    sel: int,
    has_any_groups: bool,
    r: Seq<GroupedHost<'a>>,
)
    requires
        0 <= sel < listed(hosts, q),
        is_grouping(ranked_hosts(hosts, q), has_any_groups, r),
    ensures
        ({
            let flat = flat_items(r, r.len() as int, sel);
            let m = display_order(ranked_hosts(hosts, q))[sel];
            &&& exists|k: int| 0 <= k < flat.len() && #[trigger] flat[k] == ItemView::Host(m, true)
            &&& forall|k: int| 0 <= k < flat.len() && is_selected_item(#[trigger] flat[k]) ==> flat[k] == ItemView::Host(m, true)
            &&& forall|k1: int, k2: int|
                0 <= k1 < flat.len() && 0 <= k2 < flat.len() && is_selected_item(#[trigger] flat[k1])
                    && is_selected_item(#[trigger] flat[k2]) ==> k1 == k2
            &&& step(hosts, q, sel, Key::Enter).2 == ActionView::Quit(Some(m.host.name@))
        }),
{
    let ms = ranked_hosts(hosts, q);
    lemma_display_order(ms, has_any_groups, r);
    lemma_flat_selected(r, r.len() as int, sel);
    let flat = flat_items(r, r.len() as int, sel);
    let k = choose|k: int| 0 <= k < flat.len() && is_selected_item(#[trigger] flat[k]);
    assert(flat[k] == ItemView::Host(display_order(ms)[sel], true));
}

/// The selection never leaves the list: from a selection inside the list
/// (or 0), every key leads to a selection inside the new list (or 0).
pub proof fn law_selection_stays_in_list<'a>(hosts: &'a [SshHost], q: Seq<char>, sel: int, key: Key)
    requires
        sel == 0 || (0 <= sel < listed(hosts, q)),
    ensures
        ({
            let (q1, s1, _) = step(hosts, q, sel, key);
            s1 == 0 || (0 <= s1 < listed(hosts, q1))
        }),
{
}

/// Up on the first host and Down on the last change nothing.
pub proof fn law_selection_stops_at_the_ends<'a>(hosts: &'a [SshHost], q: Seq<char>)
    ensures
        step(hosts, q, 0, Key::Up) == (q, 0int, ActionView::Redraw),
        step(hosts, q, last_index(listed(hosts, q)), Key::Down) == (
            q,
            last_index(listed(hosts, q)),
            ActionView::Redraw,
        ),
{
}

/// The query and selection after the keys `keys`, from query `q` and
/// selection `sel`.
pub open spec fn after_keys<'a>(hosts: &'a [SshHost], q: Seq<char>, sel: int, keys: Seq<Key>) -> (Seq<char>, int)
    decreases keys.len(),
{
    if keys.len() == 0 {
        (q, sel)
    } else {
        let (q1, s1, _) = step(hosts, q, sel, keys[0]);
        after_keys(hosts, q1, s1, keys.drop_first())
    }
}

/// However many keys are pressed, the selection stays inside the list of
/// the current query (or is 0 when that list is empty).
pub proof fn law_selection_stays_in_list_after_keys<'a>(
    hosts: &'a [SshHost],
    q: Seq<char>,
    sel: int,
    keys: Seq<Key>,
)
    requires
        sel == 0 || (0 <= sel < listed(hosts, q)),
    ensures
        ({
            let (q1, s1) = after_keys(hosts, q, sel, keys);
            s1 == 0 || (0 <= s1 < listed(hosts, q1))
        }),
    decreases keys.len(),
{
    if keys.len() > 0 {
        law_selection_stays_in_list(hosts, q, sel, keys[0]);
        let (q1, s1, _) = step(hosts, q, sel, keys[0]);
        law_selection_stays_in_list_after_keys(hosts, q1, s1, keys.drop_first());
    }
}

/// Up moves the selection one host towards the first: from any selection
/// past the first it selects the host just before it, and it keeps the
/// query.
pub proof fn law_up_moves_to_the_previous_host<'a>(hosts: &'a [SshHost], q: Seq<char>, sel: int)
    requires
        sel > 0,
    ensures
        step(hosts, q, sel, Key::Up) == (q, sel - 1, ActionView::Redraw),
{
}

/// Down moves the selection one host towards the last: while a host follows
/// the selected one it selects that host; on the last host (or in an empty
/// list) it stays. The query is kept.
pub proof fn law_down_moves_to_the_next_host<'a>(hosts: &'a [SshHost], q: Seq<char>, sel: int)
    requires
        0 <= sel,
    ensures
        sel + 1 < listed(hosts, q) ==> step(hosts, q, sel, Key::Down) == (q, sel + 1, ActionView::Redraw),
        sel + 1 >= listed(hosts, q) ==> step(hosts, q, sel, Key::Down) == (q, sel, ActionView::Redraw),
{
}

/// Backspace removes the last character of the query (an empty query stays
/// empty) and keeps the selected place, moved back to the last host of the
/// new list only when the list got shorter than it; with no host listed it
/// is 0.
pub proof fn law_backspace_edits_and_clamps<'a>(hosts: &'a [SshHost], q: Seq<char>, sel: int)
    requires
        0 <= sel,
    ensures
        ({
            let (q1, s1, a) = step(hosts, q, sel, Key::Backspace);
            &&& a == ActionView::Redraw
            &&& q.len() > 0 ==> q1.len() == q.len() - 1 && q1.push(q.last()) == q
            &&& q.len() == 0 ==> q1 == q
            &&& sel < listed(hosts, q1) ==> s1 == sel
            &&& sel >= listed(hosts, q1) && listed(hosts, q1) > 0 ==> s1 == listed(hosts, q1) - 1
            &&& listed(hosts, q1) == 0 ==> s1 == 0
        }),
{
    if q.len() > 0 {
        assert(q.drop_last().push(q.last()) =~= q);
    }
}

/// Typing a character (other than Ctrl+C) appends it to the query and
/// selects the first host of the new list.
pub proof fn law_typing_extends_the_query<'a>(hosts: &'a [SshHost], q: Seq<char>, sel: int, c: char, ctrl: bool)
    requires
        !(ctrl && c == 'c'),
    ensures
        ({
            let (q1, s1, a) = step(hosts, q, sel, Key::Char { c, ctrl });
            &&& q1.len() == q.len() + 1
            &&& q1.last() == c
            &&& q1.drop_last() == q
            &&& s1 == 0
            &&& a == ActionView::Redraw
        }),
{
    assert(q.push(c).drop_last() =~= q);
}

/// Enter keeps the query and the selection; with a host listed it ends the
/// selector with a host's name, and with none it does nothing.
pub proof fn law_enter_ends_only_with_a_host<'a>(hosts: &'a [SshHost], q: Seq<char>, sel: int)
    ensures
        step(hosts, q, sel, Key::Enter).0 == q,
        step(hosts, q, sel, Key::Enter).1 == sel,
        listed(hosts, q) > 0 ==> step(hosts, q, sel, Key::Enter).2 is Quit && step(hosts, q, sel, Key::Enter).2
            != ActionView::Quit(None),
        listed(hosts, q) == 0 ==> step(hosts, q, sel, Key::Enter).2 == ActionView::Redraw,
{
}

/// Any other key changes nothing.
pub proof fn law_other_keys_change_nothing<'a>(hosts: &'a [SshHost], q: Seq<char>, sel: int)
    ensures
        step(hosts, q, sel, Key::Other) == (q, sel, ActionView::Redraw),
{
}

} // verus!
