//! SSH config entries: the host type, and the reader that picks the `Host`
//! lines and `#group:` comments out of a config file's text.

use crate::text::{
    chars_of, contains_in, has_prefix, has_prefix_at, lemma_trim_idempotent, lemma_trim_within,
    lowercase, to_lowercase, trim, trim_range, trim_start, trim_end, all_ascii,
};
use vstd::prelude::*;

verus! {

/// A `Host` entry of an SSH config file: the host's name and the group
/// that a `#group:name` comment above it assigned, if any. Wildcard hosts
/// (those whose line holds a `*`) never become an `SshHost`.
#[derive(Debug, Clone, PartialEq)]
pub struct SshHost {
    /// The name as written after `Host`, trimmed.
    pub name: String,
    /// The lower-cased name of the group the host belongs to.
    pub group: Option<String>,
}

/// The characters of an optional name.
pub open spec fn group_key(o: Option<String>) -> Option<Seq<char>> {
    match o {
        Some(s) => Some(s@),
        None => None,
    }
}

/// A host entry as a value: its name and group as characters.
pub struct HostView {
    pub name: Seq<char>,
    pub group: Option<Seq<char>>,
}

/// The value of a host entry.
pub open spec fn host_view(h: SshHost) -> HostView {
    HostView { name: h.name@, group: group_key(h.group) }
}

/// The values of host entries.
pub open spec fn hosts_view(s: Seq<SshHost>) -> Seq<HostView> {
    s.map_values(|h: SshHost| host_view(h))
}

/// `#group:`, the start of a group comment.
pub open spec fn group_marker() -> Seq<char> {
    seq!['#', 'g', 'r', 'o', 'u', 'p', ':']
}

/// `Host ` (with its space), the start of a host line.
pub open spec fn host_marker() -> Seq<char> {
    seq!['H', 'o', 's', 't', ' ']
}

/// The group in force after `line`, given the group `group` before it: a
/// group comment with a non-empty name sets it (lower-cased); every other
/// line leaves it.
pub open spec fn line_group(group: Option<Seq<char>>, line: Seq<char>) -> Option<Seq<char>> {
    let t = trim(line);
    if has_prefix(t, group_marker()) && lowercase(trim(t.skip(7))).len() > 0 {
        Some(lowercase(trim(t.skip(7))))
    } else {
        group
    }
}

/// The host that `line` declares, under the group `group`: a line that
/// (trimmed) starts with `Host `, holds no `*`, and names a host.
/// Comments declare none.
pub open spec fn line_host(group: Option<Seq<char>>, line: Seq<char>) -> Option<HostView> {
    let t = trim(line);
    if t.len() > 0 && t[0] == '#' {
        None
    } else if has_prefix(t, host_marker()) && !t.contains('*') && trim(t.skip(5)).len() > 0 {
        Some(HostView { name: trim(t.skip(5)), group })
    } else {
        None
    }
}

/// The group in force after the lines `lines`, when `start` was in force
/// before them.
pub open spec fn group_after(start: Option<Seq<char>>, lines: Seq<Seq<char>>) -> Option<Seq<char>>
    decreases lines.len(),
{
    if lines.len() == 0 {
        start
    } else {
        line_group(group_after(start, lines.drop_last()), lines.last())
    }
}

/// The hosts that the lines `lines` declare, in order, when `start` was the
/// group in force before them.
pub open spec fn hosts_in(start: Option<Seq<char>>, lines: Seq<Seq<char>>) -> Seq<HostView>
    decreases lines.len(),
{
    if lines.len() == 0 {
        Seq::empty()
    } else {
        let rest = hosts_in(start, lines.drop_last());
        match line_host(group_after(start, lines.drop_last()), lines.last()) {
            Some(h) => rest.push(h),
            None => rest,
        }
    }
}

/// The index of the first `\n` in `s` at or after `k`, or `s.len()`.
pub open spec fn next_newline(s: Seq<char>, k: int) -> int
    decreases s.len() - k,
{
    if k < 0 || k >= s.len() {
        s.len() as int
    } else if s[k] == '\n' {
        k
    } else {
        next_newline(s, k + 1)
    }
}

/// `next_newline` lies between `k` and the end.
pub proof fn lemma_next_newline(s: Seq<char>, k: int)
    requires
        0 <= k <= s.len(),
    ensures
        k <= next_newline(s, k) <= s.len(),
        next_newline(s, k) < s.len() ==> s[next_newline(s, k)] == '\n',
        forall|j: int| k <= j < next_newline(s, k) ==> s[j] != '\n',
    decreases s.len() - k,
{
    if k < s.len() && s[k] != '\n' {
        lemma_next_newline(s, k + 1);
    }
}

/// The end of the line that starts at `start` and whose `\n` (or the end of
/// text) is at `e`: a `\r` just before a `\n` is not part of the line.
pub open spec fn line_end(s: Seq<char>, start: int, e: int) -> int {
    if e < s.len() && e > start && s[e - 1] == '\r' {
        e - 1
    } else {
        e
    }
}

/// The lines of `s` from `start` on, as `BufRead::lines` yields them: split
/// at each `\n`, without a line after a final `\n`, and with the `\r` of a
/// `\r\n` removed.
pub open spec fn lines_from(s: Seq<char>, start: int) -> Seq<Seq<char>>
    decreases s.len() - start,
{
    if start < 0 || start >= s.len() {
        Seq::empty()
    } else {
        let e = next_newline(s, start);
        let next = if e >= s.len() {
            s.len() as int
        } else if e > start {
            e + 1
        } else {
            start + 1
        };
        seq![s.subrange(start, line_end(s, start, e))] + lines_from(s, next)
    }
}

/// The lines of a config file's text.
pub open spec fn config_lines(s: Seq<char>) -> Seq<Seq<char>> {
    lines_from(s, 0)
}

/// The hosts that a config file with text `s` declares.
pub open spec fn config_hosts(s: Seq<char>) -> Seq<HostView> {
    hosts_in(None, config_lines(s))
}

/// The lines of `s` given by their bounds.
pub open spec fn lines_at(s: Seq<char>, bounds: Seq<(usize, usize)>) -> Seq<Seq<char>> {
    bounds.map_values(|b: (usize, usize)| s.subrange(b.0 as int, b.1 as int))
}

/// The bounds `(start, end)` of the lines of `s`, as `config_lines` cuts them.
fn line_bounds(s: &Vec<char>) -> (r: Vec<(usize, usize)>)
    ensures
        lines_at(s@, r@) == config_lines(s@),
        forall|k: int| 0 <= k < r.len() ==> (#[trigger] r[k]).0 <= r[k].1 <= s.len(),
{
    let mut r: Vec<(usize, usize)> = Vec::new();
    let mut start: usize = 0;
    assert(lines_at(s@, r@) =~= Seq::<Seq<char>>::empty());
    while start < s.len()
        invariant
            start <= s.len(),
            lines_at(s@, r@) + lines_from(s@, start as int) == config_lines(s@),
            forall|k: int| 0 <= k < r.len() ==> (#[trigger] r[k]).0 <= r[k].1 <= s.len(),
        decreases s.len() - start,
    {
        proof {
            lemma_next_newline(s@, start as int);
        }
        let mut e: usize = start;
        while e < s.len() && s[e] != '\n'
            invariant
                start <= e <= s.len(),
                next_newline(s@, start as int) == next_newline(s@, e as int),
            decreases s.len() - e,
        {
            e = e + 1;
        }
        let end = if e < s.len() && e > start && s[e - 1] == '\r' {
            e - 1
        } else {
            e
        };
        let ghost prev = r@;
        r.push((start, end));
        assert(lines_at(s@, r@) =~= lines_at(s@, prev).push(s@.subrange(start as int, end as int)));
        let next = if e < s.len() {
            e + 1
        } else {
            e
        };
        assert(lines_from(s@, start as int) =~= seq![s@.subrange(start as int, end as int)]
            + lines_from(s@, next as int));
        assert(lines_at(s@, r@) + lines_from(s@, next as int) =~= lines_at(s@, prev) + lines_from(
            s@,
            start as int,
        ));
        start = next;
    }
    assert(lines_from(s@, start as int) =~= Seq::<Seq<char>>::empty());
    assert(lines_at(s@, r@) + Seq::<Seq<char>>::empty() =~= lines_at(s@, r@));
    r
}

/// The characters `#group:`.
fn group_marker_chars() -> (v: Vec<char>)
    ensures
        v@ == group_marker(),
{
    let mut v: Vec<char> = Vec::new();
    v.push('#');
    v.push('g');
    v.push('r');
    v.push('o');
    v.push('u');
    v.push('p');
    v.push(':');
    assert(v@ =~= group_marker());
    v
}

/// The characters `Host `.
fn host_marker_chars() -> (v: Vec<char>)
    ensures
        v@ == host_marker(),
{
    let mut v: Vec<char> = Vec::new();
    v.push('H');
    v.push('o');
    v.push('s');
    v.push('t');
    v.push(' ');
    assert(v@ =~= host_marker());
    v
}

/// A copy of an optional group name.
fn copy_group(g: &Option<String>) -> (r: Option<String>)
    ensures
        group_key(r) == group_key(*g),
{
    match g {
        Some(s) => Some(s.clone()),
        None => None,
    }
}

/// Reads the hosts out of the text of an SSH config file: every line that,
/// trimmed, starts with `Host ` and holds no `*` declares the host named by
/// the rest of the line (trimmed), unless that is empty; a comment
/// `#group:name` puts the hosts after it in group `name` (trimmed and
/// lower-cased) until the next such comment, and is ignored if the name is
/// empty; other comments and lines are ignored.
pub fn parse_ssh_config_str(content: &str) -> (hosts: Vec<SshHost>)
    ensures
        hosts_view(hosts@) == config_hosts(content@),
{
    let s = chars_of(content);
    let bounds = line_bounds(&s);
    let group_mark = group_marker_chars();
    let host_mark = host_marker_chars();
    let ghost lines = config_lines(s@);
    let mut hosts: Vec<SshHost> = Vec::new();
    let mut current_group: Option<String> = None;
    let mut i: usize = 0;
    assert(lines.take(0) =~= Seq::<Seq<char>>::empty());
    assert(hosts_view(hosts@) =~= Seq::<HostView>::empty());
    while i < bounds.len()
        invariant
            s@ == content@,
            lines == config_lines(s@),
            lines_at(s@, bounds@) == lines,
            forall|k: int| 0 <= k < bounds.len() ==> (#[trigger] bounds[k]).0 <= bounds[k].1 <= s.len(),
            group_mark@ == group_marker(),
            host_mark@ == host_marker(),
            i <= bounds.len(),
            hosts_view(hosts@) == hosts_in(None, lines.take(i as int)),
            group_key(current_group) == group_after(None, lines.take(i as int)),
        decreases bounds.len() - i,
    {
        let (a, b) = bounds[i];
        let ghost line = s@.subrange(a as int, b as int);
        assert(line == lines[i as int]);
        assert(lines.take(i + 1).drop_last() =~= lines.take(i as int));
        assert(lines.take(i + 1).last() == line);
        let (x, y) = trim_range(&s, a, b);
        assert(trim(line) == s@.subrange(x as int, y as int));
        let ghost t = trim(line);
        let ghost prev_group = group_key(current_group);
        if has_prefix_at(&s, x, y, &group_mark) {
            // a group comment
            let (gx, gy) = trim_range(&s, x + 7, y);
            assert(t.skip(7) =~= s@.subrange(x + 7, y as int));
            let name = to_lowercase(content.substring_char(gx, gy));
            if !name.as_str().is_empty() {
                current_group = Some(name);
            }
            assert(t[0] == '#') by {
                assert(t.take(7)[0] == group_marker()[0]);
            }
        } else if x < y && s[x] == '#' {
            // an ordinary comment
        } else if has_prefix_at(&s, x, y, &host_mark) && !contains_in(&s, x, y, '*') {
            let (hx, hy) = trim_range(&s, x + 5, y);
            assert(t.skip(5) =~= s@.subrange(x + 5, y as int));
            if hx < hy {
                let name = content.substring_char(hx, hy).to_owned();
                let ghost prev_hosts = hosts@;
                hosts.push(SshHost { name, group: copy_group(&current_group) });
                assert(hosts_view(hosts@) =~= hosts_view(prev_hosts).push(
                    HostView { name: trim(t.skip(5)), group: prev_group },
                ));
            }
        }
        i = i + 1;
    }
    assert(lines.take(bounds.len() as int) =~= lines);
    hosts
}

/// The message for a missing home directory.
pub open spec fn no_home_message() -> Seq<char> {
    "Neither HOME nor USERPROFILE environment variable is set"@
}

/// The directory that holds `.ssh/config`: the value of `HOME` if it is set,
/// otherwise that of `USERPROFILE`, otherwise an error saying that neither is.
pub fn config_home(home: Option<String>, userprofile: Option<String>) -> (r: Result<String, String>)
    ensures
        home is Some ==> r == Ok::<String, String>(home->0),
        home is None && userprofile is Some ==> r == Ok::<String, String>(userprofile->0),
        home is None && userprofile is None ==> (r matches Err(e) && e@ == no_home_message()),
{
    if let Some(h) = home {
        return Ok(h);
    }
    if let Some(u) = userprofile {
        return Ok(u);
    }
    Err(String::from_str("Neither HOME nor USERPROFILE environment variable is set"))
}

/// Reading a config is reading it line by line: the hosts of `a` followed
/// by `b` are those of `a`, then those of `b` under the group in force after
/// `a`; a group comment applies to the hosts after it, up to the next one.
pub proof fn law_lines_compose(start: Option<Seq<char>>, a: Seq<Seq<char>>, b: Seq<Seq<char>>)
    ensures
        group_after(start, a + b) == group_after(group_after(start, a), b),
        hosts_in(start, a + b) == hosts_in(start, a) + hosts_in(group_after(start, a), b),
    decreases b.len(),
{
    if b.len() == 0 {
        assert(a + b =~= a);
        assert(hosts_in(start, a) + Seq::<HostView>::empty() =~= hosts_in(start, a));
    } else {
        law_lines_compose(start, a, b.drop_last());
        assert((a + b).drop_last() =~= a + b.drop_last());
        assert((a + b).last() == b.last());
        let g = group_after(start, a);
        match line_host(group_after(g, b.drop_last()), b.last()) {
            Some(h) => {
                assert(hosts_in(start, a) + hosts_in(g, b.drop_last()).push(h) =~= (hosts_in(start, a)
                    + hosts_in(g, b.drop_last())).push(h));
            },
            None => {},
        }
    }
}

/// Wildcard hosts are left out: no host name holds a `*`.
pub proof fn law_no_wildcard_hosts(start: Option<Seq<char>>, lines: Seq<Seq<char>>, k: int)
    requires
        0 <= k < hosts_in(start, lines).len(),
    ensures
        !hosts_in(start, lines)[k].name.contains('*'),
    decreases lines.len(),
{
    let rest = hosts_in(start, lines.drop_last());
    if k < rest.len() {
        law_no_wildcard_hosts(start, lines.drop_last(), k);
    } else {
        let t = trim(lines.last());
        lemma_trim_within(t.skip(5), '*');
        if t.skip(5).contains('*') {
            let i = choose|i: int| 0 <= i < t.skip(5).len() && t.skip(5)[i] == '*';
            assert(t[i + 5] == '*');
        }
    }
}

/// Every host has a non-empty name without surrounding whitespace.
pub proof fn law_host_names_trimmed(start: Option<Seq<char>>, lines: Seq<Seq<char>>, k: int)
    requires
        0 <= k < hosts_in(start, lines).len(),
    ensures
        hosts_in(start, lines)[k].name.len() > 0,
        trim(hosts_in(start, lines)[k].name) == hosts_in(start, lines)[k].name,
    decreases lines.len(),
{
    let rest = hosts_in(start, lines.drop_last());
    if k < rest.len() {
        law_host_names_trimmed(start, lines.drop_last(), k);
    } else {
        lemma_trim_idempotent(trim(lines.last()).skip(5));
    }
}

/// Whether `g` is a group name as group comments set them: the non-empty
/// lower-case form of some text.
pub open spec fn is_group_name(g: Seq<char>) -> bool {
    g.len() > 0 && exists|x: Seq<char>| lowercase(x) == g
}

/// Group names are normalized: starting with no group, every group in force
/// (and so every host's group) is the non-empty lower-case form of the name
/// in its comment.
pub proof fn law_groups_lowercased(lines: Seq<Seq<char>>)
    ensures
        group_after(None, lines) matches Some(g) ==> is_group_name(g),
        forall|k: int|
            0 <= k < hosts_in(None, lines).len() ==> ((#[trigger] hosts_in(None, lines)[k]).group matches Some(g)
                ==> is_group_name(g)),
    decreases lines.len(),
{
    if lines.len() > 0 {
        let l0 = lines.drop_last();
        law_groups_lowercased(l0);
        let t = trim(lines.last());
        let x = trim(t.skip(7));
        if has_prefix(t, group_marker()) && lowercase(x).len() > 0 {
            assert(lowercase(x) == lowercase(x));
        }
        let rest = hosts_in(None, l0);
        assert forall|k: int|
            0 <= k < hosts_in(None, lines).len() implies ((#[trigger] hosts_in(None, lines)[k]).group matches Some(g)
                ==> is_group_name(g)) by {
            if k < rest.len() {
                assert(hosts_in(None, lines)[k] == rest[k]);
            }
        }
    }
}

/// Without group comments no host gets a group other than the one in force
/// before the lines.
pub proof fn law_without_group_comments(start: Option<Seq<char>>, lines: Seq<Seq<char>>)
    requires
        forall|i: int| 0 <= i < lines.len() ==> !has_prefix(trim(#[trigger] lines[i]), group_marker()),
    ensures
        group_after(start, lines) == start,
        forall|k: int| 0 <= k < hosts_in(start, lines).len() ==> (#[trigger] hosts_in(start, lines)[k]).group == start,
    decreases lines.len(),
{
    if lines.len() > 0 {
        let l0 = lines.drop_last();
        assert forall|i: int| 0 <= i < l0.len() implies !has_prefix(trim(#[trigger] l0[i]), group_marker()) by {
            assert(l0[i] == lines[i]);
        }
        law_without_group_comments(start, l0);
        assert(!has_prefix(trim(lines[lines.len() - 1]), group_marker()));
        let rest = hosts_in(start, l0);
        assert forall|k: int| 0 <= k < hosts_in(start, lines).len() implies (#[trigger] hosts_in(start, lines)[k]).group
            == start by {
            if k < rest.len() {
                assert(hosts_in(start, lines)[k] == rest[k]);
            }
        }
    }
}

/// A group comment with an empty name (`#group:` alone, blanks aside) is
/// ignored: the group in force before it stays in force after it.
pub proof fn law_empty_group_comment_ignored(start: Option<Seq<char>>, before: Seq<Seq<char>>, l: Seq<char>)
    requires
        trim(l) == group_marker(),
    ensures
        group_after(start, before.push(l)) == group_after(start, before),
{
    let t = trim(l);
    assert(before.push(l).drop_last() =~= before);
    assert(t.skip(7) =~= Seq::<char>::empty());
    assert(trim_start(Seq::<char>::empty()) =~= Seq::<char>::empty());
    assert(trim_end(Seq::<char>::empty()) =~= Seq::<char>::empty());
    assert(trim(t.skip(7)) =~= Seq::<char>::empty());
    assert(all_ascii(Seq::<char>::empty()));
    assert(lowercase(trim(t.skip(7))).len() == 0);
}

/// A group comment with a name puts the lower-cased, trimmed name in force.
pub proof fn law_named_group_comment_sets_group(
    start: Option<Seq<char>>,
    before: Seq<Seq<char>>,
    l: Seq<char>,
    name: Seq<char>,
)
    requires
        trim(l) == group_marker() + name,
        lowercase(trim(name)).len() > 0,
    ensures
        group_after(start, before.push(l)) == Some(lowercase(trim(name))),
{
    assert(before.push(l).drop_last() =~= before);
    assert(trim(l).skip(7) =~= name);
    assert(trim(l).take(7) =~= group_marker());
    assert(has_prefix(trim(l), group_marker()));
}

/// A `Host` line naming one host without `*` adds that host, its name
/// trimmed, under the group in force, after the hosts before it.
pub proof fn law_host_line_adds_host(start: Option<Seq<char>>, before: Seq<Seq<char>>, l: Seq<char>, name: Seq<char>)
    requires
        trim(l) == host_marker() + name,
        !name.contains('*'),
        trim(name).len() > 0,
    ensures
        hosts_in(start, before.push(l)) == hosts_in(start, before).push(
            HostView { name: trim(name), group: group_after(start, before) },
        ),
        group_after(start, before.push(l)) == group_after(start, before),
{
    let t = trim(l);
    assert(before.push(l).drop_last() =~= before);
    assert(t.skip(5) =~= name);
    assert(t.take(5) =~= host_marker());
    assert(t[0] == 'H');
    assert(!t.contains('*')) by {
        if t.contains('*') {
            let i = choose|i: int| 0 <= i < t.len() && t[i] == '*';
            if i >= 5 {
                assert(name[i - 5] == '*');
            }
        }
    }
    assert(!has_prefix(t, group_marker())) by {
        if has_prefix(t, group_marker()) {
            assert(t.take(7)[0] == '#');
        }
    }
}

} // verus!
