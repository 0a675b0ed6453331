//! What the host list shows: matches grouped under their group headers
//! (named groups in alphabetical order, ungrouped hosts last under "Other"),
//! flattened into display lines and cut to the window that fits the screen.

use crate::config::group_key;
use crate::selector::filter::HostMatch;
use crate::text::{chars_of, lex_less, lex_lt, lemma_lex_total, lemma_lex_transitive};
use vstd::prelude::*;

verus! {

/// One section of the host list: a named group, or (`group_name` `None`)
/// the hosts without a group.
pub struct GroupedHost<'a> {
    /// The group's name; `None` for the "Other" section.
    pub group_name: Option<String>,
    /// The section's hosts, in the order of the matches.
    pub hosts: Vec<&'a HostMatch<'a>>,
    /// Whether the section is shown with a header line.
    pub show_header: bool,
}

/// The characters of a group name, empty for none.
pub open spec fn label(o: Option<String>) -> Seq<char> {
    match o {
        Some(s) => s@,
        None => Seq::empty(),
    }
}

/// The matches whose host belongs to group `g` (`None`: to no group).
pub open spec fn in_group<'a>(g: Option<Seq<char>>) -> spec_fn(HostMatch<'a>) -> bool {
    |m: HostMatch<'a>| group_key(m.host.group) == g
}

/// The matches that references point to.
pub open spec fn derefs<'a>(s: Seq<&'a HostMatch<'a>>) -> Seq<HostMatch<'a>> {
    s.map_values(|r: &'a HostMatch<'a>| *r)
}

/// The number of named sections in `r`, the grouping of `ms`.
pub open spec fn named_count<'a>(ms: Seq<HostMatch<'a>>, r: Seq<GroupedHost<'a>>) -> int {
    if ms.filter(in_group(None)).len() > 0 {
        r.len() - 1
    } else {
        r.len() as int
    }
}

/// `r` is how `group_matches` sections `ms`: one section per group that
/// occurs, in increasing order of name, each holding that group's matches in
/// their order and shown with a header; then, if some match has no group, an
/// "Other" section holding those, with a header only if `has_any_groups`.
/// Together the sections hold as many hosts as there are matches.
pub open spec fn is_grouping<'a>(ms: Seq<HostMatch<'a>>, has_any_groups: bool, r: Seq<GroupedHost<'a>>) -> bool {
    let others = ms.filter(in_group(None));
    let k = named_count(ms, r);
    &&& 0 <= k
    &&& hosts_before(r, r.len() as int) == ms.len()
    &&& forall|i: int|
        #![trigger r[i]]
        0 <= i < k ==> {
            &&& r[i].group_name is Some
            &&& r[i].show_header
            &&& r[i].hosts@.len() > 0
            &&& derefs(r[i].hosts@) == ms.filter(in_group(group_key(r[i].group_name)))
        }
    &&& forall|i: int, j: int|
        0 <= i < j < k ==> lex_lt(label((#[trigger] r[i]).group_name), label((#[trigger] r[j]).group_name))
    &&& forall|j: int|
        0 <= j < ms.len() && (#[trigger] ms[j]).host.group is Some ==> exists|i: int|
            0 <= i < k && group_key((#[trigger] r[i]).group_name) == group_key(ms[j].host.group)
    &&& others.len() > 0 ==> {
        &&& r[k].group_name is None
        &&& r[k].show_header == has_any_groups
        &&& derefs(r[k].hosts@) == others
    }
}

/// The named sections built so far, for the first matches `ms`.
pub open spec fn named_sections_ok<'a>(
    ms: Seq<HostMatch<'a>>,
    groups: Seq<GroupedHost<'a>>,
    names: Seq<Vec<char>>,
) -> bool {
    &&& groups.len() == names.len()
    &&& forall|p: int|
        #![trigger groups[p]]
        0 <= p < groups.len() ==> {
            &&& groups[p].group_name is Some
            &&& label(groups[p].group_name) == names[p]@
            &&& groups[p].show_header
            &&& groups[p].hosts@.len() > 0
            &&& derefs(groups[p].hosts@) == ms.filter(in_group(Some(names[p]@)))
        }
    &&& forall|p: int, q: int| 0 <= p < q < names.len() ==> lex_lt((#[trigger] names[p])@, (#[trigger] names[q])@)
    &&& forall|j: int|
        0 <= j < ms.len() && (#[trigger] ms[j]).host.group is Some ==> exists|p: int|
            0 <= p < names.len() && Some((#[trigger] names[p])@) == group_key(ms[j].host.group)
}

/// The first position in the sorted `names` whose name does not come before `key`.
fn find_section(names: &Vec<Vec<char>>, key: &Vec<char>) -> (p: usize)
    requires
        forall|p: int, q: int| 0 <= p < q < names.len() ==> lex_lt((#[trigger] names[p])@, (#[trigger] names[q])@),
    ensures
        p <= names.len(),
        forall|q: int| 0 <= q < p ==> lex_lt((#[trigger] names[q])@, key@),
        p < names.len() ==> !lex_lt(names[p as int]@, key@),
{
    let mut p: usize = 0;
    while p < names.len() && lex_less(&names[p], key)
        invariant
            p <= names.len(),
            forall|q: int| 0 <= q < p ==> lex_lt((#[trigger] names[q])@, key@),
        decreases names.len() - p,
    {
        p = p + 1;
    }
    p
}

/// Groups the matches for display: one section per group, in increasing
/// order of group name, each with a header and with its hosts in match order;
/// then, if some host has no group, an "Other" section with those hosts,
/// whose header is shown only when `has_any_groups`.
pub fn group_matches<'a>(matches: &'a [HostMatch<'a>], has_any_groups: bool) -> (r: Vec<GroupedHost<'a>>)
    ensures
        is_grouping(matches@, has_any_groups, r@),
{
    broadcast use vstd::seq::Seq::lemma_filter_push;

    let mut groups: Vec<GroupedHost<'a>> = Vec::new();
    let mut names: Vec<Vec<char>> = Vec::new();
    let mut ungrouped: Vec<&'a HostMatch<'a>> = Vec::new();
    let mut i: usize = 0;
    assert(matches@.take(0) =~= Seq::<HostMatch<'a>>::empty());
    while i < matches.len()
        invariant
            i <= matches@.len(),
            named_sections_ok(matches@.take(i as int), groups@, names@),
            derefs(ungrouped@) == matches@.take(i as int).filter(in_group(None)),
            hosts_before(groups@, groups@.len() as int) + ungrouped@.len() == i,
        decreases matches@.len() - i,
    {
        let ghost ms = matches@.take(i as int);
        let ghost g0 = groups@;
        let ghost n0 = names@;
        let m: &'a HostMatch<'a> = &matches[i];
        assert(matches@.take(i + 1) =~= ms.push(*m));
        match &m.host.group {
            None => {
                ungrouped.push(m);
                assert(derefs(ungrouped@) =~= derefs(ungrouped@.drop_last()).push(*m));
                assert forall|p: int| #![trigger groups@[p]] 0 <= p < groups.len() implies derefs(
                    groups@[p].hosts@,
                ) == matches@.take(i + 1).filter(in_group(Some(names@[p]@))) by {
                    assert(!in_group(Some(names@[p]@))(*m));
                    ms.lemma_filter_push(*m, in_group(Some(names@[p]@)));
                    assert(ms.push(*m).filter(in_group(Some(names@[p]@))) == ms.filter(
                        in_group(Some(names@[p]@)),
                    ));
                }
                proof { ms.lemma_filter_push(*m, in_group(None)); }
                assert(derefs(ungrouped@) == matches@.take(i + 1).filter(in_group(None)));
                assert(named_sections_ok(matches@.take(i + 1), groups@, names@));
            },
            Some(g) => {
                let key = chars_of(g.as_str());
                let p = find_section(&names, &key);
                if p < names.len() && !lex_less(&key, &names[p]) {
                    proof {
                        lemma_lex_total(names@[p as int]@, key@);
                    }
                    let mut section = groups.remove(p);
                    let ghost h0 = section.hosts@;
                    section.hosts.push(m);
                    groups.insert(p, section);
                    proof {
                        assert(groups@ =~= g0.update(p as int, groups@[p as int]));
                        lemma_hosts_before_update(g0, p as int, groups@[p as int], g0.len() as int);
                    }
                    assert(derefs(groups@[p as int].hosts@) =~= derefs(h0).push(*m));
                    proof {
                        ms.lemma_filter_push(*m, in_group(Some(names@[p as int]@)));
                        assert(names@[p as int]@ == key@);
                    }
                    assert forall|q: int| #![trigger groups@[q]] 0 <= q < groups.len() && q != p implies derefs(
                        groups@[q].hosts@,
                    ) == matches@.take(i + 1).filter(in_group(Some(names@[q]@))) by {
                        assert(groups@[q] == g0[q]);
                        if q < p {
                            assert(lex_lt(names@[q]@, names@[p as int]@));
                        } else {
                            assert(lex_lt(names@[p as int]@, names@[q]@));
                        }
                        crate::text::lemma_lex_irreflexive(names@[p as int]@);
                        assert(!in_group(Some(names@[q]@))(*m));
                        ms.lemma_filter_push(*m, in_group(Some(names@[q]@)));
                        assert(ms.push(*m).filter(in_group(Some(names@[q]@))) == ms.filter(
                            in_group(Some(names@[q]@)),
                        ));
                    }
                } else {
                    proof {
                        if p < names.len() {
                            lemma_lex_total(names@[p as int]@, key@);
                        }
                        assert forall|j: int| 0 <= j < ms.len() implies !in_group(Some(key@))(
                            #[trigger] ms[j],
                        ) by {
                            if in_group(Some(key@))(ms[j]) {
                                let q = choose|q: int|
                                    0 <= q < n0.len() && Some((#[trigger] n0[q])@) == group_key(
                                        ms[j].host.group,
                                    );
                                if q < p {
                                    crate::text::lemma_lex_irreflexive(key@);
                                } else {
                                    if q > p {
                                        lemma_lex_transitive(key@, n0[p as int]@, n0[q]@);
                                    }
                                    crate::text::lemma_lex_irreflexive(key@);
                                }
                            }
                        }
                        ms.lemma_all_neg_filter_empty(in_group(Some(key@)));
                    }
                    let label_string = g.clone();
                    let mut hosts: Vec<&'a HostMatch<'a>> = Vec::new();
                    hosts.push(m);
                    groups.insert(p, GroupedHost { group_name: Some(label_string), hosts, show_header: true });
                    names.insert(p, key);
                    proof {
                        lemma_hosts_before_insert(g0, p as int, groups@[p as int], g0.len() as int);
                    }
                    assert(derefs(groups@[p as int].hosts@) =~= seq![*m]);
                    assert(ms.filter(in_group(Some(key@))).push(*m) =~= seq![*m]);
                    proof {
                        ms.lemma_filter_push(*m, in_group(Some(key@)));
                    }
                    assert forall|q: int| #![trigger groups@[q]] 0 <= q < groups.len() && q != p implies derefs(
                        groups@[q].hosts@,
                    ) == matches@.take(i + 1).filter(in_group(Some(names@[q]@))) by {
                        let q0 = if q < p { q } else { q - 1 };
                        assert(groups@[q] == g0[q0]);
                        assert(names@[q] == n0[q0]);
                        if q0 > p {
                            lemma_lex_transitive(key@, n0[p as int]@, n0[q0]@);
                        }
                        crate::text::lemma_lex_irreflexive(key@);
                        assert(!in_group(Some(names@[q]@))(*m));
                        ms.lemma_filter_push(*m, in_group(Some(names@[q]@)));
                        assert(ms.push(*m).filter(in_group(Some(names@[q]@))) == ms.filter(
                            in_group(Some(names@[q]@)),
                        ));
                    }
                    assert forall|a: int, b: int| 0 <= a < b < names.len() implies lex_lt(
                        (#[trigger] names@[a])@,
                        (#[trigger] names@[b])@,
                    ) by {
                        let a0 = if a < p { a } else { a - 1 };
                        let b0 = if b < p { b } else { b - 1 };
                        if a == p && b > p {
                            if b0 > p {
                                lemma_lex_transitive(key@, n0[p as int]@, n0[b0]@);
                            }
                        }
                    }
                }
                assert forall|j: int|
                    0 <= j < matches@.take(i + 1).len() && (#[trigger] matches@.take(i + 1)[j]).host.group is Some
                    implies exists|q: int|
                    0 <= q < names.len() && Some((#[trigger] names@[q])@) == group_key(
                        matches@.take(i + 1)[j].host.group,
                    ) by {
                    if j < i {
                        assert(matches@.take(i + 1)[j] == ms[j]);
                        let q0 = choose|q: int|
                            0 <= q < n0.len() && Some((#[trigger] n0[q])@) == group_key(ms[j].host.group);
                        if names.len() == n0.len() {
                            assert(names@[q0] == n0[q0]);
                        } else if q0 < p {
                            assert(names@[q0] == n0[q0]);
                        } else {
                            assert(names@[q0 + 1] == n0[q0]);
                        }
                    } else {
                        assert(names@[p as int]@ == key@);
                    }
                }
                proof { ms.lemma_filter_push(*m, in_group(None)); }
                assert(derefs(ungrouped@) == matches@.take(i + 1).filter(in_group(None)));
                assert(named_sections_ok(matches@.take(i + 1), groups@, names@));
            },
        }
        i = i + 1;
    }
    assert(matches@.take(matches@.len() as int) =~= matches@);
    let ghost k = groups.len();
    let ghost g_named = groups@;
    if ungrouped.len() > 0 {
        groups.push(GroupedHost { group_name: None, hosts: ungrouped, show_header: has_any_groups });
        proof {
            lemma_hosts_before_prefix(groups@, g_named, k as int);
        }
    }
    proof {
        let r = groups@;
        let ms = matches@;
        assert(named_count(ms, r) == k);
        assert forall|j: int|
            0 <= j < ms.len() && (#[trigger] ms[j]).host.group is Some implies exists|q: int|
            0 <= q < k && group_key((#[trigger] r[q]).group_name) == group_key(ms[j].host.group) by {
            let q = choose|q: int| 0 <= q < names@.len() && Some((#[trigger] names@[q])@) == group_key(ms[j].host.group);
            assert(r[q] == groups@[q]);
        }
        assert forall|a: int, b: int| 0 <= a < b < k implies lex_lt(
            label((#[trigger] r[a]).group_name),
            label((#[trigger] r[b]).group_name),
        ) by {
            assert(lex_lt(names@[a]@, names@[b]@));
        }
    }
    groups
}

/// `hosts_before` looks only at the sizes of the first `n` sections.
proof fn lemma_hosts_before_prefix<'a>(a: Seq<GroupedHost<'a>>, b: Seq<GroupedHost<'a>>, n: int)
    requires
        n <= a.len(),
        n <= b.len(),
        forall|i: int| 0 <= i < n ==> (#[trigger] a[i]).hosts@.len() == b[i].hosts@.len(),
    ensures
        hosts_before(a, n) == hosts_before(b, n),
    decreases n,
{
    if n > 0 {
        lemma_hosts_before_prefix(a, b, n - 1);
    }
}

/// Replacing section `p` changes the count by the change in its size.
proof fn lemma_hosts_before_update<'a>(gs: Seq<GroupedHost<'a>>, p: int, g: GroupedHost<'a>, n: int)
    requires
        0 <= p < n <= gs.len(),
    ensures
        hosts_before(gs.update(p, g), n) == hosts_before(gs, n) + g.hosts@.len() - gs[p].hosts@.len(),
    decreases n,
{
    if n - 1 == p {
        lemma_hosts_before_prefix(gs.update(p, g), gs, p);
    } else {
        lemma_hosts_before_update(gs, p, g, n - 1);
    }
}

/// Inserting section `g` at `p` adds its size to the count.
proof fn lemma_hosts_before_insert<'a>(gs: Seq<GroupedHost<'a>>, p: int, g: GroupedHost<'a>, n: int)
    requires
        0 <= p <= n <= gs.len(),
    ensures
        hosts_before(gs.insert(p, g), n + 1) == hosts_before(gs, n) + g.hosts@.len(),
    decreases n,
{
    if n == p {
        lemma_hosts_before_prefix(gs.insert(p, g), gs, p);
    } else {
        lemma_hosts_before_insert(gs, p, g, n - 1);
    }
}

/// The count of hosts grows with the number of sections.
proof fn lemma_hosts_before_mono<'a>(gs: Seq<GroupedHost<'a>>, a: int, b: int)
    requires
        0 <= a <= b,
    ensures
        0 <= hosts_before(gs, a) <= hosts_before(gs, b),
    decreases b,
{
    if a < b {
        lemma_hosts_before_mono(gs, a, b - 1);
    } else if a > 0 {
        lemma_hosts_before_mono(gs, a - 1, a - 1);
    }
}

/// The hosts of the first `n` sections, section after section: the order in
/// which the host list shows them and in which the selection counts them.
pub open spec fn display_hosts<'a>(gs: Seq<GroupedHost<'a>>, n: int) -> Seq<HostMatch<'a>>
    decreases n,
{
    if n <= 0 {
        Seq::empty()
    } else {
        display_hosts(gs, n - 1) + derefs(gs[n - 1].hosts@)
    }
}

/// The matches in the order the host list shows them: the hosts of their
/// grouping, section after section.
pub open spec fn display_order<'a>(ms: Seq<HostMatch<'a>>) -> Seq<HostMatch<'a>> {
    let (r, a) = choose|r: Seq<GroupedHost<'a>>, a: bool| #[trigger] is_grouping(ms, a, r);
    display_hosts(r, r.len() as int)
}

/// The listed hosts are as many as the sections hold.
proof fn lemma_display_hosts_len<'a>(gs: Seq<GroupedHost<'a>>, n: int)
    requires
        0 <= n,
    ensures
        display_hosts(gs, n).len() == hosts_before(gs, n),
    decreases n,
{
    if n > 0 {
        lemma_display_hosts_len(gs, n - 1);
    }
}

/// Host `j` of section `i` is host `hosts_before(gs, i) + j` of the list.
proof fn lemma_display_hosts_at<'a>(gs: Seq<GroupedHost<'a>>, n: int, i: int, j: int)
    requires
        0 <= i < n,
        0 <= j < gs[i].hosts@.len(),
    ensures
        display_hosts(gs, n)[hosts_before(gs, i) + j] == *gs[i].hosts@[j],
    decreases n,
{
    lemma_display_hosts_len(gs, n - 1);
    lemma_hosts_before_mono(gs, i, n - 1);
    if i < n - 1 {
        lemma_display_hosts_at(gs, n - 1, i, j);
        lemma_hosts_before_mono(gs, i + 1, n - 1);
    }
}

/// Section lists whose sections hold the same hosts list the same hosts.
proof fn lemma_display_hosts_eq<'a>(a: Seq<GroupedHost<'a>>, b: Seq<GroupedHost<'a>>, n: int)
    requires
        n <= a.len(),
        n <= b.len(),
        forall|i: int| 0 <= i < n ==> derefs((#[trigger] a[i]).hosts@) == derefs(b[i].hosts@),
    ensures
        display_hosts(a, n) == display_hosts(b, n),
    decreases n,
{
    if n > 0 {
        lemma_display_hosts_eq(a, b, n - 1);
    }
}

/// The host shown at position `n` of the list, counting section after
/// section.
pub fn nth_shown<'a>(grouped: &[GroupedHost<'a>], n: usize) -> (r: &'a HostMatch<'a>)
    requires
        n < hosts_before(grouped@, grouped@.len() as int),
    ensures
        *r == display_hosts(grouped@, grouped@.len() as int)[n as int],
{
    let ghost len = grouped@.len() as int;
    let mut i: usize = 0;
    let mut before: usize = 0;
    loop
        invariant
            i < grouped@.len(),
            before == hosts_before(grouped@, i as int),
            before <= n,
            n < hosts_before(grouped@, len),
            len == grouped@.len(),
        decreases grouped@.len() - i,
    {
        let size = grouped[i].hosts.len();
        if n - before < size {
            proof {
                lemma_display_hosts_at(grouped@, len, i as int, (n - before) as int);
            }
            return grouped[i].hosts[n - before];
        }
        before = before + size;
        i = i + 1;
        if i >= grouped.len() {
            assert(i as int == len);
            assert(false);
        }
    }
}

/// A grouping's named sections as their names.
pub open spec fn section_names<'a>(ms: Seq<HostMatch<'a>>, r: Seq<GroupedHost<'a>>) -> Seq<Seq<char>> {
    Seq::new(named_count(ms, r) as nat, |i: int| label(r[i].group_name))
}

/// Whether some match belongs to group `x`.
pub open spec fn group_occurs<'a>(ms: Seq<HostMatch<'a>>, x: Seq<char>) -> bool {
    exists|j: int| 0 <= j < ms.len() && group_key((#[trigger] ms[j]).host.group) == Some(x)
}

/// Whether names come in strictly increasing order.
pub open spec fn strictly_sorted(s: Seq<Seq<char>>) -> bool {
    forall|p: int, q: int| 0 <= p < q < s.len() ==> lex_lt(#[trigger] s[p], #[trigger] s[q])
}

/// A grouping names exactly the groups that occur among the matches.
proof fn lemma_section_names<'a>(ms: Seq<HostMatch<'a>>, a: bool, r: Seq<GroupedHost<'a>>, x: Seq<char>)
    requires
        is_grouping(ms, a, r),
    ensures
        section_names(ms, r).contains(x) <==> group_occurs(ms, x),
        strictly_sorted(section_names(ms, r)),
{
    broadcast use vstd::seq_lib::group_filter_ensures;

    let names = section_names(ms, r);
    let k = named_count(ms, r);
    if names.contains(x) {
        let i = choose|i: int| 0 <= i < names.len() && names[i] == x;
        assert(r[i].group_name is Some);
        let f = ms.filter(in_group(group_key(r[i].group_name)));
        assert(derefs(r[i].hosts@).len() > 0);
        assert(f.len() > 0);
        assert(f.contains(f[0]));
        ms.lemma_filter_contains_rev(in_group(group_key(r[i].group_name)), f[0]);
        assert(in_group(group_key(r[i].group_name))(f[0]));
        let j = choose|j: int| 0 <= j < ms.len() && ms[j] == f[0];
        assert(group_key(ms[j].host.group) == Some(x));
    }
    if group_occurs(ms, x) {
        let j = choose|j: int| 0 <= j < ms.len() && group_key((#[trigger] ms[j]).host.group) == Some(x);
        assert(ms[j].host.group is Some);
        let i = choose|i: int| 0 <= i < k && group_key((#[trigger] r[i]).group_name) == group_key(ms[j].host.group);
        assert(names[i] == x);
    }
    assert forall|p: int, q: int| 0 <= p < q < names.len() implies lex_lt(#[trigger] names[p], #[trigger] names[q]) by {
        assert(lex_lt(label(r[p].group_name), label(r[q].group_name)));
    }
}

/// Two strictly sorted lists of names with the same members are equal.
proof fn lemma_sorted_unique(a: Seq<Seq<char>>, b: Seq<Seq<char>>)
    requires
        strictly_sorted(a),
        strictly_sorted(b),
        forall|x: Seq<char>| a.contains(x) <==> b.contains(x),
    ensures
        a == b,
    decreases a.len(),
{
    if a.len() == 0 {
        if b.len() > 0 {
            assert(b.contains(b[0]));
        }
        assert(a =~= b);
    } else {
        assert(a.contains(a[0]));
        assert(b.contains(b[0]));
        let i = choose|i: int| 0 <= i < a.len() && a[i] == b[0];
        let j = choose|j: int| 0 <= j < b.len() && b[j] == a[0];
        if i > 0 && j > 0 {
            assert(lex_lt(a[0], a[i]));
            assert(lex_lt(b[0], b[j]));
            crate::text::lemma_lex_asymmetric(a[0], b[0]);
        }
        assert(a[0] == b[0]);
        let a1 = a.drop_first();
        let b1 = b.drop_first();
        assert forall|x: Seq<char>| a1.contains(x) <==> b1.contains(x) by {
            if a1.contains(x) {
                let k = choose|k: int| 0 <= k < a1.len() && a1[k] == x;
                assert(a[k + 1] == x);
                assert(lex_lt(a[0], a[k + 1]));
                crate::text::lemma_lex_irreflexive(x);
                assert(b.contains(x));
                let m = choose|m: int| 0 <= m < b.len() && b[m] == x;
                assert(m != 0);
                assert(b1[m - 1] == x);
            }
            if b1.contains(x) {
                let k = choose|k: int| 0 <= k < b1.len() && b1[k] == x;
                assert(b[k + 1] == x);
                assert(lex_lt(b[0], b[k + 1]));
                crate::text::lemma_lex_irreflexive(x);
                assert(a.contains(x));
                let m = choose|m: int| 0 <= m < a.len() && a[m] == x;
                assert(m != 0);
                assert(a1[m - 1] == x);
            }
        }
        assert(strictly_sorted(a1)) by {
            assert forall|p: int, q: int| 0 <= p < q < a1.len() implies lex_lt(#[trigger] a1[p], #[trigger] a1[q]) by {
                assert(a1[p] == a[p + 1] && a1[q] == a[q + 1]);
            }
        }
        assert(strictly_sorted(b1)) by {
            assert forall|p: int, q: int| 0 <= p < q < b1.len() implies lex_lt(#[trigger] b1[p], #[trigger] b1[q]) by {
                assert(b1[p] == b[p + 1] && b1[q] == b[q + 1]);
            }
        }
        lemma_sorted_unique(a1, b1);
        assert(a =~= seq![a[0]] + a1);
        assert(b =~= seq![b[0]] + b1);
    }
}

/// Whether headers are shown does not change the grouping: any two
/// groupings of the same matches (in particular with and without the
/// "Other" header) have the same sections, with the same names and the same
/// hosts, in the same order.
pub proof fn law_grouping_independent_of_headers<'a>(
    ms: Seq<HostMatch<'a>>,
    a1: bool,
    r1: Seq<GroupedHost<'a>>,
    a2: bool,
    r2: Seq<GroupedHost<'a>>,
)
    requires
        is_grouping(ms, a1, r1),
        is_grouping(ms, a2, r2),
    ensures
        r1.len() == r2.len(),
        forall|i: int|
            0 <= i < r1.len() ==> group_key((#[trigger] r1[i]).group_name) == group_key(r2[i].group_name)
                && derefs(r1[i].hosts@) == derefs(r2[i].hosts@),
{
    let n1 = section_names(ms, r1);
    let n2 = section_names(ms, r2);
    assert forall|x: Seq<char>| n1.contains(x) <==> n2.contains(x) by {
        lemma_section_names(ms, a1, r1, x);
        lemma_section_names(ms, a2, r2, x);
    }
    lemma_section_names(ms, a1, r1, Seq::empty());
    lemma_section_names(ms, a2, r2, Seq::empty());
    lemma_sorted_unique(n1, n2);
    let k = named_count(ms, r1);
    assert(n1.len() == n2.len());
    assert forall|i: int| 0 <= i < r1.len() implies group_key((#[trigger] r1[i]).group_name) == group_key(
        r2[i].group_name,
    ) && derefs(r1[i].hosts@) == derefs(r2[i].hosts@) by {
        if i < k {
            assert(n1[i] == n2[i]);
            assert(r1[i].group_name is Some && r2[i].group_name is Some);
        }
    }
}

/// Sections with the same names, headers and hosts give the same lines.
proof fn lemma_flat_items_eq<'a>(a: Seq<GroupedHost<'a>>, b: Seq<GroupedHost<'a>>, n: int, sel: int)
    requires
        0 <= n <= a.len(),
        n <= b.len(),
        forall|i: int|
            0 <= i < n ==> group_key((#[trigger] a[i]).group_name) == group_key(b[i].group_name)
                && a[i].show_header == b[i].show_header && derefs(a[i].hosts@) == derefs(b[i].hosts@),
    ensures
        flat_items(a, n, sel) == flat_items(b, n, sel),
        hosts_before(a, n) == hosts_before(b, n),
    decreases n,
{
    if n > 0 {
        lemma_flat_items_eq(a, b, n - 1, sel);
        let ga = a[n - 1];
        let gb = b[n - 1];
        assert(ga.hosts@.len() == derefs(ga.hosts@).len());
        assert(gb.hosts@.len() == derefs(gb.hosts@).len());
        let off = hosts_before(a, n - 1);
        assert forall|j: int| 0 <= j < ga.hosts@.len() implies *ga.hosts@[j] == *gb.hosts@[j] by {
            assert(derefs(ga.hosts@)[j] == derefs(gb.hosts@)[j]);
        }
        assert(section_items(ga, off, sel) =~= section_items(gb, off, sel));
    }
}

/// Any two groupings of the same matches with the same header choice show
/// the same lines.
pub proof fn lemma_groupings_same_lines<'a>(
    ms: Seq<HostMatch<'a>>,
    a: bool,
    r1: Seq<GroupedHost<'a>>,
    r2: Seq<GroupedHost<'a>>,
    sel: int,
)
    requires
        is_grouping(ms, a, r1),
        is_grouping(ms, a, r2),
    ensures
        all_items(r1, sel) == all_items(r2, sel),
{
    law_grouping_independent_of_headers(ms, a, r1, a, r2);
    let k1 = named_count(ms, r1);
    assert forall|i: int| 0 <= i < r1.len() implies group_key((#[trigger] r1[i]).group_name) == group_key(
        r2[i].group_name,
    ) && r1[i].show_header == r2[i].show_header && derefs(r1[i].hosts@) == derefs(r2[i].hosts@) by {
        if i < k1 {
            assert(r1[i].show_header);
            assert(named_count(ms, r2) == k1);
            assert(r2[i].show_header);
        }
    }
    lemma_flat_items_eq(r1, r2, r1.len() as int, sel);
}

/// Every grouping of the matches lists them in `display_order`, all of them.
pub proof fn lemma_display_order<'a>(ms: Seq<HostMatch<'a>>, a: bool, r: Seq<GroupedHost<'a>>)
    requires
        is_grouping(ms, a, r),
    ensures
        display_order(ms) == display_hosts(r, r.len() as int),
        display_order(ms).len() == ms.len(),
{
    assert(exists|r2: Seq<GroupedHost<'a>>, b: bool| #[trigger] is_grouping(ms, b, r2));
    let (r2, b) = choose|r2: Seq<GroupedHost<'a>>, b: bool| #[trigger] is_grouping(ms, b, r2);
    law_grouping_independent_of_headers(ms, a, r, b, r2);
    lemma_display_hosts_eq(r, r2, r.len() as int);
    lemma_display_hosts_len(r, r.len() as int);
}

/// One line of the host list: a section header (`None`: the "Other"
/// header) or a host, marked if it is the selected one.
pub enum RenderItem<'a> {
    GroupHeader(Option<String>),
    Host { match_item: &'a HostMatch<'a>, is_selected: bool },
}

/// A display line as a value: the header's name as characters, or the
/// host's match and whether it is selected.
pub enum ItemView<'a> {
    Header(Option<Seq<char>>),
    Host(HostMatch<'a>, bool),
}

/// The value of a display line.
pub open spec fn item_view<'a>(it: RenderItem<'a>) -> ItemView<'a> {
    match it {
        RenderItem::GroupHeader(o) => ItemView::Header(group_key(o)),
        RenderItem::Host { match_item, is_selected } => ItemView::Host(*match_item, is_selected),
    }
}

/// The values of display lines.
pub open spec fn items_view<'a>(s: Seq<RenderItem<'a>>) -> Seq<ItemView<'a>> {
    s.map_values(|it: RenderItem<'a>| item_view(it))
}

/// The number of hosts in the first `n` sections.
pub open spec fn hosts_before<'a>(gs: Seq<GroupedHost<'a>>, n: int) -> int
    decreases n,
{
    if n <= 0 {
        0
    } else {
        hosts_before(gs, n - 1) + gs[n - 1].hosts@.len()
    }
}

/// The lines of one section, top to bottom: its header if shown, then its
/// hosts; the host with overall index `sel` (counting from `offset` for this
/// section's first host) is marked selected.
pub open spec fn section_items<'a>(g: GroupedHost<'a>, offset: int, sel: int) -> Seq<ItemView<'a>> {
    (if g.show_header {
        seq![ItemView::Header(group_key(g.group_name))]
    } else {
        Seq::empty()
    }) + Seq::new(g.hosts@.len(), |j: int| ItemView::Host(*g.hosts@[j], offset + j == sel))
}

/// The lines of the first `n` sections, top to bottom.
pub open spec fn flat_items<'a>(gs: Seq<GroupedHost<'a>>, n: int, sel: int) -> Seq<ItemView<'a>>
    decreases n,
{
    if n <= 0 {
        Seq::empty()
    } else {
        flat_items(gs, n - 1, sel) + section_items(gs[n - 1], hosts_before(gs, n - 1), sel)
    }
}

/// All lines in the order they are drawn, from the bottom of the list
/// upwards: the top-to-bottom lines reversed.
pub open spec fn all_items<'a>(gs: Seq<GroupedHost<'a>>, sel: int) -> Seq<ItemView<'a>> {
    flat_items(gs, gs.len() as int, sel).reverse()
}

/// Whether a line is the selected host.
pub open spec fn is_selected_item(it: ItemView) -> bool {
    match it {
        ItemView::Host(_, b) => b,
        ItemView::Header(_) => false,
    }
}

/// The index of the first selected line at or after `k`, or 0 if there is none.
pub open spec fn first_selected(items: Seq<ItemView>, k: int) -> int
    decreases items.len() - k,
{
    if k < 0 || k >= items.len() {
        0
    } else if is_selected_item(items[k]) {
        k
    } else {
        first_selected(items, k + 1)
    }
}

/// The first line of the window: the window ends at the selected line when
/// that lies beyond the first screenful.
pub open spec fn window_start(sel_idx: int, max: int) -> int {
    if sel_idx >= max {
        sel_idx - (max - 1)
    } else {
        0
    }
}

/// The lines shown, from the bottom up, when `max` lines fit: all of them if
/// they fit; none if no line fits; otherwise `max` lines ending at the
/// selected line, or the first `max` lines while the selected line is among
/// them.
pub open spec fn visible_window<'a>(items: Seq<ItemView<'a>>, max: int) -> Seq<ItemView<'a>> {
    let total = items.len() as int;
    if total <= max {
        items
    } else if max <= 0 {
        Seq::empty()
    } else {
        let start = window_start(first_selected(items, 0), max);
        let end = if start + max < total { start + max } else { total };
        items.subrange(start, end)
    }
}

/// Builds the lines of all sections, top to bottom, marking host `sel`.
fn flatten_sections<'a>(grouped: &[GroupedHost<'a>], sel: usize) -> (r: Vec<RenderItem<'a>>)
    ensures
        items_view(r@) == flat_items(grouped@, grouped@.len() as int, sel as int),
{
    let mut flat: Vec<RenderItem<'a>> = Vec::new();
    let mut index: usize = 0;
    let mut i: usize = 0;
    while i < grouped.len()
        invariant
            i <= grouped@.len(),
            index == hosts_before(grouped@, i as int),
            index <= flat.len(),
            items_view(flat@) == flat_items(grouped@, i as int, sel as int),
        decreases grouped@.len() - i,
    {
        let group = &grouped[i];
        let ghost before = items_view(flat@);
        if group.show_header {
            let name = match &group.group_name {
                Some(n) => Some(n.clone()),
                None => None,
            };
            let ghost prev = flat@;
            flat.push(RenderItem::GroupHeader(name));
            assert(items_view(flat@) =~= items_view(prev).push(
                ItemView::Header(group_key(group.group_name)),
            ));
        }
        let ghost with_header = items_view(flat@);
        assert(with_header =~= before + (if group.show_header {
            seq![ItemView::Header(group_key(group.group_name))]
        } else {
            Seq::empty()
        }));
        let mut j: usize = 0;
        while j < group.hosts.len()
            invariant
                j <= group.hosts@.len(),
                group == grouped@[i as int],
                i < grouped@.len(),
                index == hosts_before(grouped@, i as int) + j,
                index <= flat.len(),
                items_view(flat@) == with_header + Seq::new(
                    j as nat,
                    |k: int| ItemView::Host(*group.hosts@[k], hosts_before(grouped@, i as int) + k == sel),
                ),
            decreases group.hosts@.len() - j,
        {
            let is_selected = index == sel;
            let ghost prev = flat@;
            flat.push(RenderItem::Host { match_item: group.hosts[j], is_selected });
            assert(items_view(flat@) =~= items_view(prev).push(
                ItemView::Host(*group.hosts@[j as int], is_selected),
            ));
            let n = flat.len();
            assert(index < n);
            index = index + 1;
            j = j + 1;
            assert(items_view(flat@) =~= with_header + Seq::new(
                j as nat,
                |k: int| ItemView::Host(*group.hosts@[k], hosts_before(grouped@, i as int) + k == sel),
            ));
        }
        i = i + 1;
        assert(items_view(flat@) =~= flat_items(grouped@, i as int, sel as int));
    }
    flat
}

/// Whether a line is the selected host.
fn is_selected_line(it: &RenderItem) -> (res: bool)
    ensures
        res == is_selected_item(item_view(*it)),
{
    match it {
        RenderItem::Host { is_selected, .. } => *is_selected,
        RenderItem::GroupHeader(_) => false,
    }
}

/// The lines to draw from the bottom of the list upwards: the sections'
/// lines reversed (last section's last host first, each header above its
/// hosts), with host number `selected_flat_index` (in section order) marked,
/// cut to at most `max_visible_lines` lines that keep the selected line in
/// view, as `visible_window` describes; no line when none fits.
pub fn calculate_visible_items<'a>(
    grouped: &[GroupedHost<'a>],
    selected_flat_index: usize,
    max_visible_lines: usize,
) -> (r: Vec<RenderItem<'a>>)
    ensures
        items_view(r@) == visible_window(
            all_items(grouped@, selected_flat_index as int),
            max_visible_lines as int,
        ),
{
    let mut flat = flatten_sections(grouped, selected_flat_index);
    let ghost f = items_view(flat@);
    let ghost n = flat@.len();
    let mut all: Vec<RenderItem<'a>> = Vec::new();
    assert(f.take(n as int) =~= f);
    while flat.len() > 0
        invariant
            all@.len() + flat@.len() == n,
            f.len() == n,
            items_view(flat@) == f.take(flat@.len() as int),
            items_view(all@) == f.reverse().take(all@.len() as int),
        decreases flat@.len(),
    {
        let ghost prev_all = all@;
        let ghost prev_flat = flat@;
        match flat.pop() {
            Some(x) => {
                assert(items_view(prev_flat)[prev_flat.len() - 1] == item_view(
                    prev_flat[prev_flat.len() - 1],
                ));
                assert(item_view(x) == f[prev_flat.len() - 1]);
                all.push(x);
                assert(items_view(all@) =~= f.reverse().take(all@.len() as int));
                assert(items_view(flat@) =~= f.take(flat@.len() as int));
            },
            None => {},
        }
    }
    assert(f.reverse().take(n as int) =~= f.reverse());
    let ghost items = items_view(all@);
    assert(items == all_items(grouped@, selected_flat_index as int));
    let total = all.len();

    let mut k: usize = 0;
    while k < total && !is_selected_line(&all[k])
        invariant
            k <= total,
            total == all@.len(),
            items == items_view(all@),
            first_selected(items, 0) == first_selected(items, k as int),
        decreases total - k,
    {
        assert(items[k as int] == item_view(all@[k as int]));
        k = k + 1;
    }
    let selected_item_index = if k < total {
        assert(items[k as int] == item_view(all@[k as int]));
        k
    } else {
        0
    };
    assert(selected_item_index == first_selected(items, 0));

    if total <= max_visible_lines {
        return all;
    }
    if max_visible_lines == 0 {
        let none: Vec<RenderItem<'a>> = Vec::new();
        assert(items_view(none@) =~= Seq::<ItemView<'a>>::empty());
        return none;
    }
    assert(selected_item_index < total);
    let start_idx = if selected_item_index >= max_visible_lines {
        selected_item_index - (max_visible_lines - 1)
    } else {
        0
    };
    let end_idx = if start_idx + max_visible_lines < total {
        start_idx + max_visible_lines
    } else {
        total
    };
    let mut window = all.split_off(start_idx);
    window.truncate(end_idx - start_idx);
    assert(items_view(window@) =~= items.subrange(start_idx as int, end_idx as int));
    window
}

/// Every host a grouping lists is one of the matches.
pub proof fn lemma_display_hosts_are_matches<'a>(ms: Seq<HostMatch<'a>>, a: bool, r: Seq<GroupedHost<'a>>, n: int)
    requires
        is_grouping(ms, a, r),
        0 <= n <= r.len(),
    ensures
        forall|x: int|
            0 <= x < display_hosts(r, n).len() ==> ms.contains(#[trigger] display_hosts(r, n)[x]),
    decreases n,
{
    if n > 0 {
        lemma_display_hosts_are_matches(ms, a, r, n - 1);
        let d0 = display_hosts(r, n - 1);
        let g = r[n - 1];
        let f = if n - 1 < named_count(ms, r) {
            ms.filter(in_group(group_key(g.group_name)))
        } else {
            ms.filter(in_group(None))
        };
        assert(derefs(g.hosts@) == f);
        assert forall|x: int| 0 <= x < display_hosts(r, n).len() implies ms.contains(
            #[trigger] display_hosts(r, n)[x],
        ) by {
            if x < d0.len() {
                assert(display_hosts(r, n)[x] == d0[x]);
            } else {
                let e = f[x - d0.len()];
                assert(display_hosts(r, n)[x] == e);
                assert(f.contains(e));
                if n - 1 < named_count(ms, r) {
                    ms.lemma_filter_contains_rev(in_group(group_key(g.group_name)), e);
                } else {
                    ms.lemma_filter_contains_rev(in_group(None), e);
                }
            }
        }
    }
}

/// In the lines of the first `n` sections, only host `sel` of the list is
/// marked, on at most one line, and it is marked when it is one of their
/// hosts.
pub proof fn lemma_flat_selected<'a>(gs: Seq<GroupedHost<'a>>, n: int, sel: int)
    requires
        0 <= n <= gs.len(),
    ensures
        forall|k: int|
            0 <= k < flat_items(gs, n, sel).len() && is_selected_item(#[trigger] flat_items(gs, n, sel)[k])
                ==> 0 <= sel < hosts_before(gs, n) && flat_items(gs, n, sel)[k] == ItemView::Host(
                display_hosts(gs, n)[sel],
                true,
            ),
        forall|k1: int, k2: int|
            0 <= k1 < flat_items(gs, n, sel).len() && 0 <= k2 < flat_items(gs, n, sel).len()
                && is_selected_item(#[trigger] flat_items(gs, n, sel)[k1]) && is_selected_item(
                #[trigger] flat_items(gs, n, sel)[k2],
            ) ==> k1 == k2,
        0 <= sel < hosts_before(gs, n) ==> exists|k: int|
            0 <= k < flat_items(gs, n, sel).len() && is_selected_item(#[trigger] flat_items(gs, n, sel)[k]),
    decreases n,
{
    if n > 0 {
        lemma_flat_selected(gs, n - 1, sel);
        lemma_display_hosts_len(gs, n - 1);
        lemma_hosts_before_mono(gs, n - 1, n - 1);
        let f = flat_items(gs, n - 1, sel);
        let g = gs[n - 1];
        let hb = hosts_before(gs, n - 1);
        let sec = section_items(g, hb, sel);
        let h: int = if g.show_header {
            1
        } else {
            0
        };
        let all = flat_items(gs, n, sel);
        let d0 = display_hosts(gs, n - 1);
        let d = display_hosts(gs, n);
        assert(all == f + sec);
        assert(d == d0 + derefs(g.hosts@));
        assert(sec.len() == h + g.hosts@.len());
        assert forall|j: int| 0 <= j < g.hosts@.len() implies #[trigger] sec[h + j] == ItemView::Host(
            *g.hosts@[j],
            hb + j == sel,
        ) by {}
        assert(h == 1 ==> !is_selected_item(sec[0]));
        assert forall|k: int| 0 <= k < all.len() && is_selected_item(#[trigger] all[k]) implies 0 <= sel
            < hosts_before(gs, n) && all[k] == ItemView::Host(d[sel], true) by {
            if k < f.len() {
                assert(all[k] == f[k]);
                assert(d[sel] == d0[sel]);
            } else {
                let j = k - f.len() - h;
                assert(all[k] == sec[k - f.len()]);
                assert(j >= 0);
                assert(sec[h + j] == all[k]);
                assert(hb + j == sel);
                assert(d[sel] == derefs(g.hosts@)[j]);
            }
        }
        assert forall|k1: int, k2: int|
            0 <= k1 < all.len() && 0 <= k2 < all.len() && is_selected_item(#[trigger] all[k1])
                && is_selected_item(#[trigger] all[k2]) implies k1 == k2 by {
            if k1 >= f.len() {
                assert(all[k1] == sec[k1 - f.len()]);
                assert(k1 - f.len() >= h);
                assert(sec[h + (k1 - f.len() - h)] == all[k1]);
            }
            if k2 >= f.len() {
                assert(all[k2] == sec[k2 - f.len()]);
                assert(k2 - f.len() >= h);
                assert(sec[h + (k2 - f.len() - h)] == all[k2]);
            }
            if k1 < f.len() {
                assert(all[k1] == f[k1]);
            }
            if k2 < f.len() {
                assert(all[k2] == f[k2]);
            }
        }
        if 0 <= sel < hosts_before(gs, n) {
            if sel < hb {
                let k = choose|k: int| 0 <= k < f.len() && is_selected_item(#[trigger] f[k]);
                assert(all[k] == f[k]);
            } else {
                let k = f.len() + h + (sel - hb);
                assert(sec[h + (sel - hb)] == all[k]);
                assert(is_selected_item(all[k]));
            }
        }
    }
}

/// Filtering by a predicate that every element meets keeps everything.
proof fn lemma_filter_all<'a>(s: Seq<HostMatch<'a>>, p: spec_fn(HostMatch<'a>) -> bool)
    requires
        forall|i: int| 0 <= i < s.len() ==> p(#[trigger] s[i]),
    ensures
        s.filter(p) == s,
    decreases s.len(),
{
    broadcast use vstd::seq::Seq::lemma_filter_push;

    if s.len() == 0 {
        assert(s.filter(p) =~= s);
    } else {
        let s0 = s.drop_last();
        assert forall|i: int| 0 <= i < s0.len() implies p(#[trigger] s0[i]) by {
            assert(s0[i] == s[i]);
        }
        lemma_filter_all(s0, p);
        assert(s0.push(s.last()) =~= s);
    }
}

/// Every match is listed in the section of its group (the "Other" section
/// for a match without group).
pub proof fn law_grouping_lists_every_match<'a>(
    ms: Seq<HostMatch<'a>>,
    has_any_groups: bool,
    r: Seq<GroupedHost<'a>>,
    j: int,
)
    requires
        is_grouping(ms, has_any_groups, r),
        0 <= j < ms.len(),
    ensures
        exists|i: int|
            0 <= i < r.len() && group_key((#[trigger] r[i]).group_name) == group_key(ms[j].host.group)
                && derefs(r[i].hosts@).contains(ms[j]),
{
    broadcast use vstd::seq_lib::group_filter_ensures;

    let k = named_count(ms, r);
    if ms[j].host.group is Some {
        let i = choose|i: int| 0 <= i < k && group_key((#[trigger] r[i]).group_name) == group_key(ms[j].host.group);
        assert(in_group(group_key(r[i].group_name))(ms[j]));
        ms.lemma_filter_contains(in_group(group_key(r[i].group_name)), j);
    } else {
        assert(in_group(None)(ms[j]));
        ms.lemma_filter_contains(in_group(None), j);
        assert(ms.filter(in_group(None)).contains(ms[j]));
        assert(ms.filter(in_group(None)).len() > 0);
        assert(group_key(r[k].group_name) == group_key(ms[j].host.group));
    }
}

/// `first_selected` is an index of the lines, or 0.
proof fn lemma_first_selected_range(items: Seq<ItemView>, k: int)
    requires
        0 <= k,
    ensures
        first_selected(items, k) == 0 || (k <= first_selected(items, k) < items.len()),
    decreases items.len() - k,
{
    if k < items.len() && !is_selected_item(items[k]) {
        lemma_first_selected_range(items, k + 1);
    }
}

/// The window never holds more lines than fit.
pub proof fn law_window_fits<'a>(items: Seq<ItemView<'a>>, max: int)
    requires
        max >= 0,
    ensures
        visible_window(items, max).len() <= max,
{
    lemma_first_selected_range(items, 0);
}

/// The first selected line, if there is one, is at `first_selected`.
proof fn lemma_first_selected(items: Seq<ItemView>, k: int, s: int)
    requires
        0 <= k <= s < items.len(),
        is_selected_item(items[s]),
    ensures
        k <= first_selected(items, k) <= s,
        is_selected_item(items[first_selected(items, k)]),
    decreases items.len() - k,
{
    if !is_selected_item(items[k]) {
        lemma_first_selected(items, k + 1, s);
    }
}

/// The selected line stays in view: whenever some line is selected and at
/// least one line fits, the window holds the first selected line.
pub proof fn law_selected_line_visible<'a>(items: Seq<ItemView<'a>>, max: int, s: int)
    requires
        max > 0,
        0 <= s < items.len(),
        is_selected_item(items[s]),
    ensures
        exists|k: int|
            0 <= k < visible_window(items, max).len() && #[trigger] visible_window(items, max)[k]
                == items[first_selected(items, 0)],
{
    lemma_first_selected(items, 0, s);
    let f = first_selected(items, 0);
    let w = visible_window(items, max);
    if items.len() <= max {
        assert(w[f] == items[f]);
    } else {
        let start = window_start(f, max);
        assert(w[f - start] == items[f]);
    }
}

/// With no groups among the matches, the hosts are listed in the order of
/// the matches, so the line marked selected is that of match `sel`, and no
/// other line is marked.
pub proof fn law_marked_line_without_groups<'a>(
    ms: Seq<HostMatch<'a>>,
    has_any_groups: bool,
    r: Seq<GroupedHost<'a>>,
    sel: int,
)
    requires
        is_grouping(ms, has_any_groups, r),
        forall|j: int| 0 <= j < ms.len() ==> (#[trigger] ms[j]).host.group is None,
        0 <= sel < ms.len(),
    ensures
        ({
            let flat = flat_items(r, r.len() as int, sel);
            &&& exists|k: int| 0 <= k < flat.len() && #[trigger] flat[k] == ItemView::Host(ms[sel], true)
            &&& forall|k1: int, k2: int|
                0 <= k1 < flat.len() && 0 <= k2 < flat.len() && is_selected_item(#[trigger] flat[k1])
                    && is_selected_item(#[trigger] flat[k2]) ==> k1 == k2
        }),
{
    lemma_filter_all(ms, in_group(None));
    let k = named_count(ms, r);
    assert(k == r.len() - 1);
    if k > 0 {
        let p = in_group(group_key(r[0].group_name));
        assert forall|i: int| 0 <= i < ms.len() implies !p(#[trigger] ms[i]) by {}
        ms.lemma_all_neg_filter_empty(p);
        assert(derefs(r[0].hosts@).len() == r[0].hosts@.len());
    }
    assert(r.len() == 1);
    let g = r[0];
    assert(derefs(g.hosts@) == ms);
    let flat = flat_items(r, 1, sel);
    assert(flat_items(r, 0, sel) == Seq::<ItemView<'a>>::empty());
    assert(hosts_before(r, 0) == 0);
    let h: int = if g.show_header { 1 } else { 0 };
    assert(flat =~= section_items(g, 0, sel));
    assert(derefs(g.hosts@)[sel] == *g.hosts@[sel]);
    assert(flat[h + sel] == ItemView::Host(ms[sel], true));
    assert forall|k1: int, k2: int|
        0 <= k1 < flat.len() && 0 <= k2 < flat.len() && is_selected_item(#[trigger] flat[k1])
            && is_selected_item(#[trigger] flat[k2]) implies k1 == k2 by {
        assert(k1 >= h && k2 >= h);
        assert(k1 - h == sel && k2 - h == sel);
    }
}

/// The sections come named groups first, in increasing order of name, each
/// with its header, and the hosts without a group last, in one section
/// without a name.
pub proof fn law_sections_in_name_order<'a>(ms: Seq<HostMatch<'a>>, has_any_groups: bool, r: Seq<GroupedHost<'a>>)
    requires
        is_grouping(ms, has_any_groups, r),
    ensures
        forall|i: int, j: int|
            0 <= i < j < r.len() && r[j].group_name is Some ==> (#[trigger] r[i]).group_name is Some
                && lex_lt(label(r[i].group_name), label((#[trigger] r[j]).group_name)),
        forall|i: int| 0 <= i < r.len() && (#[trigger] r[i]).group_name is Some ==> r[i].show_header,
        forall|i: int| 0 <= i < r.len() && (#[trigger] r[i]).group_name is None ==> i == r.len() - 1,
{
    let k = named_count(ms, r);
    assert forall|i: int, j: int|
        0 <= i < j < r.len() && r[j].group_name is Some implies (#[trigger] r[i]).group_name is Some && lex_lt(
        label(r[i].group_name),
        label((#[trigger] r[j]).group_name),
    ) by {
        assert(j < k);
    }
}

} // verus!
