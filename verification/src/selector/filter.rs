//! Ranking hosts against a search query: fuzzy scores from `nucleo_matcher`,
//! best score first, then by lower-cased name, keeping the given order
//! among hosts that tie on both.

use crate::config::SshHost;
use crate::text::{lex_less, lex_lt, lowercase, to_lowercase, chars_of};
use crate::text::{lemma_lex_irreflexive, lemma_lex_transitive, lemma_lex_total, lemma_lex_asymmetric};
use crate::text::{all_ascii, ascii_lower, ascii_upper, lemma_lowercase_idempotent, lemma_lowercase_of_uppercase};
use nucleo_matcher::{Config, Matcher, Utf32Str};
use vstd::prelude::*;

verus! {

/// A host paired with its match score against the current query.
#[derive(Debug, Clone, Copy)]
pub struct HostMatch<'a> {
    pub host: &'a SshHost,
    pub score: u16,
}

/// The key by which names are ordered: the lower-cased name.
pub open spec fn name_key(h: SshHost) -> Seq<char> {
    lowercase(h.name@)
}

/// `a` is listed before `b`: a higher score, or an equal score and a
/// lower-cased name that comes first.
pub open spec fn precedes(a: HostMatch, b: HostMatch) -> bool {
    ||| a.score > b.score
    ||| a.score == b.score && lex_lt(name_key(*a.host), name_key(*b.host))
}

/// `a` and `b` tie: equal scores and equal lower-cased names.
pub open spec fn same_rank(a: HostMatch, b: HostMatch) -> bool {
    a.score == b.score && name_key(*a.host) == name_key(*b.host)
}

/// The matches that tie with `z`.
pub open spec fn rank_class<'a>(z: HostMatch<'a>) -> spec_fn(HostMatch<'a>) -> bool {
    |y: HostMatch<'a>| same_rank(y, z)
}

/// `s` with `x` placed after every element that it does not precede.
pub open spec fn insert_ranked<'a>(s: Seq<HostMatch<'a>>, x: HostMatch<'a>) -> Seq<HostMatch<'a>>
    decreases s.len(),
{
    if s.len() == 0 {
        seq![x]
    } else if precedes(x, s.last()) {
        insert_ranked(s.drop_last(), x).push(s.last())
    } else {
        s.push(x)
    }
}

/// The position at which `insert_ranked` places `x`.
pub open spec fn insert_pos<'a>(s: Seq<HostMatch<'a>>, x: HostMatch<'a>) -> int
    decreases s.len(),
{
    if s.len() == 0 {
        0
    } else if precedes(x, s.last()) {
        insert_pos(s.drop_last(), x)
    } else {
        s.len() as int
    }
}

/// `c` in ranked order: the stable sort of `c` by `precedes`.
pub open spec fn rank<'a>(c: Seq<HostMatch<'a>>) -> Seq<HostMatch<'a>>
    decreases c.len(),
{
    if c.len() == 0 {
        Seq::empty()
    } else {
        insert_ranked(rank(c.drop_last()), c.last())
    }
}

/// No match precedes itself.
pub proof fn lemma_precedes_irreflexive(a: HostMatch)
    ensures
        !precedes(a, a),
{
    lemma_lex_irreflexive(name_key(*a.host));
}

/// Precedence is asymmetric.
pub proof fn lemma_precedes_asymmetric(a: HostMatch, b: HostMatch)
    ensures
        !(precedes(a, b) && precedes(b, a)),
{
    lemma_lex_asymmetric(name_key(*a.host), name_key(*b.host));
}

/// If `a` precedes `c`, then `b` comes after `a` or before `c`, whatever `b` is.
pub proof fn lemma_precedes_split(a: HostMatch, b: HostMatch, c: HostMatch)
    requires
        precedes(a, c),
    ensures
        precedes(a, b) || precedes(b, c),
{
    let ka = name_key(*a.host);
    let kb = name_key(*b.host);
    let kc = name_key(*c.host);
    lemma_lex_total(ka, kb);
    lemma_lex_total(kb, kc);
    if lex_lt(kb, ka) && lex_lt(kc, kb) {
        lemma_lex_transitive(kc, kb, ka);
        lemma_lex_asymmetric(ka, kc);
    }
}

/// Two matches tie exactly when neither precedes the other.
pub proof fn lemma_same_rank_iff(a: HostMatch, b: HostMatch)
    ensures
        same_rank(a, b) <==> (!precedes(a, b) && !precedes(b, a)),
{
    let ka = name_key(*a.host);
    let kb = name_key(*b.host);
    lemma_lex_total(ka, kb);
    lemma_lex_irreflexive(ka);
}

/// `insert_ranked` puts `x` at `insert_pos`, after the elements it does not
/// precede and before those it precedes.
pub proof fn lemma_insert_pos<'a>(s: Seq<HostMatch<'a>>, x: HostMatch<'a>)
    ensures
        0 <= insert_pos(s, x) <= s.len(),
        insert_ranked(s, x) == s.insert(insert_pos(s, x), x),
        insert_pos(s, x) == 0 || !precedes(x, s[insert_pos(s, x) - 1]),
        forall|k: int| insert_pos(s, x) <= k < s.len() ==> precedes(x, #[trigger] s[k]),
    decreases s.len(),
{
    if s.len() == 0 {
        assert(seq![x] =~= s.insert(0, x));
    } else if precedes(x, s.last()) {
        let s0 = s.drop_last();
        lemma_insert_pos(s0, x);
        let p = insert_pos(s0, x);
        assert(insert_ranked(s0, x).push(s.last()) =~= s.insert(p, x));
        assert forall|k: int| p <= k < s.len() implies precedes(x, #[trigger] s[k]) by {
            if k < s.len() - 1 {
                assert(s[k] == s0[k]);
            }
        }
    } else {
        assert(s.push(x) =~= s.insert(s.len() as int, x));
    }
}

/// Any position after the elements that `x` does not precede and before
/// those it precedes is where `insert_ranked` puts `x`.
pub proof fn lemma_insert_pos_unique<'a>(s: Seq<HostMatch<'a>>, x: HostMatch<'a>, j: int)
    requires
        0 <= j <= s.len(),
        j == 0 || !precedes(x, s[j - 1]),
        forall|k: int| j <= k < s.len() ==> precedes(x, #[trigger] s[k]),
    ensures
        insert_ranked(s, x) == s.insert(j, x),
    decreases s.len(),
{
    if s.len() == 0 {
        assert(seq![x] =~= s.insert(0, x));
    } else if j == s.len() {
        assert(s.push(x) =~= s.insert(j, x));
    } else {
        let s0 = s.drop_last();
        assert(precedes(x, s[s.len() - 1]));
        assert forall|k: int| j <= k < s0.len() implies precedes(x, #[trigger] s0[k]) by {
            assert(s0[k] == s[k]);
        }
        lemma_insert_pos_unique(s0, x, j);
        assert(s0.insert(j, x).push(s.last()) =~= s.insert(j, x));
    }
}

/// Every element of a ranked sequence may be listed before each later one.
pub open spec fn is_ranked<'a>(s: Seq<HostMatch<'a>>) -> bool {
    forall|i: int, j: int| 0 <= i < j < s.len() ==> !precedes(#[trigger] s[j], #[trigger] s[i])
}

/// Inserting into a ranked sequence keeps it ranked.
pub proof fn lemma_insert_keeps_ranked<'a>(s: Seq<HostMatch<'a>>, x: HostMatch<'a>)
    requires
        is_ranked(s),
    ensures
        is_ranked(insert_ranked(s, x)),
{
    lemma_insert_pos(s, x);
    let p = insert_pos(s, x);
    let t = insert_ranked(s, x);
    assert forall|i: int, j: int| 0 <= i < j < t.len() implies !precedes(
        #[trigger] t[j],
        #[trigger] t[i],
    ) by {
        if j < p {
            assert(t[i] == s[i] && t[j] == s[j]);
        } else if j == p {
            assert(t[i] == s[i]);
            if i < p - 1 {
                if precedes(x, s[i]) {
                    lemma_precedes_split(x, s[p - 1], s[i]);
                    assert(!precedes(s[p - 1], s[i]));
                }
            }
        } else if i == p {
            assert(t[j] == s[j - 1]);
            lemma_precedes_asymmetric(x, s[j - 1]);
        } else if i < p {
            assert(t[i] == s[i] && t[j] == s[j - 1]);
        } else {
            assert(t[i] == s[i - 1] && t[j] == s[j - 1]);
        }
    }
}

/// `rank` gives a ranked sequence.
pub proof fn lemma_rank_is_ranked<'a>(c: Seq<HostMatch<'a>>)
    ensures
        is_ranked(rank(c)),
    decreases c.len(),
{
    if c.len() > 0 {
        lemma_rank_is_ranked(c.drop_last());
        lemma_insert_keeps_ranked(rank(c.drop_last()), c.last());
    }
}

/// `rank` only reorders: it keeps every element, as often as it occurs.
pub proof fn lemma_rank_permutes<'a>(c: Seq<HostMatch<'a>>)
    ensures
        rank(c).to_multiset() == c.to_multiset(),
    decreases c.len(),
{
    broadcast use vstd::seq_lib::group_to_multiset_ensures;

    if c.len() > 0 {
        let c0 = c.drop_last();
        lemma_rank_permutes(c0);
        lemma_insert_multiset(rank(c0), c.last());
        assert(c0.push(c.last()) =~= c);
    }
}

/// Inserting adds exactly one occurrence of `x`.
pub proof fn lemma_insert_multiset<'a>(s: Seq<HostMatch<'a>>, x: HostMatch<'a>)
    ensures
        insert_ranked(s, x).to_multiset() == s.to_multiset().insert(x),
    decreases s.len(),
{
    broadcast use vstd::seq_lib::group_to_multiset_ensures;

    if s.len() == 0 {
        assert(seq![x] =~= Seq::<HostMatch<'a>>::empty().push(x));
    } else if precedes(x, s.last()) {
        let s0 = s.drop_last();
        lemma_insert_multiset(s0, x);
        assert(s0.push(s.last()) =~= s);
        assert(s0.to_multiset().insert(x).insert(s.last()) =~= s0.to_multiset().insert(
            s.last(),
        ).insert(x));
    }
}

/// Inserting `x` adds `x` at the end of the elements that tie with `z`, if
/// `x` ties with `z`, and leaves them as they are otherwise.
pub proof fn lemma_insert_class<'a>(s: Seq<HostMatch<'a>>, x: HostMatch<'a>, z: HostMatch<'a>)
    ensures
        insert_ranked(s, x).filter(rank_class(z)) == (if same_rank(x, z) {
            s.filter(rank_class(z)).push(x)
        } else {
            s.filter(rank_class(z))
        }),
    decreases s.len(),
{
    broadcast use vstd::seq::Seq::lemma_filter_push;

    let p = rank_class(z);
    if s.len() == 0 {
        assert(seq![x] =~= Seq::<HostMatch<'a>>::empty().push(x));
        assert(Seq::<HostMatch<'a>>::empty().filter(p) =~= Seq::<HostMatch<'a>>::empty());
    } else if precedes(x, s.last()) {
        let s0 = s.drop_last();
        let l = s.last();
        lemma_insert_class(s0, x, z);
        assert(s0.push(l) =~= s);
        if same_rank(x, z) && same_rank(l, z) {
            lemma_same_rank_iff(x, l);
        }
    }
}

/// Ranking keeps the order among the elements that tie with `z`.
pub proof fn lemma_rank_class<'a>(c: Seq<HostMatch<'a>>, z: HostMatch<'a>)
    ensures
        rank(c).filter(rank_class(z)) == c.filter(rank_class(z)),
    decreases c.len(),
{
    broadcast use vstd::seq::Seq::lemma_filter_push;

    if c.len() == 0 {
        assert(rank(c) =~= c);
    } else {
        let c0 = c.drop_last();
        lemma_rank_class(c0, z);
        lemma_insert_class(rank(c0), c.last(), z);
        assert(c0.push(c.last()) =~= c);
    }
}

/// The hosts among the first `n` that have a score, in their given order,
/// each paired with its score.
pub open spec fn scored<'a>(hosts: &'a [SshHost], scores: Seq<Option<u16>>, n: int) -> Seq<
    HostMatch<'a>,
>
    decreases n,
{
    if n <= 0 {
        Seq::empty()
    } else {
        let rest = scored(hosts, scores, n - 1);
        match scores[n - 1] {
            Some(s) => rest.push(HostMatch { host: &hosts[n - 1], score: s }),
            None => rest,
        }
    }
}

/// Whether `a` is listed before `b`, given their lower-cased names.
fn precedes_exec(a: &HostMatch, a_key: &Vec<char>, b: &HostMatch, b_key: &Vec<char>) -> (res: bool)
    requires
        a_key@ == name_key(*a.host),
        b_key@ == name_key(*b.host),
    ensures
        res == precedes(*a, *b),
{
    a.score > b.score || (a.score == b.score && lex_less(a_key, b_key))
}

/// Sorts `c` into ranked order by insertion; `keys[i]` is the lower-cased
/// name of `c[i]`.
fn sort_ranked<'a>(c: &Vec<HostMatch<'a>>, keys: &Vec<Vec<char>>) -> (r: Vec<HostMatch<'a>>)
    requires
        c.len() == keys.len(),
        forall|i: int| 0 <= i < c.len() ==> (#[trigger] keys[i])@ == name_key(*c[i].host),
    ensures
        r@ == rank(c@),
{
    let mut r: Vec<HostMatch<'a>> = Vec::new();
    // `at[k]` is the index in `c` (and `keys`) of `r[k]`
    let mut at: Vec<usize> = Vec::new();
    let mut i: usize = 0;
    while i < c.len()
        invariant
            i <= c.len(),
            c.len() == keys.len(),
            forall|i: int| 0 <= i < c.len() ==> (#[trigger] keys[i])@ == name_key(*c[i].host),
            r@ == rank(c@.take(i as int)),
            at.len() == r.len(),
            forall|k: int| 0 <= k < at.len() ==> (#[trigger] at[k]) < c.len() && c[at[k] as int]
                == r[k],
        decreases c.len() - i,
    {
        let x = c[i];
        let ghost s = r@;
        let mut j = r.len();
        while j > 0 && precedes_exec(&x, &keys[i], &r[j - 1], &keys[at[j - 1]])
            invariant
                0 <= j <= r.len(),
                r@ == s,
                i < c.len(),
                c.len() == keys.len(),
                x == c[i as int],
                forall|i: int| 0 <= i < c.len() ==> (#[trigger] keys[i])@ == name_key(*c[i].host),
                at.len() == r.len(),
                forall|k: int| 0 <= k < at.len() ==> (#[trigger] at[k]) < c.len() && c[at[k] as int]
                    == r[k],
                forall|k: int| j <= k < s.len() ==> precedes(x, #[trigger] s[k]),
            decreases j,
        {
            j = j - 1;
        }
        proof {
            lemma_insert_pos_unique(s, x, j as int);
            assert(c@.take(i + 1).drop_last() =~= c@.take(i as int));
        }
        let ghost at0 = at@;
        r.insert(j, x);
        at.insert(j, i);
        assert forall|k: int| 0 <= k < at.len() implies (#[trigger] at[k]) < c.len() && c[at[k] as int]
            == r[k] by {
            if k < j {
                assert(at[k] == at0[k] && r[k] == s[k]);
            } else if k > j {
                assert(at[k] == at0[k - 1] && r[k] == s[k - 1]);
            }
        }
        i = i + 1;
    }
    assert(c@.take(c.len() as int) =~= c@);
    r
}

/// The score `nucleo_matcher`'s `Matcher::fuzzy_match` gives `needle` in
/// `haystack` under the default configuration (`None`: no match).
pub uninterp spec fn fuzzy_score(haystack: Seq<char>, needle: Seq<char>) -> Option<u16>;

#[verifier::external_type_specification]
#[verifier::external_body]
pub struct ExMatcher(Matcher);

/// A `nucleo_matcher` matcher set up with `Config::DEFAULT`; the
/// configuration cannot change afterwards, as the field is private.
pub(crate) struct FuzzyMatcher {
    matcher: Matcher,
}

impl FuzzyMatcher {
    /// Calls `Matcher::new(Config::DEFAULT)`; nothing is stated of the result.
    #[verifier::external_body]
    pub(crate) fn new() -> (res: FuzzyMatcher) {
        FuzzyMatcher { matcher: Matcher::new(Config::DEFAULT) }
    }

    /// Calls `Matcher::fuzzy_match` with both strings turned into `Utf32Str`
    /// (fresh buffers each time). The score is named `fuzzy_score` of the two
    /// character sequences: the matcher's scratch memory does not influence it
    /// and its configuration is always the default one. The matcher panics on
    /// a haystack of more than `u32::MAX` characters, which the byte-length
    /// bound excludes.
    #[verifier::external_body]
    pub(crate) fn score(&mut self, haystack: &str, needle: &str) -> (res: Option<u16>)
        requires
            vstd::utf8::encode_utf8(haystack@).len() <= u32::MAX,
        ensures
            res == fuzzy_score(haystack@, needle@),
    {
        let mut haystack_buf = Vec::new();
        let mut needle_buf = Vec::new();
        self.matcher.fuzzy_match(
            Utf32Str::new(haystack, &mut haystack_buf),
            Utf32Str::new(needle, &mut needle_buf),
        )
    }
}

/// Every host's lower-cased name is short enough for the matcher.
pub open spec fn fits_matcher(hosts: Seq<SshHost>) -> bool {
    forall|i: int| 0 <= i < hosts.len() ==> vstd::utf8::encode_utf8(
        #[trigger] name_key(hosts[i]),
    ).len() <= u32::MAX
}

/// The score of each host against the lower-cased query `q`.
pub open spec fn query_scores(hosts: Seq<SshHost>, q: Seq<char>) -> Seq<Option<u16>> {
    Seq::new(hosts.len(), |i: int| fuzzy_score(name_key(hosts[i]), q))
}

/// A score of 0 for each of `n` hosts.
pub open spec fn zero_scores(n: nat) -> Seq<Option<u16>> {
    Seq::new(n, |i: int| Some(0u16))
}

/// What `filter_and_rank_hosts` returns: with an empty query every host,
/// scored 0, ordered by lower-cased name; otherwise the hosts that match the
/// lower-cased query, best score first, then by lower-cased name. Ties keep
/// the order of `hosts`.
pub open spec fn ranked_hosts<'a>(hosts: &'a [SshHost], query: Seq<char>) -> Seq<HostMatch<'a>> {
    if query.len() == 0 {
        rank(scored(hosts, zero_scores(hosts@.len()), hosts@.len() as int))
    } else {
        rank(scored(hosts, query_scores(hosts@, lowercase(query)), hosts@.len() as int))
    }
}

/// Ranks the hosts that have a score: `scores[i]` is the score of
/// `hosts[i]`, `None` where it does not match.
pub fn rank_matches<'a>(hosts: &'a [SshHost], scores: &Vec<Option<u16>>) -> (r: Vec<HostMatch<'a>>)
    requires
        hosts@.len() == scores.len(),
    ensures
        r@ == rank(scored(hosts, scores@, hosts@.len() as int)),
{
    let mut c: Vec<HostMatch<'a>> = Vec::new();
    let mut keys: Vec<Vec<char>> = Vec::new();
    let mut i: usize = 0;
    while i < hosts.len()
        invariant
            i <= hosts@.len(),
            hosts@.len() == scores.len(),
            c@ == scored(hosts, scores@, i as int),
            c.len() == keys.len(),
            forall|k: int| 0 <= k < c.len() ==> (#[trigger] keys[k])@ == name_key(*c[k].host),
        decreases hosts@.len() - i,
    {
        match scores[i] {
            Some(s) => {
                let lower = to_lowercase(hosts[i].name.as_str());
                c.push(HostMatch { host: &hosts[i], score: s });
                keys.push(chars_of(lower.as_str()));
            },
            None => {},
        }
        i = i + 1;
    }
    sort_ranked(&c, &keys)
}

/// Filters and ranks `hosts` against `query`. With an empty query every
/// host is returned with score 0, ordered by lower-cased name; otherwise the
/// hosts whose lower-cased name fuzzy-matches the lower-cased query, by
/// descending score and then by lower-cased name. Hosts that tie on both keep
/// their order in `hosts`.
pub fn filter_and_rank_hosts<'a>(hosts: &'a [SshHost], query: &str) -> (r: Vec<HostMatch<'a>>)
    requires
        query@.len() > 0 ==> fits_matcher(hosts@),
    ensures
        r@ == ranked_hosts(hosts, query@),
{
    let mut scores: Vec<Option<u16>> = Vec::new();
    if query.is_empty() {
        let mut i: usize = 0;
        while i < hosts.len()
            invariant
                i <= hosts@.len(),
                scores@ == zero_scores(i as nat),
            decreases hosts@.len() - i,
        {
            scores.push(Some(0u16));
            i = i + 1;
            assert(scores@ =~= zero_scores(i as nat));
        }
        return rank_matches(hosts, &scores);
    }
    let mut matcher = FuzzyMatcher::new();
    let query_lower = to_lowercase(query);
    let mut i: usize = 0;
    while i < hosts.len()
        invariant
            i <= hosts@.len(),
            fits_matcher(hosts@),
            query_lower@ == lowercase(query@),
            scores@ == query_scores(hosts@, lowercase(query@)).take(i as int),
        decreases hosts@.len() - i,
    {
        let host_lower = to_lowercase(hosts[i].name.as_str());
        assert(name_key(hosts@[i as int]) == host_lower@);
        let s = matcher.score(host_lower.as_str(), query_lower.as_str());
        scores.push(s);
        i = i + 1;
        assert(scores@ =~= query_scores(hosts@, lowercase(query@)).take(i as int));
    }
    assert(scores@ =~= query_scores(hosts@, lowercase(query@)));
    rank_matches(hosts, &scores)
}

/// Whether every host's lower-cased name is short enough for the matcher.
pub fn hosts_fit_matcher(hosts: &[SshHost]) -> (res: bool)
    ensures
        res == fits_matcher(hosts@),
{
    let mut i: usize = 0;
    while i < hosts.len()
        invariant
            i <= hosts@.len(),
            forall|k: int| 0 <= k < i ==> vstd::utf8::encode_utf8(
                #[trigger] name_key(hosts@[k]),
            ).len() <= u32::MAX,
        decreases hosts@.len() - i,
    {
        let lower = to_lowercase(hosts[i].name.as_str());
        if lower.as_str().as_bytes().len() > 4294967295usize {
            assert(name_key(hosts@[i as int]) == lower@);
            return false;
        }
        i = i + 1;
    }
    true
}

/// Like `filter_and_rank_hosts`, but answers `None`, where that function
/// may not be called, when some lower-cased host name is too long for the
/// matcher (a non-empty query only).
pub fn try_filter_and_rank_hosts<'a>(hosts: &'a [SshHost], query: &str) -> (r: Option<
    Vec<HostMatch<'a>>,
>)
    ensures
        r is None <==> (query@.len() > 0 && !fits_matcher(hosts@)),
        r matches Some(v) ==> v@ == ranked_hosts(hosts, query@),
{
    if !query.is_empty() && !hosts_fit_matcher(hosts) {
        return None;
    }
    Some(filter_and_rank_hosts(hosts, query))
}

/// The scores to rank by for `query`: all 0 for an empty query, otherwise
/// the fuzzy scores against the lower-cased query.
pub open spec fn scores_for(hosts: Seq<SshHost>, query: Seq<char>) -> Seq<Option<u16>> {
    if query.len() == 0 {
        zero_scores(hosts.len())
    } else {
        query_scores(hosts, lowercase(query))
    }
}

/// An element of `scored` is one of the hosts, paired with its score.
pub proof fn lemma_scored_members<'a>(hosts: &'a [SshHost], scores: Seq<Option<u16>>, n: int, k: int)
    requires
        0 <= n <= hosts@.len(),
        n <= scores.len(),
        0 <= k < scored(hosts, scores, n).len(),
    ensures
        exists|i: int|
            0 <= i < n && *scored(hosts, scores, n)[k].host == hosts@[i] && scores[i] == Some(
                #[trigger] scored(hosts, scores, n)[k].score,
            ),
    decreases n,
{
    let rest = scored(hosts, scores, n - 1);
    if k < rest.len() {
        lemma_scored_members(hosts, scores, n - 1, k);
        let i = choose|i: int|
            0 <= i < n - 1 && *rest[k].host == hosts@[i] && scores[i] == Some(#[trigger] rest[k].score);
        assert(scored(hosts, scores, n)[k] == rest[k]);
        assert(0 <= i < n && *scored(hosts, scores, n)[k].host == hosts@[i] && scores[i] == Some(
            scored(hosts, scores, n)[k].score,
        ));
    } else {
        assert(0 <= n - 1 < n && *scored(hosts, scores, n)[k].host == hosts@[n - 1]);
    }
}

/// With every score present, `scored` pairs each host, in order, with its score.
pub proof fn lemma_scored_all<'a>(hosts: &'a [SshHost], n: int)
    requires
        0 <= n <= hosts@.len(),
    ensures
        scored(hosts, zero_scores(hosts@.len()), n).len() == n,
        forall|k: int|
            0 <= k < n ==> *(#[trigger] scored(hosts, zero_scores(hosts@.len()), n)[k]).host
                == hosts@[k] && scored(hosts, zero_scores(hosts@.len()), n)[k].score == 0,
    decreases n,
{
    if n > 0 {
        lemma_scored_all(hosts, n - 1);
        let rest = scored(hosts, zero_scores(hosts@.len()), n - 1);
        assert forall|k: int| 0 <= k < n - 1 implies (#[trigger] scored(
            hosts,
            zero_scores(hosts@.len()),
            n,
        )[k]) == rest[k] by {}
    }
}

/// The hosts that `filter_and_rank_hosts` returns are listed so that no host
/// precedes one listed before it: by descending score, then by lower-cased name.
pub proof fn law_ranked_in_order<'a>(hosts: &'a [SshHost], query: Seq<char>)
    ensures
        is_ranked(ranked_hosts(hosts, query)),
{
    lemma_rank_is_ranked(scored(hosts, scores_for(hosts@, query), hosts@.len() as int));
}

/// `filter_and_rank_hosts` drops no matching host and adds none: its result
/// holds the scored hosts, each as often as in `hosts`.
pub proof fn law_ranked_keeps_matches<'a>(hosts: &'a [SshHost], query: Seq<char>)
    ensures
        ranked_hosts(hosts, query).to_multiset() == scored(
            hosts,
            scores_for(hosts@, query),
            hosts@.len() as int,
        ).to_multiset(),
{
    lemma_rank_permutes(scored(hosts, scores_for(hosts@, query), hosts@.len() as int));
}

/// Every listed host is one of `hosts`, and its score is the one it got for
/// the query: 0 for an empty query, otherwise its fuzzy score, which exists.
pub proof fn law_ranked_hosts_matched<'a>(hosts: &'a [SshHost], query: Seq<char>, k: int)
    requires
        0 <= k < ranked_hosts(hosts, query).len(),
    ensures
        exists|i: int|
            0 <= i < hosts@.len() && *ranked_hosts(hosts, query)[k].host == hosts@[i]
                && scores_for(hosts@, query)[i] == Some(
                #[trigger] ranked_hosts(hosts, query)[k].score,
            ),
{
    broadcast use vstd::seq_lib::group_to_multiset_ensures;

    let c = scored(hosts, scores_for(hosts@, query), hosts@.len() as int);
    let r = ranked_hosts(hosts, query);
    lemma_rank_permutes(c);
    assert(r.to_multiset().count(r[k]) > 0);
    assert(c.contains(r[k]));
    let j = choose|j: int| 0 <= j < c.len() && c[j] == r[k];
    lemma_scored_members(hosts, scores_for(hosts@, query), hosts@.len() as int, j);
}

/// Hosts that tie on score and lower-cased name keep their relative order
/// from `hosts`.
pub proof fn law_ranked_stable<'a>(hosts: &'a [SshHost], query: Seq<char>, z: HostMatch<'a>)
    ensures
        ranked_hosts(hosts, query).filter(rank_class(z)) == scored(
            hosts,
            scores_for(hosts@, query),
            hosts@.len() as int,
        ).filter(rank_class(z)),
{
    lemma_rank_class(scored(hosts, scores_for(hosts@, query), hosts@.len() as int), z);
}

/// With an empty query every host is listed, with score 0.
pub proof fn law_empty_query_lists_all<'a>(hosts: &'a [SshHost])
    ensures
        ranked_hosts(hosts, Seq::empty()).len() == hosts@.len(),
        forall|i: int|
            #![trigger hosts@[i]]
            0 <= i < hosts@.len() ==> exists|k: int|
                0 <= k < hosts@.len() && *ranked_hosts(hosts, Seq::empty())[k].host == hosts@[i]
                    && #[trigger] ranked_hosts(hosts, Seq::empty())[k].score == 0,
{
    broadcast use vstd::seq_lib::group_to_multiset_ensures;

    let n = hosts@.len() as int;
    let c = scored(hosts, zero_scores(hosts@.len()), n);
    let r = ranked_hosts(hosts, Seq::empty());
    lemma_scored_all(hosts, n);
    lemma_rank_permutes(c);
    assert(r.len() == c.len()) by {
        r.to_multiset_ensures();
        c.to_multiset_ensures();
    }
    assert forall|i: int| #![trigger hosts@[i]] 0 <= i < hosts@.len() implies exists|k: int|
        0 <= k < hosts@.len() && *r[k].host == hosts@[i] && #[trigger] r[k].score == 0 by {
        assert(c[i].score == 0);
        assert(c.to_multiset().count(c[i]) > 0);
        assert(r.contains(c[i]));
        let k = choose|k: int| 0 <= k < r.len() && r[k] == c[i];
        assert(r[k].score == 0);
    }
}

/// Queries with the same lower-case form give the same result.
pub proof fn law_query_case_insensitive<'a>(hosts: &'a [SshHost], q1: Seq<char>, q2: Seq<char>)
    requires
        q1.len() > 0,
        q2.len() > 0,
        lowercase(q1) == lowercase(q2),
    ensures
        ranked_hosts(hosts, q1) == ranked_hosts(hosts, q2),
{
}

/// Letter case does not matter for an ASCII query: its upper-case and its
/// lower-case forms list the same hosts, in the same order, with the same
/// scores as the query itself.
pub proof fn law_ascii_query_case<'a>(hosts: &'a [SshHost], q: Seq<char>)
    requires
        q.len() > 0,
        all_ascii(q),
    ensures
        ranked_hosts(hosts, q.map_values(|c: char| ascii_upper(c))) == ranked_hosts(hosts, q),
        ranked_hosts(hosts, q.map_values(|c: char| ascii_lower(c))) == ranked_hosts(hosts, q),
{
    lemma_lowercase_of_uppercase(q);
    law_query_case_insensitive(hosts, q.map_values(|c: char| ascii_upper(c)), q);
    lemma_lowercase_idempotent(q);
    law_query_case_insensitive(hosts, q.map_values(|c: char| ascii_lower(c)), q);
}

} // verus!
