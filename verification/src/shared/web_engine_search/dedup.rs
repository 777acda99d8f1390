//! Dedup and consensus merge.
//!
//! Raw provider hits fold into groups keyed by URL identity; each group
//! becomes one merged result.

use vstd::prelude::*;
use crate::foreign::{parse_url, UrlParts};
use crate::shared::types::search::{MergedResult, SearchProvider, SearchResult};
use crate::text::{begins_with, blank, bytes_in, chars_of, comes_before, copied, finishes_with,
    index_in, same_text, string_of, text_from, trimmed};
#[allow(unused_imports)]
use crate::foreign::{lowercase, parsed_url, UrlView};
#[allow(unused_imports)]
use crate::shared::types::search::{provider_priority, Hit, Merged};
#[allow(unused_imports)]
use crate::text::{byte_len, first_index, is_blank, lemma_first_index, lemma_views_empty,
    lemma_precedes_total, lemma_precedes_transitive, lemma_views_push, opt_view, precedes, trim,
    views};

verus! {

/// The host without one leading `www.`.
pub open spec fn bare_host(host: Seq<char>) -> Seq<char> {
    if "www."@.is_prefix_of(host) {
        host.skip(4)
    } else {
        host
    }
}

/// The path without one trailing slash; the root path is empty.
pub open spec fn bare_path(path: Seq<char>) -> Seq<char> {
    if "/"@.is_suffix_of(path) {
        path.drop_last()
    } else {
        path
    }
}

/// The identity of a URL: host without `www.`, path without one trailing
/// slash, the query as it is, no scheme, no port, no fragment.
pub open spec fn url_identity(
    host: Seq<char>,
    path: Seq<char>,
    query: Option<Seq<char>>,
) -> Seq<char> {
    let base = bare_host(host) + bare_path(path);
    match query {
        None => base,
        Some(q) => base + "?"@ + q,
    }
}

/// The key under which results of one URL fold together. Text that is no URL
/// with a host is its own key.
pub open spec fn result_key(raw: Seq<char>) -> Seq<char> {
    match parsed_url(trim(raw)) {
        Some(UrlView { host: Some(host), path, query, .. }) => url_identity(
            lowercase(host),
            path,
            query,
        ),
        _ => trim(raw),
    }
}

/// The identity of a URL from its lowercase host, its path and its query.
pub fn identity_of(host: &str, path: &str, query: &Option<String>) -> (r: String)
    ensures
        r@ == url_identity(host@, path@, opt_view(*query)),
{
    proof {
        reveal_strlit("www.");
        reveal_strlit("/");
    }
    let mut key = if begins_with(host, "www.") {
        text_from(host, 4)
    } else {
        host.to_owned()
    };
    if finishes_with(path, "/") {
        let chars = chars_of(path);
        let bare = string_of(chars.as_slice(), 0, chars.len() - 1);
        assert(bare@ =~= path@.drop_last());
        key.append(bare.as_str());
    } else {
        key.append(path);
    }
    match query {
        Some(q) => {
            key.append("?");
            key.append(q.as_str());
        },
        None => {},
    }
    key
}

/// The normalised identity of a result URL. Total: text that does not parse
/// as a URL with a host comes back trimmed.
pub fn dedup_key(raw: &str) -> (r: String)
    ensures
        r@ == result_key(raw@),
{
    let text = trimmed(raw);
    match parse_url(text.as_str()) {
        Some(UrlParts { host: Some(host), path, query, .. }) => {
            let lower = host.as_str().to_lowercase();
            identity_of(lower.as_str(), path.as_str(), &query)
        },
        _ => text,
    }
}

/// The queries of the hits that are not in `queries`, each once, in the order
/// in which they first occur.
pub open spec fn strangers(hits: Seq<Hit>, queries: Seq<Seq<char>>) -> Seq<Seq<char>>
    decreases hits.len(),
{
    if hits.len() == 0 {
        Seq::empty()
    } else {
        let before = strangers(hits.drop_last(), queries);
        let q = hits.last().query;
        if queries.contains(q) || before.contains(q) {
            before
        } else {
            before.push(q)
        }
    }
}

/// The order in which the queries' legs are folded: the input order, then the
/// queries that only the hits know.
pub open spec fn query_order(hits: Seq<Hit>, queries: Seq<Seq<char>>) -> Seq<Seq<char>> {
    queries + strangers(hits, queries)
}

/// The hits of one provider whose query has its first place in `order` at
/// `slot`, in the order in which they came.
pub open spec fn leg_hits(
    hits: Seq<Hit>,
    provider: SearchProvider,
    order: Seq<Seq<char>>,
    slot: nat,
) -> Seq<Hit>
    decreases hits.len(),
{
    if hits.len() == 0 {
        Seq::empty()
    } else {
        let before = leg_hits(hits.drop_last(), provider, order, slot);
        let h = hits.last();
        if h.provider == provider && first_index(order, h.query) == slot {
            before.push(h)
        } else {
            before
        }
    }
}

/// The hits of one provider on the first `n` queries of `order`, leg by leg.
pub open spec fn provider_hits(
    hits: Seq<Hit>,
    provider: SearchProvider,
    order: Seq<Seq<char>>,
    n: nat,
) -> Seq<Hit>
    decreases n,
{
    if n == 0 {
        Seq::empty()
    } else {
        provider_hits(hits, provider, order, (n - 1) as nat) + leg_hits(
            hits,
            provider,
            order,
            (n - 1) as nat,
        )
    }
}

/// The hits in merge order: the legs of Startpage in query order, then those
/// of DuckDuckGo, never the order of arrival.
pub open spec fn merge_order(hits: Seq<Hit>, queries: Seq<Seq<char>>) -> Seq<Hit> {
    let order = query_order(hits, queries);
    provider_hits(hits, SearchProvider::Startpage, order, order.len()) + provider_hits(
        hits,
        SearchProvider::DuckDuckGo,
        order,
        order.len(),
    )
}

/// The providers with one more, which goes behind those that do not come
/// later in the merge order.
pub open spec fn insert_provider(
    ps: Seq<SearchProvider>,
    p: SearchProvider,
) -> Seq<SearchProvider>
    decreases ps.len(),
{
    if ps.len() > 0 && provider_priority(p) < provider_priority(ps.last()) {
        insert_provider(ps.drop_last(), p).push(ps.last())
    } else {
        ps.push(p)
    }
}

/// The queries with one more, which goes behind those that do not sort after
/// it.
pub open spec fn insert_query(qs: Seq<Seq<char>>, q: Seq<char>) -> Seq<Seq<char>>
    decreases qs.len(),
{
    if qs.len() > 0 && precedes(q, qs.last()) {
        insert_query(qs.drop_last(), q).push(qs.last())
    } else {
        qs.push(q)
    }
}

/// The group of a single hit.
pub open spec fn new_group(key: Seq<char>, h: Hit) -> Merged {
    Merged {
        title: h.title,
        canonical_url: key,
        display_url: h.url,
        snippet: h.snippet,
        providers: seq![h.provider],
        queries: seq![h.query],
        best_rank: h.rank,
        hit_count: 1,
        published_date: h.published_date,
    }
}

/// A group with one more hit: a better rank takes over title and URL, a
/// longer snippet takes over, the first date stays.
pub open spec fn fold_hit(g: Merged, h: Hit) -> Merged {
    let better = h.rank < g.best_rank;
    Merged {
        title: if better {
            h.title
        } else {
            g.title
        },
        canonical_url: g.canonical_url,
        display_url: if better {
            h.url
        } else {
            g.display_url
        },
        snippet: if byte_len(h.snippet) > byte_len(g.snippet) {
            h.snippet
        } else {
            g.snippet
        },
        providers: if g.providers.contains(h.provider) {
            g.providers
        } else {
            insert_provider(g.providers, h.provider)
        },
        queries: if g.queries.contains(h.query) {
            g.queries
        } else {
            insert_query(g.queries, h.query)
        },
        best_rank: if better {
            h.rank
        } else {
            g.best_rank
        },
        hit_count: g.hit_count + 1,
        published_date: if g.published_date is None {
            h.published_date
        } else {
            g.published_date
        },
    }
}

/// The keys of the groups.
pub open spec fn group_keys(groups: Seq<Merged>) -> Seq<Seq<char>> {
    Seq::new(groups.len(), |i: int| groups[i].canonical_url)
}

/// The groups with one more hit. A hit without a key falls away.
pub open spec fn add_hit(groups: Seq<Merged>, h: Hit) -> Seq<Merged> {
    let key = result_key(h.url);
    let i = first_index(group_keys(groups), key);
    if is_blank(key) {
        groups
    } else if i < groups.len() {
        groups.update(i as int, fold_hit(groups[i as int], h))
    } else {
        groups.push(new_group(key, h))
    }
}

/// The groups of the hits, in the order in which they were opened.
pub open spec fn group_hits(hits: Seq<Hit>) -> Seq<Merged>
    decreases hits.len(),
{
    if hits.len() == 0 {
        Seq::empty()
    } else {
        add_hit(group_hits(hits.drop_last()), hits.last())
    }
}

/// Consensus rank: more providers first, then the lower rank, then the
/// display URL.
pub open spec fn outranks(a: Merged, b: Merged) -> bool {
    if a.providers.len() != b.providers.len() {
        a.providers.len() > b.providers.len()
    } else if a.best_rank != b.best_rank {
        a.best_rank < b.best_rank
    } else {
        precedes(a.display_url, b.display_url)
    }
}

/// The ranking with one more group.
pub open spec fn insert_ranked(ranking: Seq<Merged>, g: Merged) -> Seq<Merged>
    decreases ranking.len(),
{
    if ranking.len() > 0 && outranks(g, ranking.last()) {
        insert_ranked(ranking.drop_last(), g).push(ranking.last())
    } else {
        ranking.push(g)
    }
}

/// The groups by consensus rank.
pub open spec fn ranked(groups: Seq<Merged>) -> Seq<Merged>
    decreases groups.len(),
{
    if groups.len() == 0 {
        Seq::empty()
    } else {
        insert_ranked(ranked(groups.drop_last()), groups.last())
    }
}

/// The merged results of the hits of a fan-out over `queries`.
pub open spec fn merged(hits: Seq<Hit>, queries: Seq<Seq<char>>) -> Seq<Merged> {
    ranked(group_hits(merge_order(hits, queries)))
}

/// The queries that only the hits know, in the order of first sight.
fn unknown_queries(results: &[SearchResult], queries: &[String]) -> (r: Vec<String>)
    ensures
        views(r@) == strangers(views(results@), views(queries@)),
{
    broadcast use {lemma_views_push, lemma_views_empty};

    let ghost hits = views(results@);
    let ghost qs = views(queries@);
    let mut out: Vec<String> = Vec::new();
    let mut i: usize = 0;
    while i < results.len()
        invariant
            i <= results@.len(),
            hits == views(results@),
            qs == views(queries@),
            views(out@) == strangers(hits.take(i as int), qs),
        decreases results@.len() - i,
    {
        proof {
            assert(hits.take(i + 1).drop_last() =~= hits.take(i as int));
            assert(hits.take(i + 1).last() == results@[i as int]@);
            lemma_first_index(qs, results@[i as int].query@);
            lemma_first_index(views(out@), results@[i as int].query@);
        }
        let q = results[i].query.as_str();
        if index_in(queries, q) == queries.len() && index_in(out.as_slice(), q) == out.len() {
            out.push(results[i].query.clone());
        }
        i += 1;
    }
    assert(hits.take(i as int) =~= hits);
    out
}

/// Adds the hits of one leg, in the order in which they came.
fn push_leg(
    out: &mut Vec<SearchResult>,
    results: &[SearchResult],
    provider: SearchProvider,
    slots: &[u128],
    slot: u128,
    Ghost(order): Ghost<Seq<Seq<char>>>,
)
    requires
        slots@.len() == results@.len(),
        forall|i: int|
            0 <= i < slots@.len() ==> #[trigger] slots@[i] == first_index(
                order,
                results@[i].query@,
            ),
    ensures
        views(final(out)@) == views(old(out)@) + leg_hits(
            views(results@),
            provider,
            order,
            slot as nat,
        ),
{
    broadcast use {lemma_views_push, lemma_views_empty};

    let ghost hits = views(results@);
    let ghost start = views(out@);
    let mut i: usize = 0;
    assert(start =~= start + leg_hits(hits.take(0), provider, order, slot as nat));
    while i < results.len()
        invariant
            i <= results@.len(),
            hits == views(results@),
            slots@.len() == results@.len(),
            forall|i: int|
                0 <= i < slots@.len() ==> #[trigger] slots@[i] == first_index(
                    order,
                    results@[i].query@,
                ),
            views(out@) == start + leg_hits(hits.take(i as int), provider, order, slot as nat),
        decreases results@.len() - i,
    {
        assert(hits.take(i + 1).drop_last() =~= hits.take(i as int));
        assert(hits.take(i + 1).last() == results@[i as int]@);
        let ghost before = leg_hits(hits.take(i as int), provider, order, slot as nat);
        let ghost next = leg_hits(hits.take(i + 1), provider, order, slot as nat);
        if results[i].provider == provider && slots[i] == slot {
            let copy = results[i].clone();
            let ghost so_far = out@;
            out.push(copy);
            assert(views(out@) == views(so_far).push(copy@));
            assert(next == before.push(copy@));
        }
        i += 1;
        assert(views(out@) =~= start + leg_hits(
            hits.take(i as int),
            provider,
            order,
            slot as nat,
        ));
    }
    assert(hits.take(i as int) =~= hits);
}

/// Adds the hits of one provider, leg by leg.
fn push_provider(
    out: &mut Vec<SearchResult>,
    results: &[SearchResult],
    provider: SearchProvider,
    slots: &[u128],
    n: u128,
    Ghost(order): Ghost<Seq<Seq<char>>>,
)
    requires
        slots@.len() == results@.len(),
        forall|i: int|
            0 <= i < slots@.len() ==> #[trigger] slots@[i] == first_index(
                order,
                results@[i].query@,
            ),
    ensures
        views(final(out)@) == views(old(out)@) + provider_hits(
            views(results@),
            provider,
            order,
            n as nat,
        ),
{
    let ghost hits = views(results@);
    let ghost start = views(out@);
    let mut slot: u128 = 0;
    assert(start =~= start + provider_hits(hits, provider, order, 0));
    while slot < n
        invariant
            slot <= n,
            hits == views(results@),
            slots@.len() == results@.len(),
            forall|i: int|
                0 <= i < slots@.len() ==> #[trigger] slots@[i] == first_index(
                    order,
                    results@[i].query@,
                ),
            views(out@) == start + provider_hits(hits, provider, order, slot as nat),
        decreases n - slot,
    {
        push_leg(out, results, provider, slots, slot, Ghost(order));
        slot += 1;
        assert(views(out@) =~= start + provider_hits(hits, provider, order, slot as nat));
    }
}

/// The hits in merge order.
fn in_merge_order(results: &[SearchResult], queries: &[String]) -> (r: Vec<SearchResult>)
    ensures
        views(r@) == merge_order(views(results@), views(queries@)),
{
    let extra = unknown_queries(results, queries);
    let ghost hits = views(results@);
    let ghost order = query_order(hits, views(queries@));
    let mut slots: Vec<u128> = Vec::new();
    let mut i: usize = 0;
    while i < results.len()
        invariant
            i <= results@.len(),
            hits == views(results@),
            views(extra@) == strangers(hits, views(queries@)),
            order == query_order(hits, views(queries@)),
            slots@.len() == i,
            forall|j: int|
                0 <= j < i ==> #[trigger] slots@[j] == first_index(order, results@[j].query@),
        decreases results@.len() - i,
    {
        let q = results[i].query.as_str();
        let known: usize = index_in(queries, q);
        proof {
            lemma_first_index_concat(views(queries@), views(extra@), q@);
            lemma_first_index(views(extra@), q@);
        }
        if known < queries.len() {
            slots.push(known as u128);
        } else {
            let place: usize = index_in(extra.as_slice(), q);
            slots.push(queries.len() as u128 + place as u128);
        }
        i += 1;
    }
    proof {
        lemma_views_empty(Seq::<SearchResult>::empty());
    }
    let n: u128 = queries.len() as u128 + extra.len() as u128;
    let mut out: Vec<SearchResult> = Vec::new();
    push_provider(&mut out, results, SearchProvider::Startpage, slots.as_slice(), n, Ghost(order));
    push_provider(&mut out, results, SearchProvider::DuckDuckGo, slots.as_slice(), n, Ghost(order));
    assert(views(out@) =~= merge_order(hits, views(queries@)));
    out
}

proof fn lemma_first_index_concat(a: Seq<Seq<char>>, b: Seq<Seq<char>>, x: Seq<char>)
    ensures
        first_index(a + b, x) == if first_index(a, x) < a.len() {
            first_index(a, x)
        } else {
            a.len() + first_index(b, x)
        },
    decreases a.len(),
{
    if a.len() == 0 {
        assert(a + b =~= b);
    } else if a[0] != x {
        assert((a + b).drop_first() =~= a.drop_first() + b);
        lemma_first_index_concat(a.drop_first(), b, x);
    }
}

proof fn lemma_insert_provider(ps: Seq<SearchProvider>, p: SearchProvider, i: int)
    requires
        0 <= i <= ps.len(),
        forall|j: int|
            i <= j < ps.len() ==> provider_priority(p) < provider_priority(#[trigger] ps[j]),
        i > 0 ==> !(provider_priority(p) < provider_priority(ps[i - 1])),
    ensures
        insert_provider(ps, p) == ps.insert(i, p),
    decreases ps.len(),
{
    if i == ps.len() {
        assert(ps.insert(i, p) =~= ps.push(p));
    } else {
        assert(provider_priority(p) < provider_priority(ps.last()));
        let front = ps.drop_last();
        assert forall|j: int| i <= j < front.len() implies provider_priority(p)
            < provider_priority(#[trigger] front[j]) by {
            assert(ps[j] == front[j]);
        }
        lemma_insert_provider(front, p, i);
        assert(front.insert(i, p).push(ps.last()) =~= ps.insert(i, p));
    }
}

fn add_provider(ps: &mut Vec<SearchProvider>, p: SearchProvider)
    ensures
        final(ps)@ == if old(ps)@.contains(p) {
            old(ps)@
        } else {
            insert_provider(old(ps)@, p)
        },
{
    let mut k: usize = 0;
    while k < ps.len()
        invariant
            k <= ps@.len(),
            ps@ == old(ps)@,
            forall|j: int| 0 <= j < k ==> ps@[j] != p,
        decreases ps@.len() - k,
    {
        if ps[k] == p {
            assert(ps@.contains(p));
            return ;
        }
        k += 1;
    }
    let mut i: usize = ps.len();
    while i > 0 && p.priority() < ps[i - 1].priority()
        invariant
            0 <= i <= ps@.len(),
            ps@ == old(ps)@,
            forall|j: int|
                i <= j < ps@.len() ==> provider_priority(p) < provider_priority(
                    #[trigger] ps@[j],
                ),
        decreases i,
    {
        i -= 1;
    }
    proof {
        lemma_insert_provider(ps@, p, i as int);
    }
    ps.insert(i, p);
}

proof fn lemma_insert_query(qs: Seq<Seq<char>>, q: Seq<char>, i: int)
    requires
        0 <= i <= qs.len(),
        forall|j: int| i <= j < qs.len() ==> precedes(q, #[trigger] qs[j]),
        i > 0 ==> !precedes(q, qs[i - 1]),
    ensures
        insert_query(qs, q) == qs.insert(i, q),
    decreases qs.len(),
{
    if i == qs.len() {
        assert(qs.insert(i, q) =~= qs.push(q));
    } else {
        assert(precedes(q, qs.last()));
        let front = qs.drop_last();
        assert forall|j: int| i <= j < front.len() implies precedes(q, #[trigger] front[j]) by {
            assert(qs[j] == front[j]);
        }
        lemma_insert_query(front, q, i);
        assert(front.insert(i, q).push(qs.last()) =~= qs.insert(i, q));
    }
}

fn add_query(qs: &mut Vec<String>, q: &String)
    ensures
        views(final(qs)@) == if views(old(qs)@).contains(q@) {
            views(old(qs)@)
        } else {
            insert_query(views(old(qs)@), q@)
        },
{
    proof {
        lemma_first_index(views(qs@), q@);
    }
    if index_in(qs.as_slice(), q.as_str()) < qs.len() {
        return ;
    }
    let mut i: usize = qs.len();
    while i > 0 && comes_before(q.as_str(), qs[i - 1].as_str())
        invariant
            0 <= i <= qs@.len(),
            qs@ == old(qs)@,
            forall|j: int| i <= j < qs@.len() ==> precedes(q@, #[trigger] views(qs@)[j]),
        decreases i,
    {
        i -= 1;
    }
    proof {
        if i > 0 {
            assert(views(qs@)[i - 1] == qs@[i - 1]@);
        }
        lemma_insert_query(views(qs@), q@, i as int);
    }
    let ghost before = qs@;
    let copy = q.clone();
    qs.insert(i, copy);
    assert(views(qs@) =~= views(before).insert(i as int, q@));
}

/// Folds one more hit into a group.
fn fold_into(g: &mut MergedResult, row: &SearchResult)
    requires
        old(g).hit_count < usize::MAX,
    ensures
        final(g)@ == fold_hit(old(g)@, row@),
{
    add_provider(&mut g.providers, row.provider);
    add_query(&mut g.queries, &row.query);
    if row.rank < g.best_rank {
        g.best_rank = row.rank;
        g.title = row.title.clone();
        g.display_url = row.url.clone();
    }
    if bytes_in(row.snippet.as_str()) > bytes_in(g.snippet.as_str()) {
        g.snippet = row.snippet.clone();
    }
    if g.published_date.is_none() {
        g.published_date = copied(&row.published_date);
    }
    g.hit_count = g.hit_count + 1;
}

/// The place of the group with this key, or the number of groups.
fn group_place(groups: &Vec<MergedResult>, key: &str) -> (r: usize)
    ensures
        r == first_index(group_keys(views(groups@)), key@),
{
    let ghost keys = group_keys(views(groups@));
    proof {
        lemma_first_index(keys, key@);
    }
    let mut i: usize = 0;
    while i < groups.len()
        invariant
            i <= groups@.len(),
            keys == group_keys(views(groups@)),
            keys.len() == groups@.len(),
            forall|j: int| 0 <= j < i ==> keys[j] != key@,
            first_index(keys, key@) <= keys.len(),
            first_index(keys, key@) < keys.len() ==> keys[first_index(keys, key@) as int] == key@,
            forall|j: int| 0 <= j < first_index(keys, key@) ==> #[trigger] keys[j] != key@,
        decreases groups@.len() - i,
    {
        if same_text(groups[i].canonical_url.as_str(), key) {
            assert(keys[i as int] == key@);
            return i;
        }
        assert(keys[i as int] == groups@[i as int].canonical_url@);
        i += 1;
    }
    i
}

/// Adds one hit to the groups.
fn add_row(groups: &mut Vec<MergedResult>, row: &SearchResult)
    requires
        forall|i: int| 0 <= i < old(groups)@.len() ==> old(groups)@[i].hit_count < usize::MAX,
    ensures
        views(final(groups)@) == add_hit(views(old(groups)@), row@),
{
    let key = dedup_key(row.url.as_str());
    if blank(key.as_str()) {
        return ;
    }
    let i: usize = group_place(groups, key.as_str());
    proof {
        lemma_first_index(group_keys(views(groups@)), key@);
    }
    let ghost before = groups@;
    if i < groups.len() {
        fold_into(&mut groups[i], row);
        assert(views(groups@) =~= views(before).update(i as int, fold_hit(before[i as int]@, row@)));
    } else {
        let fresh = MergedResult {
            title: row.title.clone(),
            canonical_url: key,
            display_url: row.url.clone(),
            snippet: row.snippet.clone(),
            providers: vec![row.provider],
            queries: vec![row.query.clone()],
            best_rank: row.rank,
            hit_count: 1,
            published_date: copied(&row.published_date),
        };
        proof {
            assert(fresh.providers@ =~= seq![row.provider]);
            assert(views(fresh.queries@) =~= seq![row.query@]);
            assert(fresh@ =~= new_group(key@, row@));
            lemma_views_push(before, fresh);
        }
        groups.push(fresh);
    }
}

/// The groups of the hits, in the order in which they were opened.
fn group_rows(rows: &Vec<SearchResult>) -> (r: Vec<MergedResult>)
    ensures
        views(r@) == group_hits(views(rows@)),
{
    let ghost hits = views(rows@);
    let mut groups: Vec<MergedResult> = Vec::new();
    proof {
        lemma_views_empty(groups@);
    }
    let mut i: usize = 0;
    while i < rows.len()
        invariant
            i <= rows@.len(),
            hits == views(rows@),
            views(groups@) == group_hits(hits.take(i as int)),
        decreases rows@.len() - i,
    {
        proof {
            assert(hits.take(i + 1).drop_last() =~= hits.take(i as int));
            assert(hits.take(i + 1).last() == rows@[i as int]@);
            lemma_hit_count_bound(hits.take(i as int));
            assert forall|k: int| 0 <= k < groups@.len() implies groups@[k].hit_count
                < usize::MAX by {
                assert(views(groups@)[k] == groups@[k]@);
            }
        }
        add_row(&mut groups, &rows[i]);
        i += 1;
    }
    assert(hits.take(i as int) =~= hits);
    groups
}

proof fn lemma_hit_count_bound(hits: Seq<Hit>)
    ensures
        forall|i: int|
            0 <= i < group_hits(hits).len() ==> (#[trigger] group_hits(hits)[i]).hit_count
                <= hits.len(),
    decreases hits.len(),
{
    if hits.len() > 0 {
        let before = group_hits(hits.drop_last());
        lemma_hit_count_bound(hits.drop_last());
        lemma_first_index(group_keys(before), result_key(hits.last().url));
        assert forall|i: int| 0 <= i < group_hits(hits).len() implies (#[trigger] group_hits(
            hits,
        )[i]).hit_count <= hits.len() by {
            if i < before.len() {
                assert(before[i].hit_count <= hits.len() - 1);
            }
        }
    }
}

/// Whether `a` comes before `b` in the ranking.
fn ranks_above(a: &MergedResult, b: &MergedResult) -> (r: bool)
    ensures
        r == outranks(a@, b@),
{
    if a.providers.len() != b.providers.len() {
        a.providers.len() > b.providers.len()
    } else if a.best_rank != b.best_rank {
        a.best_rank < b.best_rank
    } else {
        comes_before(a.display_url.as_str(), b.display_url.as_str())
    }
}

proof fn lemma_insert_ranked(ranking: Seq<Merged>, g: Merged, i: int)
    requires
        0 <= i <= ranking.len(),
        forall|j: int| i <= j < ranking.len() ==> outranks(g, #[trigger] ranking[j]),
        i > 0 ==> !outranks(g, ranking[i - 1]),
    ensures
        insert_ranked(ranking, g) == ranking.insert(i, g),
    decreases ranking.len(),
{
    if i == ranking.len() {
        assert(ranking.insert(i, g) =~= ranking.push(g));
    } else {
        assert(outranks(g, ranking.last()));
        let front = ranking.drop_last();
        assert forall|j: int| i <= j < front.len() implies outranks(g, #[trigger] front[j]) by {
            assert(ranking[j] == front[j]);
        }
        lemma_insert_ranked(front, g, i);
        assert(front.insert(i, g).push(ranking.last()) =~= ranking.insert(i, g));
    }
}

/// The groups by consensus rank.
fn rank_groups(groups: Vec<MergedResult>) -> (r: Vec<MergedResult>)
    ensures
        views(r@) == ranked(views(groups@)),
{
    let ghost all = views(groups@);
    let ghost source = groups@;
    let mut out: Vec<MergedResult> = Vec::new();
    proof {
        lemma_views_empty(out@);
    }
    for g in it: groups
        invariant
            it.seq() == source,
            all == views(source),
            views(out@) == ranked(all.take(it.index() as int)),
    {
        let ghost n = it.index() as int;
        let mut i: usize = out.len();
        while i > 0 && ranks_above(&g, &out[i - 1])
            invariant
                0 <= i <= out@.len(),
                forall|j: int| i <= j < out@.len() ==> outranks(g@, #[trigger] views(out@)[j]),
            decreases i,
        {
            i -= 1;
        }
        proof {
            assert(all.take(n + 1).drop_last() =~= all.take(n));
            assert(all.take(n + 1).last() == g@);
            if i > 0 {
                assert(views(out@)[i - 1] == out@[i - 1]@);
            }
            lemma_insert_ranked(views(out@), g@, i as int);
        }
        let ghost before = out@;
        let ghost gv = g@;
        out.insert(i, g);
        assert(views(out@) =~= views(before).insert(i as int, gv));
    }
    assert(all.take(all.len() as int) =~= all);
    out
}

/// Folds hits into merged results. `queries[i]` is the query of leg `i`; hits
/// whose query is not among them come after, in the order of first sight.
pub fn merge_sources_in_order(results: Vec<SearchResult>, queries: &[String]) -> (r: Vec<
    MergedResult,
>)
    ensures
        views(r@) == merged(views(results@), views(queries@)),
{
    let rows = in_merge_order(results.as_slice(), queries);
    rank_groups(group_rows(&rows))
}

/// Folds hits into merged results, with the queries in the order of first
/// sight.
pub fn merge_sources(results: Vec<SearchResult>) -> (r: Vec<MergedResult>)
    ensures
        views(r@) == merged(views(results@), Seq::empty()),
{
    let none: Vec<String> = Vec::new();
    proof {
        lemma_views_empty(none@);
    }
    merge_sources_in_order(results, none.as_slice())
}

/// Whether the providers are in merge order, each once.
pub open spec fn sorted_providers(ps: Seq<SearchProvider>) -> bool {
    forall|i: int, j: int|
        0 <= i < j < ps.len() ==> provider_priority(#[trigger] ps[i]) < provider_priority(
            #[trigger] ps[j],
        )
}

/// Whether the queries are sorted, each once.
pub open spec fn sorted_queries(qs: Seq<Seq<char>>) -> bool {
    forall|i: int, j: int| 0 <= i < j < qs.len() ==> precedes(#[trigger] qs[i], #[trigger] qs[j])
}

/// What holds of every group.
pub open spec fn well_formed(g: Merged) -> bool {
    &&& !is_blank(g.canonical_url)
    &&& g.canonical_url == result_key(g.display_url)
    &&& g.providers.len() > 0 && sorted_providers(g.providers)
    &&& g.queries.len() > 0 && sorted_queries(g.queries)
    &&& g.hit_count >= 1
}

proof fn lemma_insert_provider_sorted(ps: Seq<SearchProvider>, p: SearchProvider)
    requires
        sorted_providers(ps),
        !ps.contains(p),
    ensures
        sorted_providers(insert_provider(ps, p)),
        insert_provider(ps, p).len() == ps.len() + 1,
        forall|x: SearchProvider|
            #![trigger insert_provider(ps, p).contains(x)]
            insert_provider(ps, p).contains(x) <==> ps.contains(x) || x == p,
    decreases ps.len(),
{
    let all = insert_provider(ps, p);
    if ps.len() > 0 && provider_priority(p) < provider_priority(ps.last()) {
        let front = ps.drop_last();
        assert forall|i: int| 0 <= i < front.len() implies front[i] != p by {
            assert(ps[i] == front[i]);
            assert(ps.contains(ps[i]));
        }
        lemma_insert_provider_sorted(front, p);
        let inner = insert_provider(front, p);
        assert forall|i: int| 0 <= i < inner.len() implies provider_priority(#[trigger] inner[i])
            < provider_priority(ps.last()) by {
            assert(inner.contains(inner[i]));
            if inner[i] != p {
                let k = choose|k: int| 0 <= k < front.len() && front[k] == inner[i];
                assert(ps[k] == inner[i]);
            }
        }
        assert forall|x: SearchProvider| #![trigger all.contains(x)] all.contains(x) <==> (
        ps.contains(x) || x == p) by {
            if all.contains(x) {
                let k = choose|k: int| 0 <= k < all.len() && all[k] == x;
                if k < inner.len() {
                    assert(inner.contains(x));
                    if front.contains(x) {
                        let m = choose|m: int| 0 <= m < front.len() && front[m] == x;
                        assert(ps[m] == x);
                    }
                } else {
                    assert(ps[ps.len() - 1] == x);
                }
            }
            if ps.contains(x) || x == p {
                if x == ps.last() {
                    assert(all[all.len() - 1] == x);
                } else {
                    if ps.contains(x) {
                        let m = choose|m: int| 0 <= m < ps.len() && ps[m] == x;
                        assert(front[m] == x);
                    }
                    assert(inner.contains(x));
                    let k = choose|k: int| 0 <= k < inner.len() && inner[k] == x;
                    assert(all[k] == x);
                }
            }
        }
    } else {
        assert forall|i: int| 0 <= i < ps.len() implies provider_priority(#[trigger] ps[i])
            < provider_priority(p) by {
            assert(ps.contains(ps[i]));
            if i < ps.len() - 1 {
                assert(provider_priority(ps[i]) < provider_priority(ps.last()));
            }
        }
        assert forall|x: SearchProvider| #![trigger all.contains(x)] all.contains(x) <==> (
        ps.contains(x) || x == p) by {
            if ps.contains(x) {
                let m = choose|m: int| 0 <= m < ps.len() && ps[m] == x;
                assert(all[m] == x);
            }
            assert(all[ps.len() as int] == p);
        }
    }
}

proof fn lemma_insert_query_sorted(qs: Seq<Seq<char>>, q: Seq<char>)
    requires
        sorted_queries(qs),
        !qs.contains(q),
    ensures
        sorted_queries(insert_query(qs, q)),
        insert_query(qs, q).len() == qs.len() + 1,
        forall|x: Seq<char>|
            #![trigger insert_query(qs, q).contains(x)]
            insert_query(qs, q).contains(x) <==> qs.contains(x) || x == q,
    decreases qs.len(),
{
    let all = insert_query(qs, q);
    if qs.len() > 0 && precedes(q, qs.last()) {
        let front = qs.drop_last();
        assert forall|i: int| 0 <= i < front.len() implies front[i] != q by {
            assert(qs[i] == front[i]);
            assert(qs.contains(qs[i]));
        }
        lemma_insert_query_sorted(front, q);
        let inner = insert_query(front, q);
        assert forall|i: int| 0 <= i < inner.len() implies precedes(
            #[trigger] inner[i],
            qs.last(),
        ) by {
            assert(inner.contains(inner[i]));
            if inner[i] != q {
                let k = choose|k: int| 0 <= k < front.len() && front[k] == inner[i];
                assert(qs[k] == inner[i]);
            }
        }
        assert forall|x: Seq<char>| #![trigger all.contains(x)] all.contains(x) <==> (qs.contains(
            x,
        ) || x == q) by {
            if all.contains(x) {
                let k = choose|k: int| 0 <= k < all.len() && all[k] == x;
                if k < inner.len() {
                    assert(inner.contains(x));
                    if front.contains(x) {
                        let m = choose|m: int| 0 <= m < front.len() && front[m] == x;
                        assert(qs[m] == x);
                    }
                } else {
                    assert(qs[qs.len() - 1] == x);
                }
            }
            if qs.contains(x) || x == q {
                if x == qs.last() {
                    assert(all[all.len() - 1] == x);
                } else {
                    if qs.contains(x) {
                        let m = choose|m: int| 0 <= m < qs.len() && qs[m] == x;
                        assert(front[m] == x);
                    }
                    assert(inner.contains(x));
                    let k = choose|k: int| 0 <= k < inner.len() && inner[k] == x;
                    assert(all[k] == x);
                }
            }
        }
    } else {
        assert forall|i: int| 0 <= i < qs.len() implies precedes(#[trigger] qs[i], q) by {
            assert(qs.contains(qs[i]));
            lemma_precedes_total(qs.last(), q);
            if i < qs.len() - 1 {
                assert(precedes(qs[i], qs.last()));
                assert(qs.contains(qs.last()));
                lemma_precedes_transitive(qs[i], qs.last(), q);
            }
        }
        assert forall|x: Seq<char>| #![trigger all.contains(x)] all.contains(x) <==> (qs.contains(
            x,
        ) || x == q) by {
            if qs.contains(x) {
                let m = choose|m: int| 0 <= m < qs.len() && qs[m] == x;
                assert(all[m] == x);
            }
            assert(all[qs.len() as int] == q);
        }
    }
}

proof fn lemma_fold_well_formed(g: Merged, h: Hit)
    requires
        well_formed(g),
        result_key(h.url) == g.canonical_url,
    ensures
        well_formed(fold_hit(g, h)),
        fold_hit(g, h).canonical_url == g.canonical_url,
{
    if !g.providers.contains(h.provider) {
        lemma_insert_provider_sorted(g.providers, h.provider);
    }
    if !g.queries.contains(h.query) {
        lemma_insert_query_sorted(g.queries, h.query);
    }
}

/// Every group has a key that is not blank and is the key of its display
/// URL, at least one hit, at least one provider and query, providers in merge
/// order and queries sorted, each once; and no two groups share a key.
pub proof fn law_groups_are_well_formed(hits: Seq<Hit>)
    ensures
        forall|i: int|
            0 <= i < group_hits(hits).len() ==> well_formed(#[trigger] group_hits(hits)[i]),
        forall|i: int, j: int|
            0 <= i < j < group_hits(hits).len() ==> (#[trigger] group_hits(hits)[i]).canonical_url
                != (#[trigger] group_hits(hits)[j]).canonical_url,
    decreases hits.len(),
{
    if hits.len() > 0 {
        let before = group_hits(hits.drop_last());
        let h = hits.last();
        let key = result_key(h.url);
        let i = first_index(group_keys(before), key) as int;
        law_groups_are_well_formed(hits.drop_last());
        lemma_first_index(group_keys(before), key);
        let after = group_hits(hits);
        if !is_blank(key) {
            if i < before.len() {
                assert(group_keys(before)[i] == before[i].canonical_url);
                lemma_fold_well_formed(before[i], h);
                assert forall|k: int| 0 <= k < after.len() implies well_formed(
                    #[trigger] after[k],
                ) by {
                    assert(well_formed(before[k]));
                }
                assert forall|a: int, b: int| 0 <= a < b < after.len() implies (
                #[trigger] after[a]).canonical_url != (#[trigger] after[b]).canonical_url by {
                    assert(before[a].canonical_url != before[b].canonical_url);
                }
            } else {
                assert(sorted_queries(new_group(key, h).queries));
                assert forall|k: int| 0 <= k < after.len() implies well_formed(
                    #[trigger] after[k],
                ) by {
                    if k < before.len() {
                        assert(well_formed(before[k]));
                    }
                }
                assert forall|a: int, b: int| 0 <= a < b < after.len() implies (
                #[trigger] after[a]).canonical_url != (#[trigger] after[b]).canonical_url by {
                    assert(group_keys(before)[a] == before[a].canonical_url);
                    if b < before.len() {
                        assert(before[a].canonical_url != before[b].canonical_url);
                    }
                }
            }
        }
    }
}

/// The number of hits that have a key.
pub open spec fn keyed(hits: Seq<Hit>) -> nat
    decreases hits.len(),
{
    if hits.len() == 0 {
        0
    } else if is_blank(result_key(hits.last().url)) {
        keyed(hits.drop_last())
    } else {
        keyed(hits.drop_last()) + 1
    }
}

/// The number of hits folded into the groups.
pub open spec fn folded(groups: Seq<Merged>) -> nat
    decreases groups.len(),
{
    if groups.len() == 0 {
        0
    } else {
        folded(groups.drop_last()) + groups.last().hit_count
    }
}

proof fn lemma_folded_update(groups: Seq<Merged>, i: int, g: Merged)
    requires
        0 <= i < groups.len(),
        g.hit_count == groups[i].hit_count + 1,
    ensures
        folded(groups.update(i, g)) == folded(groups) + 1,
    decreases groups.len(),
{
    let after = groups.update(i, g);
    if i == groups.len() - 1 {
        assert(after.drop_last() =~= groups.drop_last());
    } else {
        assert(after.drop_last() =~= groups.drop_last().update(i, g));
        lemma_folded_update(groups.drop_last(), i, g);
    }
}

/// Every hit that has a key is counted in exactly one group.
pub proof fn law_every_hit_is_counted(hits: Seq<Hit>)
    ensures
        folded(group_hits(hits)) == keyed(hits),
    decreases hits.len(),
{
    if hits.len() > 0 {
        let before = group_hits(hits.drop_last());
        let h = hits.last();
        let i = first_index(group_keys(before), result_key(h.url)) as int;
        law_every_hit_is_counted(hits.drop_last());
        if !is_blank(result_key(h.url)) {
            if i < before.len() {
                lemma_folded_update(before, i, fold_hit(before[i], h));
            } else {
                assert(group_hits(hits).drop_last() =~= before);
            }
        }
    }
}

/// Whether some hit of the group's key has this provider.
pub open spec fn found_by(hits: Seq<Hit>, key: Seq<char>, p: SearchProvider) -> bool {
    exists|k: int|
        0 <= k < hits.len() && result_key((#[trigger] hits[k]).url) == key && hits[k].provider == p
}

/// Whether some hit of the group's key has this query.
pub open spec fn found_for(hits: Seq<Hit>, key: Seq<char>, q: Seq<char>) -> bool {
    exists|k: int|
        0 <= k < hits.len() && result_key((#[trigger] hits[k]).url) == key && hits[k].query == q
}

/// Whether a hit of the group's key has this rank, title and URL, and none
/// has a lower rank.
pub open spec fn led_by_best(hits: Seq<Hit>, g: Merged) -> bool {
    &&& exists|k: int|
        0 <= k < hits.len() && result_key((#[trigger] hits[k]).url) == g.canonical_url
            && hits[k].rank == g.best_rank && hits[k].title == g.title && hits[k].url
            == g.display_url
    &&& forall|k: int|
        0 <= k < hits.len() && result_key((#[trigger] hits[k]).url) == g.canonical_url
            ==> g.best_rank <= hits[k].rank
}

/// Whether a hit of the group's key has this snippet, and none has a longer
/// one.
pub open spec fn shows_longest(hits: Seq<Hit>, g: Merged) -> bool {
    &&& exists|k: int|
        0 <= k < hits.len() && result_key((#[trigger] hits[k]).url) == g.canonical_url
            && hits[k].snippet == g.snippet
    &&& forall|k: int|
        0 <= k < hits.len() && result_key((#[trigger] hits[k]).url) == g.canonical_url
            ==> byte_len(hits[k].snippet) <= byte_len(g.snippet)
}

/// The first date among the hits of a key.
pub open spec fn first_date(hits: Seq<Hit>, key: Seq<char>) -> Option<Seq<char>>
    decreases hits.len(),
{
    if hits.len() == 0 {
        None
    } else {
        let before = first_date(hits.drop_last(), key);
        if before is None && result_key(hits.last().url) == key {
            hits.last().published_date
        } else {
            before
        }
    }
}

/// What a group says is what its hits say: it lists exactly the providers and
/// queries that found its URL, takes title and URL from a hit of the lowest
/// rank, and has the longest snippet.
pub open spec fn faithful(hits: Seq<Hit>, g: Merged) -> bool {
    &&& forall|p: SearchProvider|
        #![trigger g.providers.contains(p)]
        g.providers.contains(p) <==> found_by(hits, g.canonical_url, p)
    &&& forall|q: Seq<char>|
        #![trigger g.queries.contains(q)]
        g.queries.contains(q) <==> found_for(hits, g.canonical_url, q)
    &&& led_by_best(hits, g)
    &&& shows_longest(hits, g)
}

proof fn lemma_other_key_stays(hits: Seq<Hit>, h: Hit, g: Merged)
    requires
        faithful(hits, g),
        result_key(h.url) != g.canonical_url,
    ensures
        faithful(hits.push(h), g),
        first_date(hits.push(h), g.canonical_url) == first_date(hits, g.canonical_url),
{
    let all = hits.push(h);
    assert(all.drop_last() =~= hits);
    let longest = choose|k: int|
        0 <= k < hits.len() && result_key((#[trigger] hits[k]).url) == g.canonical_url
            && hits[k].snippet == g.snippet;
    assert(all[longest] == hits[longest]);
    assert forall|k: int|
        0 <= k < all.len() && result_key((#[trigger] all[k]).url)
            == g.canonical_url implies byte_len(all[k].snippet) <= byte_len(g.snippet) by {
        assert(all[k] == hits[k]);
    }
    assert forall|p: SearchProvider| #![trigger g.providers.contains(p)] g.providers.contains(
        p,
    ) <==> found_by(all, g.canonical_url, p) by {
        if found_by(hits, g.canonical_url, p) {
            let k = choose|k: int|
                0 <= k < hits.len() && result_key((#[trigger] hits[k]).url) == g.canonical_url
                    && hits[k].provider == p;
            assert(all[k] == hits[k]);
        }
        if found_by(all, g.canonical_url, p) {
            let k = choose|k: int|
                0 <= k < all.len() && result_key((#[trigger] all[k]).url) == g.canonical_url
                    && all[k].provider == p;
            assert(all[k] == hits[k]);
        }
    }
    assert forall|q: Seq<char>| #![trigger g.queries.contains(q)] g.queries.contains(q)
        <==> found_for(all, g.canonical_url, q) by {
        if found_for(hits, g.canonical_url, q) {
            let k = choose|k: int|
                0 <= k < hits.len() && result_key((#[trigger] hits[k]).url) == g.canonical_url
                    && hits[k].query == q;
            assert(all[k] == hits[k]);
        }
        if found_for(all, g.canonical_url, q) {
            let k = choose|k: int|
                0 <= k < all.len() && result_key((#[trigger] all[k]).url) == g.canonical_url
                    && all[k].query == q;
            assert(all[k] == hits[k]);
        }
    }
    let k = choose|k: int|
        0 <= k < hits.len() && result_key((#[trigger] hits[k]).url) == g.canonical_url
            && hits[k].rank == g.best_rank && hits[k].title == g.title && hits[k].url
            == g.display_url;
    assert(all[k] == hits[k]);
    assert forall|k: int|
        0 <= k < all.len() && result_key((#[trigger] all[k]).url)
            == g.canonical_url implies g.best_rank <= all[k].rank by {
        assert(all[k] == hits[k]);
    }
}

proof fn lemma_fold_faithful(hits: Seq<Hit>, g: Merged, h: Hit)
    requires
        faithful(hits, g),
        well_formed(g),
        result_key(h.url) == g.canonical_url,
    ensures
        faithful(hits.push(h), fold_hit(g, h)),
        g.published_date == first_date(hits, g.canonical_url) ==> fold_hit(g, h).published_date
            == first_date(hits.push(h), g.canonical_url),
{
    let all = hits.push(h);
    let f = fold_hit(g, h);
    assert(all[hits.len() as int] == h);
    assert(all.drop_last() =~= hits);
    let longest = choose|k: int|
        0 <= k < hits.len() && result_key((#[trigger] hits[k]).url) == g.canonical_url
            && hits[k].snippet == g.snippet;
    assert(all[longest] == hits[longest]);
    assert forall|k: int|
        0 <= k < all.len() && result_key((#[trigger] all[k]).url)
            == f.canonical_url implies byte_len(all[k].snippet) <= byte_len(f.snippet) by {
        if k < hits.len() {
            assert(all[k] == hits[k]);
        }
    }
    if !g.providers.contains(h.provider) {
        lemma_insert_provider_sorted(g.providers, h.provider);
    }
    if !g.queries.contains(h.query) {
        lemma_insert_query_sorted(g.queries, h.query);
    }
    assert forall|p: SearchProvider| #![trigger f.providers.contains(p)] f.providers.contains(
        p,
    ) <==> found_by(all, f.canonical_url, p) by {
        assert(f.providers.contains(p) <==> g.providers.contains(p) || p == h.provider);
        if found_by(hits, g.canonical_url, p) {
            let k = choose|k: int|
                0 <= k < hits.len() && result_key((#[trigger] hits[k]).url) == g.canonical_url
                    && hits[k].provider == p;
            assert(all[k] == hits[k]);
        }
        if found_by(all, g.canonical_url, p) && p != h.provider {
            let k = choose|k: int|
                0 <= k < all.len() && result_key((#[trigger] all[k]).url) == g.canonical_url
                    && all[k].provider == p;
            assert(all[k] == hits[k]);
        }
    }
    assert forall|q: Seq<char>| #![trigger f.queries.contains(q)] f.queries.contains(q)
        <==> found_for(all, f.canonical_url, q) by {
        assert(f.queries.contains(q) <==> g.queries.contains(q) || q == h.query);
        if found_for(hits, g.canonical_url, q) {
            let k = choose|k: int|
                0 <= k < hits.len() && result_key((#[trigger] hits[k]).url) == g.canonical_url
                    && hits[k].query == q;
            assert(all[k] == hits[k]);
        }
        if found_for(all, g.canonical_url, q) && q != h.query {
            let k = choose|k: int|
                0 <= k < all.len() && result_key((#[trigger] all[k]).url) == g.canonical_url
                    && all[k].query == q;
            assert(all[k] == hits[k]);
        }
    }
    let k = choose|k: int|
        0 <= k < hits.len() && result_key((#[trigger] hits[k]).url) == g.canonical_url
            && hits[k].rank == g.best_rank && hits[k].title == g.title && hits[k].url
            == g.display_url;
    assert(all[k] == hits[k]);
    assert forall|k: int|
        0 <= k < all.len() && result_key((#[trigger] all[k]).url)
            == f.canonical_url implies f.best_rank <= all[k].rank by {
        if k < hits.len() {
            assert(all[k] == hits[k]);
        }
    }
}

/// Every group lists exactly the providers and queries that found its URL,
/// takes its title and display URL from a hit of the lowest rank, and has the
/// longest snippet and the first date of its hits; and every hit with a key
/// has a group.
pub proof fn law_groups_are_faithful(hits: Seq<Hit>)
    ensures
        forall|i: int|
            0 <= i < group_hits(hits).len() ==> {
                let g = #[trigger] group_hits(hits)[i];
                faithful(hits, g) && g.published_date == first_date(hits, g.canonical_url)
            },
        forall|k: int|
            0 <= k < hits.len() && !is_blank(result_key((#[trigger] hits[k]).url)) ==> group_keys(
                group_hits(hits),
            ).contains(result_key(hits[k].url)),
    decreases hits.len(),
{
    if hits.len() > 0 {
        let front = hits.drop_last();
        let before = group_hits(front);
        let h = hits.last();
        let key = result_key(h.url);
        let i = first_index(group_keys(before), key) as int;
        let after = group_hits(hits);
        assert(front.push(h) =~= hits);
        law_groups_are_faithful(front);
        law_groups_are_well_formed(front);
        lemma_first_index(group_keys(before), key);
        assert forall|k: int| 0 <= k < before.len() implies #[trigger] group_keys(before)[k]
            == before[k].canonical_url by {}
        assert forall|j: int| 0 <= j < after.len() implies faithful(hits, #[trigger] after[j])
            && after[j].published_date == first_date(hits, after[j].canonical_url) by {
            if is_blank(key) {
                assert(well_formed(before[j]));
                lemma_other_key_stays(front, h, before[j]);
            } else if j < before.len() && j == i {
                lemma_fold_faithful(front, before[j], h);
            } else if j < before.len() {
                assert(group_keys(before)[j] == before[j].canonical_url);
                if i < before.len() {
                    assert(group_keys(before)[i] == key);
                    if j < i {
                        assert(before[j].canonical_url != before[i].canonical_url);
                    } else {
                        assert(before[i].canonical_url != before[j].canonical_url);
                    }
                }
                lemma_other_key_stays(front, h, before[j]);
            } else {
                lemma_opened_faithful(front, before, h);
            }
        }
        assert forall|k: int|
            0 <= k < hits.len() && !is_blank(result_key((#[trigger] hits[k]).url)) implies group_keys(
            after,
        ).contains(result_key(hits[k].url)) by {
            if k < front.len() {
                assert(front[k] == hits[k]);
                let m = choose|m: int|
                    0 <= m < before.len() && group_keys(before)[m] == result_key(hits[k].url);
                assert(group_keys(after)[m] == group_keys(before)[m]);
            } else if i < before.len() {
                assert(group_keys(after)[i] == key);
            } else {
                assert(group_keys(after)[before.len() as int] == key);
            }
        }
    }
}

proof fn lemma_opened_faithful(front: Seq<Hit>, before: Seq<Merged>, h: Hit)
    requires
        before == group_hits(front),
        !is_blank(result_key(h.url)),
        first_index(group_keys(before), result_key(h.url)) == before.len(),
        forall|k: int|
            0 <= k < front.len() && !is_blank(result_key((#[trigger] front[k]).url)) ==> group_keys(
                before,
            ).contains(result_key(front[k].url)),
    ensures
        faithful(front.push(h), new_group(result_key(h.url), h)),
        first_date(front.push(h), result_key(h.url)) == h.published_date,
{
    let all = front.push(h);
    let key = result_key(h.url);
    let g = new_group(key, h);
    assert(all.drop_last() =~= front);
    lemma_first_index(group_keys(before), key);
    assert(all[front.len() as int] == h);
    assert forall|k: int|
        0 <= k < all.len() && result_key((#[trigger] all[k]).url) == key implies k
        == front.len() by {
        if k < front.len() {
            assert(all[k] == front[k]);
            assert(group_keys(before).contains(key));
        }
    }
    assert(g.providers[0] == h.provider);
    assert(g.queries[0] == h.query);
    assert forall|k: int| 0 <= k < front.len() implies result_key((#[trigger] front[k]).url)
        != key by {
        assert(all[k] == front[k]);
    }
    lemma_no_date(front, key);
}

proof fn lemma_no_date(hits: Seq<Hit>, key: Seq<char>)
    requires
        forall|k: int| 0 <= k < hits.len() ==> result_key((#[trigger] hits[k]).url) != key,
    ensures
        first_date(hits, key) is None,
    decreases hits.len(),
{
    if hits.len() > 0 {
        assert(result_key(hits[hits.len() - 1].url) != key);
        assert forall|k: int| 0 <= k < hits.drop_last().len() implies result_key(
            (#[trigger] hits.drop_last()[k]).url,
        ) != key by {
            assert(hits.drop_last()[k] == hits[k]);
        }
        lemma_no_date(hits.drop_last(), key);
    }
}

proof fn lemma_outranks_transitive(a: Merged, b: Merged, c: Merged)
    requires
        outranks(a, b),
        outranks(b, c),
    ensures
        outranks(a, c),
{
    if a.providers.len() == b.providers.len() && b.providers.len() == c.providers.len()
        && a.best_rank == b.best_rank && b.best_rank == c.best_rank {
        lemma_precedes_transitive(a.display_url, b.display_url, c.display_url);
    }
}

proof fn lemma_insert_ranked_elements(ranking: Seq<Merged>, g: Merged)
    ensures
        insert_ranked(ranking, g).to_multiset() == ranking.to_multiset().insert(g),
    decreases ranking.len(),
{
    broadcast use vstd::seq_lib::group_to_multiset_ensures;

    if ranking.len() > 0 && outranks(g, ranking.last()) {
        let front = ranking.drop_last();
        lemma_insert_ranked_elements(front, g);
        assert(front.push(ranking.last()) =~= ranking);
        assert(insert_ranked(ranking, g).to_multiset() =~= ranking.to_multiset().insert(g));
    }
}

/// Ranking neither loses, adds nor changes a group.
pub proof fn law_ranking_is_a_permutation(groups: Seq<Merged>)
    ensures
        ranked(groups).to_multiset() == groups.to_multiset(),
    decreases groups.len(),
{
    broadcast use vstd::seq_lib::group_to_multiset_ensures;

    if groups.len() > 0 {
        law_ranking_is_a_permutation(groups.drop_last());
        lemma_insert_ranked_elements(ranked(groups.drop_last()), groups.last());
        assert(groups.drop_last().push(groups.last()) =~= groups);
    } else {
        assert(ranked(groups) =~= groups);
    }
}

/// Whether each group outranks all that follow.
pub open spec fn strictly_ranked(ranking: Seq<Merged>) -> bool {
    forall|i: int, j: int|
        0 <= i < j < ranking.len() ==> outranks(#[trigger] ranking[i], #[trigger] ranking[j])
}

proof fn lemma_insert_ranked_strict(ranking: Seq<Merged>, g: Merged)
    requires
        strictly_ranked(ranking),
        forall|i: int|
            0 <= i < ranking.len() ==> (#[trigger] ranking[i]).display_url != g.display_url,
    ensures
        strictly_ranked(insert_ranked(ranking, g)),
        insert_ranked(ranking, g).len() == ranking.len() + 1,
        forall|i: int|
            0 <= i < insert_ranked(ranking, g).len() ==> ranking.contains(
                #[trigger] insert_ranked(ranking, g)[i],
            ) || insert_ranked(ranking, g)[i] == g,
    decreases ranking.len(),
{
    let all = insert_ranked(ranking, g);
    if ranking.len() > 0 && outranks(g, ranking.last()) {
        let front = ranking.drop_last();
        assert forall|i: int| 0 <= i < front.len() implies (#[trigger] front[i]).display_url
            != g.display_url by {
            assert(ranking[i] == front[i]);
        }
        lemma_insert_ranked_strict(front, g);
        let inner = insert_ranked(front, g);
        assert forall|i: int| 0 <= i < inner.len() implies outranks(
            #[trigger] inner[i],
            ranking.last(),
        ) && (ranking.contains(inner[i]) || inner[i] == g) by {
            if inner[i] != g {
                let k = choose|k: int| 0 <= k < front.len() && front[k] == inner[i];
                assert(ranking[k] == inner[i]);
            }
        }
        assert(ranking[ranking.len() - 1] == ranking.last());
        assert forall|i: int| 0 <= i < all.len() implies ranking.contains(#[trigger] all[i])
            || all[i] == g by {
            if i < inner.len() {
                assert(all[i] == inner[i]);
            }
        }
    } else {
        assert forall|i: int| 0 <= i < ranking.len() implies outranks(#[trigger] ranking[i], g) by {
            assert(ranking[ranking.len() - 1].display_url != g.display_url);
            lemma_precedes_total(ranking.last().display_url, g.display_url);
            assert(outranks(ranking.last(), g));
            if i < ranking.len() - 1 {
                assert(outranks(ranking[i], ranking[ranking.len() - 1]));
                lemma_outranks_transitive(ranking[i], ranking.last(), g);
            }
        }
        assert forall|i: int| 0 <= i < all.len() implies ranking.contains(#[trigger] all[i])
            || all[i] == g by {
            if i < ranking.len() {
                assert(ranking[i] == all[i]);
            }
        }
    }
}

proof fn lemma_ranked_strict(groups: Seq<Merged>)
    requires
        forall|i: int, j: int|
            0 <= i < j < groups.len() ==> (#[trigger] groups[i]).display_url != (
            #[trigger] groups[j]).display_url,
    ensures
        strictly_ranked(ranked(groups)),
        ranked(groups).len() == groups.len(),
        forall|i: int|
            0 <= i < ranked(groups).len() ==> groups.contains(#[trigger] ranked(groups)[i]),
    decreases groups.len(),
{
    if groups.len() > 0 {
        let front = groups.drop_last();
        let g = groups.last();
        lemma_ranked_strict(front);
        let ranking = ranked(front);
        assert forall|i: int| 0 <= i < ranking.len() implies (#[trigger] ranking[i]).display_url
            != g.display_url by {
            let k = choose|k: int| 0 <= k < front.len() && front[k] == ranking[i];
            assert(groups[k].display_url != groups[groups.len() - 1].display_url);
        }
        lemma_insert_ranked_strict(ranking, g);
        assert forall|i: int| 0 <= i < ranked(groups).len() implies groups.contains(
            #[trigger] ranked(groups)[i],
        ) by {
            let x = ranked(groups)[i];
            if ranking.contains(x) {
                let k = choose|k: int| 0 <= k < ranking.len() && ranking[k] == x;
                assert(front.contains(ranking[k]));
                let m = choose|m: int| 0 <= m < front.len() && front[m] == x;
                assert(groups[m] == x);
            } else {
                assert(groups[groups.len() - 1] == x);
            }
        }
    }
}

/// The merged results of any hits stand in strict consensus order: more
/// providers first, then the lower rank, then the display URL. Each is well
/// formed, and no two share a canonical URL.
pub proof fn law_merge_is_in_consensus_order(hits: Seq<Hit>, queries: Seq<Seq<char>>)
    ensures
        strictly_ranked(merged(hits, queries)),
        forall|i: int|
            0 <= i < merged(hits, queries).len() ==> well_formed(
                #[trigger] merged(hits, queries)[i],
            ),
        forall|i: int, j: int|
            0 <= i < j < merged(hits, queries).len() ==> (#[trigger] merged(
                hits,
                queries,
            )[i]).canonical_url != (#[trigger] merged(hits, queries)[j]).canonical_url,
{
    let groups = group_hits(merge_order(hits, queries));
    let all = merged(hits, queries);
    law_groups_are_well_formed(merge_order(hits, queries));
    assert forall|i: int, j: int| 0 <= i < j < groups.len() implies (
    #[trigger] groups[i]).display_url != (#[trigger] groups[j]).display_url by {
        assert(well_formed(groups[i]) && well_formed(groups[j]));
        assert(groups[i].canonical_url != groups[j].canonical_url);
    }
    lemma_ranked_strict(groups);
    assert forall|i: int| 0 <= i < all.len() implies well_formed(#[trigger] all[i]) by {
        let k = choose|k: int| 0 <= k < groups.len() && groups[k] == all[i];
    }
    assert forall|i: int, j: int| 0 <= i < j < all.len() implies (#[trigger] all[i]).canonical_url
        != (#[trigger] all[j]).canonical_url by {
        let a = choose|k: int| 0 <= k < groups.len() && groups[k] == all[i];
        let b = choose|k: int| 0 <= k < groups.len() && groups[k] == all[j];
        lemma_precedes_total(all[i].display_url, all[i].display_url);
        assert(outranks(all[i], all[j]));
        assert(a != b);
        if a < b {
            assert(groups[a].canonical_url != groups[b].canonical_url);
        } else {
            assert(groups[b].canonical_url != groups[a].canonical_url);
        }
    }
}

proof fn lemma_leg_hits_concat(
    a: Seq<Hit>,
    b: Seq<Hit>,
    provider: SearchProvider,
    order: Seq<Seq<char>>,
    slot: nat,
)
    ensures
        leg_hits(a + b, provider, order, slot) == leg_hits(a, provider, order, slot) + leg_hits(
            b,
            provider,
            order,
            slot,
        ),
    decreases b.len(),
{
    if b.len() == 0 {
        assert(a + b =~= a);
        assert(leg_hits(a, provider, order, slot) + Seq::<Hit>::empty() =~= leg_hits(
            a,
            provider,
            order,
            slot,
        ));
    } else {
        assert((a + b).drop_last() =~= a + b.drop_last());
        lemma_leg_hits_concat(a, b.drop_last(), provider, order, slot);
        assert(leg_hits(a + b, provider, order, slot) =~= leg_hits(a, provider, order, slot)
            + leg_hits(b, provider, order, slot));
    }
}

proof fn lemma_same_legs(x: Seq<Hit>, y: Seq<Hit>, p: SearchProvider, order: Seq<Seq<char>>, n: nat)
    requires
        forall|slot: nat|
            #[trigger] leg_hits(x, p, order, slot) == leg_hits(y, p, order, slot),
    ensures
        provider_hits(x, p, order, n) == provider_hits(y, p, order, n),
    decreases n,
{
    if n > 0 {
        lemma_same_legs(x, y, p, order, (n - 1) as nat);
        assert(leg_hits(x, p, order, (n - 1) as nat) == leg_hits(y, p, order, (n - 1) as nat));
    }
}

proof fn lemma_no_strangers(hits: Seq<Hit>, queries: Seq<Seq<char>>)
    requires
        forall|k: int| 0 <= k < hits.len() ==> queries.contains((#[trigger] hits[k]).query),
    ensures
        strangers(hits, queries) == Seq::<Seq<char>>::empty(),
    decreases hits.len(),
{
    if hits.len() > 0 {
        let front = hits.drop_last();
        assert forall|k: int| 0 <= k < front.len() implies queries.contains(
            (#[trigger] front[k]).query,
        ) by {
            assert(front[k] == hits[k]);
        }
        lemma_no_strangers(front, queries);
        assert(hits[hits.len() - 1] == hits.last());
    }
}

/// The merge never follows the order of arrival: two neighbouring hits of
/// different legs may change places.
pub proof fn law_arrival_order_does_not_matter(hits: Seq<Hit>, i: int, queries: Seq<Seq<char>>)
    requires
        0 <= i < hits.len() - 1,
        hits[i].provider != hits[i + 1].provider || hits[i].query != hits[i + 1].query,
        forall|k: int| 0 <= k < hits.len() ==> queries.contains((#[trigger] hits[k]).query),
    ensures
        merged(hits.update(i, hits[i + 1]).update(i + 1, hits[i]), queries) == merged(
            hits,
            queries,
        ),
{
    let two = hits.update(i, hits[i + 1]).update(i + 1, hits[i]);
    let a = hits.take(i);
    let b = hits.skip(i + 2);
    let x = hits[i];
    let y = hits[i + 1];
    let xy = seq![x, y];
    let yx = seq![y, x];
    assert(hits =~= a + xy + b);
    assert(two =~= a + yx + b);
    assert(queries.contains(x.query) && queries.contains(y.query));
    assert forall|k: int| 0 <= k < two.len() implies queries.contains(
        (#[trigger] two[k]).query,
    ) by {
        if k != i && k != i + 1 {
            assert(two[k] == hits[k]);
        }
    }
    lemma_no_strangers(hits, queries);
    lemma_no_strangers(two, queries);
    assert(query_order(hits, queries) =~= queries);
    assert(query_order(two, queries) =~= queries);
    lemma_first_index(queries, x.query);
    lemma_first_index(queries, y.query);
    assert forall|p: SearchProvider, slot: nat| #[trigger]
        leg_hits(hits, p, queries, slot) == leg_hits(two, p, queries, slot) by {
        lemma_leg_hits_concat(a + xy, b, p, queries, slot);
        lemma_leg_hits_concat(a, xy, p, queries, slot);
        lemma_leg_hits_concat(a + yx, b, p, queries, slot);
        lemma_leg_hits_concat(a, yx, p, queries, slot);
        assert(xy.drop_last() =~= seq![x]);
        assert(yx.drop_last() =~= seq![y]);
        assert(seq![x].drop_last() =~= Seq::<Hit>::empty());
        assert(seq![y].drop_last() =~= Seq::<Hit>::empty());
        reveal_with_fuel(leg_hits, 3);
        assert(leg_hits(xy, p, queries, slot) =~= leg_hits(yx, p, queries, slot));
    }
    lemma_same_legs(hits, two, SearchProvider::Startpage, queries, queries.len());
    lemma_same_legs(hits, two, SearchProvider::DuckDuckGo, queries, queries.len());
}

} // verus!
