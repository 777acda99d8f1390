//! What the merge promises as a whole.
//!
//! The hits are put into merge order, folded into groups and ranked. None of
//! this loses a hit, and what a merged result says is what the hits of its
//! URL say.

use vstd::prelude::*;
#[allow(unused_imports)]
use crate::foreign::{lowercase, parsed_url};
#[allow(unused_imports)]
use crate::shared::types::search::{Hit, Merged, SearchProvider};
#[allow(unused_imports)]
use crate::shared::web_engine_search::dedup::{faithful, fold_hit, folded, found_by, found_for,
    group_hits, group_keys, insert_ranked, keyed, law_every_hit_is_counted,
    law_groups_are_faithful, law_groups_are_well_formed, law_merge_is_in_consensus_order,
    law_ranking_is_a_permutation, leg_hits, merge_order, merged, outranks, provider_hits,
    query_order, ranked, result_key, strangers, url_identity};
#[allow(unused_imports)]
use crate::text::{byte_len, first_index, is_blank, lemma_first_index, precedes, trim};

verus! {

proof fn lemma_strangers_cover(hits: Seq<Hit>, queries: Seq<Seq<char>>, k: int)
    requires
        0 <= k < hits.len(),
    ensures
        queries.contains(hits[k].query) || strangers(hits, queries).contains(hits[k].query),
    decreases hits.len(),
{
    let front = hits.drop_last();
    let before = strangers(front, queries);
    let last = hits.last().query;
    if k < front.len() {
        lemma_strangers_cover(front, queries, k);
        assert(front[k] == hits[k]);
        if before.contains(hits[k].query) {
            let m = choose|m: int| 0 <= m < before.len() && before[m] == hits[k].query;
            assert(before.push(last)[m] == hits[k].query);
        }
    } else {
        assert(before.push(last)[before.len() as int] == last);
    }
}

proof fn lemma_every_query_has_a_place(hits: Seq<Hit>, queries: Seq<Seq<char>>, k: int)
    requires
        0 <= k < hits.len(),
    ensures
        first_index(query_order(hits, queries), hits[k].query) < query_order(hits, queries).len(),
{
    let order = query_order(hits, queries);
    let q = hits[k].query;
    let more = strangers(hits, queries);
    lemma_strangers_cover(hits, queries, k);
    lemma_first_index(order, q);
    assert(order.contains(q)) by {
        if queries.contains(q) {
            let m = choose|m: int| 0 <= m < queries.len() && queries[m] == q;
            assert(order[m] == q);
        } else {
            let m = choose|m: int| 0 <= m < more.len() && more[m] == q;
            assert(order[queries.len() + m] == q);
        }
    }
}

/// One more hit of a provider is one more hit of its leg, and of no other.
proof fn lemma_one_more_hit(
    hits: Seq<Hit>,
    h: Hit,
    p: SearchProvider,
    order: Seq<Seq<char>>,
    n: nat,
)
    ensures
        provider_hits(hits.push(h), p, order, n).to_multiset() == if h.provider == p && first_index(
            order,
            h.query,
        ) < n {
            provider_hits(hits, p, order, n).to_multiset().insert(h)
        } else {
            provider_hits(hits, p, order, n).to_multiset()
        },
    decreases n,
{
    broadcast use vstd::seq_lib::group_to_multiset_ensures;

    let all = hits.push(h);
    assert(all.drop_last() =~= hits);
    if n > 0 {
        let slot = (n - 1) as nat;
        lemma_one_more_hit(hits, h, p, order, slot);
        let a = provider_hits(hits, p, order, slot);
        let b = leg_hits(hits, p, order, slot);
        let x = provider_hits(all, p, order, slot);
        let y = leg_hits(all, p, order, slot);
        vstd::seq_lib::lemma_multiset_commutative(a, b);
        vstd::seq_lib::lemma_multiset_commutative(x, y);
        if h.provider == p && first_index(order, h.query) == slot {
            assert(y == b.push(h));
            assert(x.to_multiset().add(y.to_multiset()) =~= a.to_multiset().add(
                b.to_multiset(),
            ).insert(h));
        } else {
            assert(y == b);
            if h.provider == p && first_index(order, h.query) < slot {
                assert(x.to_multiset().add(y.to_multiset()) =~= a.to_multiset().add(
                    b.to_multiset(),
                ).insert(h));
            }
        }
    }
}

proof fn lemma_no_hits(p: SearchProvider, order: Seq<Seq<char>>, n: nat)
    ensures
        provider_hits(Seq::<Hit>::empty(), p, order, n) =~= Seq::<Hit>::empty(),
    decreases n,
{
    if n > 0 {
        lemma_no_hits(p, order, (n - 1) as nat);
    }
}

proof fn lemma_legs_hold_every_hit(hits: Seq<Hit>, order: Seq<Seq<char>>)
    requires
        forall|k: int|
            0 <= k < hits.len() ==> first_index(order, (#[trigger] hits[k]).query) < order.len(),
    ensures
        (provider_hits(hits, SearchProvider::Startpage, order, order.len()) + provider_hits(
            hits,
            SearchProvider::DuckDuckGo,
            order,
            order.len(),
        )).to_multiset() == hits.to_multiset(),
    decreases hits.len(),
{
    broadcast use vstd::seq_lib::group_to_multiset_ensures;

    let n = order.len();
    let x = provider_hits(hits, SearchProvider::Startpage, order, n);
    let y = provider_hits(hits, SearchProvider::DuckDuckGo, order, n);
    vstd::seq_lib::lemma_multiset_commutative(x, y);
    if hits.len() == 0 {
        assert(hits =~= Seq::<Hit>::empty());
        lemma_no_hits(SearchProvider::Startpage, order, n);
        lemma_no_hits(SearchProvider::DuckDuckGo, order, n);
        assert(x + y =~= hits);
    } else {
        let front = hits.drop_last();
        let h = hits.last();
        let a = provider_hits(front, SearchProvider::Startpage, order, n);
        let b = provider_hits(front, SearchProvider::DuckDuckGo, order, n);
        assert(front.push(h) =~= hits);
        assert(first_index(order, hits[hits.len() - 1].query) < n);
        assert forall|k: int| 0 <= k < front.len() implies first_index(
            order,
            (#[trigger] front[k]).query,
        ) < order.len() by {
            assert(front[k] == hits[k]);
        }
        lemma_legs_hold_every_hit(front, order);
        lemma_one_more_hit(front, h, SearchProvider::Startpage, order, n);
        lemma_one_more_hit(front, h, SearchProvider::DuckDuckGo, order, n);
        vstd::seq_lib::lemma_multiset_commutative(a, b);
        assert(x.to_multiset().add(y.to_multiset()) =~= a.to_multiset().add(
            b.to_multiset(),
        ).insert(h));
    }
}

/// Putting hits into merge order neither loses, adds nor changes one.
pub proof fn law_merge_order_is_a_permutation(hits: Seq<Hit>, queries: Seq<Seq<char>>)
    ensures
        merge_order(hits, queries).to_multiset() == hits.to_multiset(),
{
    let order = query_order(hits, queries);
    assert forall|k: int| 0 <= k < hits.len() implies first_index(
        order,
        (#[trigger] hits[k]).query,
    ) < order.len() by {
        lemma_every_query_has_a_place(hits, queries, k);
    }
    lemma_legs_hold_every_hit(hits, order);
}

proof fn lemma_keyed_without(hits: Seq<Hit>, i: int)
    requires
        0 <= i < hits.len(),
    ensures
        keyed(hits) == keyed(hits.remove(i)) + if is_blank(result_key(hits[i].url)) {
            0nat
        } else {
            1nat
        },
    decreases hits.len(),
{
    let front = hits.drop_last();
    if i < front.len() {
        lemma_keyed_without(front, i);
        assert(hits.remove(i).drop_last() =~= front.remove(i));
        assert(hits.remove(i).last() == hits.last());
    } else {
        assert(hits.remove(i) =~= front);
    }
}

proof fn lemma_keyed_of_permutation(a: Seq<Hit>, b: Seq<Hit>)
    requires
        a.to_multiset() == b.to_multiset(),
    ensures
        keyed(a) == keyed(b),
    decreases a.len(),
{
    broadcast use vstd::seq_lib::group_to_multiset_ensures;

    assert(a.len() == a.to_multiset().len() && b.len() == b.to_multiset().len());
    if a.len() > 0 {
        let h = a.last();
        assert(a[a.len() - 1] == h);
        assert(a.contains(h));
        assert(a.to_multiset().count(h) > 0);
        assert(b.contains(h));
        let j = choose|j: int| 0 <= j < b.len() && b[j] == h;
        assert(a.remove(a.len() - 1) =~= a.drop_last());
        lemma_keyed_of_permutation(a.drop_last(), b.remove(j));
        lemma_keyed_without(b, j);
    }
}

proof fn lemma_insert_ranked_counts(ranking: Seq<Merged>, g: Merged)
    ensures
        folded(insert_ranked(ranking, g)) == folded(ranking) + g.hit_count,
    decreases ranking.len(),
{
    let all = insert_ranked(ranking, g);
    if ranking.len() > 0 && outranks(g, ranking.last()) {
        let inner = insert_ranked(ranking.drop_last(), g);
        lemma_insert_ranked_counts(ranking.drop_last(), g);
        assert(all.drop_last() =~= inner);
    } else {
        assert(all.drop_last() =~= ranking);
    }
}

proof fn lemma_ranked_counts(groups: Seq<Merged>)
    ensures
        folded(ranked(groups)) == folded(groups),
    decreases groups.len(),
{
    if groups.len() > 0 {
        lemma_ranked_counts(groups.drop_last());
        lemma_insert_ranked_counts(ranked(groups.drop_last()), groups.last());
    }
}

/// Every hit that has a key is counted in exactly one merged result.
pub proof fn law_merge_counts_every_hit(hits: Seq<Hit>, queries: Seq<Seq<char>>)
    ensures
        folded(merged(hits, queries)) == keyed(hits),
{
    let order = merge_order(hits, queries);
    law_merge_order_is_a_permutation(hits, queries);
    lemma_keyed_of_permutation(order, hits);
    law_every_hit_is_counted(order);
    lemma_ranked_counts(group_hits(order));
}

proof fn lemma_faithful_to_permutation(a: Seq<Hit>, b: Seq<Hit>, g: Merged)
    requires
        faithful(a, g),
        forall|h: Hit| a.contains(h) <==> b.contains(h),
    ensures
        faithful(b, g),
{
    let key = g.canonical_url;
    assert forall|p: SearchProvider| #![trigger g.providers.contains(p)] g.providers.contains(
        p,
    ) <==> found_by(b, key, p) by {
        if found_by(a, key, p) {
            let k = choose|k: int|
                0 <= k < a.len() && result_key((#[trigger] a[k]).url) == key && a[k].provider == p;
            assert(a.contains(a[k]));
            let m = choose|m: int| 0 <= m < b.len() && b[m] == a[k];
            assert(b[m].provider == p);
        }
        if found_by(b, key, p) {
            let k = choose|k: int|
                0 <= k < b.len() && result_key((#[trigger] b[k]).url) == key && b[k].provider == p;
            assert(b.contains(b[k]));
            let m = choose|m: int| 0 <= m < a.len() && a[m] == b[k];
            assert(a[m].provider == p);
        }
    }
    assert forall|q: Seq<char>| #![trigger g.queries.contains(q)] g.queries.contains(q)
        <==> found_for(b, key, q) by {
        if found_for(a, key, q) {
            let k = choose|k: int|
                0 <= k < a.len() && result_key((#[trigger] a[k]).url) == key && a[k].query == q;
            assert(a.contains(a[k]));
            let m = choose|m: int| 0 <= m < b.len() && b[m] == a[k];
            assert(b[m].query == q);
        }
        if found_for(b, key, q) {
            let k = choose|k: int|
                0 <= k < b.len() && result_key((#[trigger] b[k]).url) == key && b[k].query == q;
            assert(b.contains(b[k]));
            let m = choose|m: int| 0 <= m < a.len() && a[m] == b[k];
            assert(a[m].query == q);
        }
    }
    let best = choose|k: int|
        0 <= k < a.len() && result_key((#[trigger] a[k]).url) == key && a[k].rank == g.best_rank
            && a[k].title == g.title && a[k].url == g.display_url;
    assert(a.contains(a[best]));
    let longest = choose|k: int|
        0 <= k < a.len() && result_key((#[trigger] a[k]).url) == key && a[k].snippet == g.snippet;
    assert(a.contains(a[longest]));
    assert forall|k: int|
        0 <= k < b.len() && result_key((#[trigger] b[k]).url) == key implies g.best_rank <= b[k].rank
        && byte_len(b[k].snippet) <= byte_len(g.snippet) by {
        assert(b.contains(b[k]));
        let m = choose|m: int| 0 <= m < a.len() && a[m] == b[k];
    }
}

/// What a merged result says is what the hits of its URL say, whatever the
/// order in which they came: it lists exactly the providers and queries that
/// found the URL, takes title and display URL from a hit of the lowest rank,
/// and has the longest snippet. Every hit that has a key has a result.
pub proof fn law_merge_is_faithful(hits: Seq<Hit>, queries: Seq<Seq<char>>)
    ensures
        forall|i: int|
            0 <= i < merged(hits, queries).len() ==> faithful(
                hits,
                #[trigger] merged(hits, queries)[i],
            ),
        forall|k: int|
            0 <= k < hits.len() && !is_blank(result_key((#[trigger] hits[k]).url)) ==> group_keys(
                merged(hits, queries),
            ).contains(result_key(hits[k].url)),
{
    broadcast use vstd::seq_lib::group_to_multiset_ensures;

    let order = merge_order(hits, queries);
    let groups = group_hits(order);
    let all = merged(hits, queries);
    law_merge_order_is_a_permutation(hits, queries);
    law_groups_are_faithful(order);
    law_ranking_is_a_permutation(groups);
    assert forall|h: Hit| order.contains(h) <==> hits.contains(h) by {
        assert(order.contains(h) <==> order.to_multiset().count(h) > 0);
        assert(hits.contains(h) <==> hits.to_multiset().count(h) > 0);
    }
    assert forall|g: Merged| groups.contains(g) <==> all.contains(g) by {
        assert(groups.contains(g) <==> groups.to_multiset().count(g) > 0);
        assert(all.contains(g) <==> all.to_multiset().count(g) > 0);
    }
    assert forall|i: int| 0 <= i < all.len() implies faithful(hits, #[trigger] all[i]) by {
        assert(all.contains(all[i]));
        let m = choose|m: int| 0 <= m < groups.len() && groups[m] == all[i];
        lemma_faithful_to_permutation(order, hits, groups[m]);
    }
    assert forall|k: int|
        0 <= k < hits.len() && !is_blank(
            result_key((#[trigger] hits[k]).url),
        ) implies group_keys(all).contains(result_key(hits[k].url)) by {
        assert(hits.contains(hits[k]));
        let j = choose|j: int| 0 <= j < order.len() && order[j] == hits[k];
        let key = result_key(order[j].url);
        assert(group_keys(groups).contains(key));
        let m = choose|m: int| 0 <= m < groups.len() && group_keys(groups)[m] == key;
        assert(groups.contains(groups[m]));
        let i = choose|i: int| 0 <= i < all.len() && all[i] == groups[m];
        assert(group_keys(all)[i] == key);
    }
}

/// The merged results stand in consensus order: what more providers found
/// comes first, then what has the lower rank, then what has the display URL
/// that comes first in the dictionary.
pub proof fn law_more_providers_come_first(
    hits: Seq<Hit>,
    queries: Seq<Seq<char>>,
    i: int,
    j: int,
)
    requires
        0 <= i < j < merged(hits, queries).len(),
    ensures
        ({
            let a = merged(hits, queries)[i];
            let b = merged(hits, queries)[j];
            &&& a.providers.len() >= b.providers.len()
            &&& a.providers.len() == b.providers.len() ==> a.best_rank <= b.best_rank
            &&& a.providers.len() == b.providers.len() && a.best_rank == b.best_rank ==> precedes(
                a.display_url,
                b.display_url,
            )
        }),
{
    law_merge_is_in_consensus_order(hits, queries);
    assert(outranks(merged(hits, queries)[i], merged(hits, queries)[j]));
}

/// The number of hits that have this key.
pub open spec fn hits_of(hits: Seq<Hit>, key: Seq<char>) -> nat
    decreases hits.len(),
{
    if hits.len() == 0 {
        0
    } else if result_key(hits[0].url) == key {
        1 + hits_of(hits.drop_first(), key)
    } else {
        hits_of(hits.drop_first(), key)
    }
}

/// Whether the group has the title, URL and rank of the first of its hits that
/// none of its hits beats.
pub open spec fn led_by_first(hits: Seq<Hit>, g: Merged) -> bool {
    exists|k: int|
        #![trigger hits[k]]
        0 <= k < hits.len() && result_key(hits[k].url) == g.canonical_url && hits[k].rank
            == g.best_rank && hits[k].title == g.title && hits[k].url == g.display_url && forall|
            j: int,
        |
            #![trigger hits[j]]
            0 <= j < k && result_key(hits[j].url) == g.canonical_url ==> hits[j].rank > g.best_rank
}

/// Whether the group has the snippet of the first of its hits whose snippet is
/// as long as any.
pub open spec fn shows_first_longest(hits: Seq<Hit>, g: Merged) -> bool {
    exists|k: int|
        #![trigger hits[k]]
        0 <= k < hits.len() && result_key(hits[k].url) == g.canonical_url && hits[k].snippet
            == g.snippet && forall|j: int|
            #![trigger hits[j]]
            0 <= j < k && result_key(hits[j].url) == g.canonical_url ==> byte_len(hits[j].snippet)
                < byte_len(g.snippet)
}

/// Whether the group has the date of the first of its hits that has one.
pub open spec fn dated_by_first(hits: Seq<Hit>, g: Merged) -> bool {
    match g.published_date {
        None => forall|j: int|
            #![trigger hits[j]]
            0 <= j < hits.len() && result_key(hits[j].url) == g.canonical_url
                ==> hits[j].published_date is None,
        Some(_) => exists|k: int|
            #![trigger hits[k]]
            0 <= k < hits.len() && result_key(hits[k].url) == g.canonical_url
                && hits[k].published_date == g.published_date && forall|j: int|
                #![trigger hits[j]]
                0 <= j < k && result_key(hits[j].url) == g.canonical_url
                    ==> hits[j].published_date is None,
    }
}

pub open spec fn told_by_first(hits: Seq<Hit>, g: Merged) -> bool {
    &&& g.hit_count == hits_of(hits, g.canonical_url)
    &&& led_by_first(hits, g)
    &&& shows_first_longest(hits, g)
    &&& dated_by_first(hits, g)
}

proof fn lemma_hits_of_push(hits: Seq<Hit>, h: Hit, key: Seq<char>)
    ensures
        hits_of(hits.push(h), key) == hits_of(hits, key) + if result_key(h.url) == key {
            1nat
        } else {
            0nat
        },
    decreases hits.len(),
{
    let all = hits.push(h);
    if hits.len() == 0 {
        reveal_with_fuel(hits_of, 2);
    } else {
        assert(all[0] == hits[0]);
        assert(all.drop_first() =~= hits.drop_first().push(h));
        lemma_hits_of_push(hits.drop_first(), h, key);
    }
}

proof fn lemma_no_hits_of(hits: Seq<Hit>, key: Seq<char>)
    requires
        forall|k: int| 0 <= k < hits.len() ==> result_key((#[trigger] hits[k]).url) != key,
    ensures
        hits_of(hits, key) == 0,
    decreases hits.len(),
{
    if hits.len() > 0 {
        assert forall|k: int| 0 <= k < hits.drop_first().len() implies result_key(
            (#[trigger] hits.drop_first()[k]).url,
        ) != key by {
            assert(hits.drop_first()[k] == hits[k + 1]);
        }
        lemma_no_hits_of(hits.drop_first(), key);
    }
}

proof fn lemma_told_other(hits: Seq<Hit>, h: Hit, g: Merged)
    requires
        told_by_first(hits, g),
        result_key(h.url) != g.canonical_url,
    ensures
        told_by_first(hits.push(h), g),
{
    let all = hits.push(h);
    let key = g.canonical_url;
    lemma_hits_of_push(hits, h, key);
    assert forall|k: int| 0 <= k < hits.len() implies all[k] == #[trigger] hits[k] by {}
    let a = choose|k: int|
        #![trigger hits[k]]
        0 <= k < hits.len() && result_key(hits[k].url) == key && hits[k].rank == g.best_rank
            && hits[k].title == g.title && hits[k].url == g.display_url && forall|j: int|
            #![trigger hits[j]]
            0 <= j < k && result_key(hits[j].url) == key ==> hits[j].rank > g.best_rank;
    assert(all[a] == hits[a]);
    assert forall|j: int|
        #![trigger all[j]]
        0 <= j < a && result_key(all[j].url) == key implies all[j].rank > g.best_rank by {
        assert(all[j] == hits[j]);
    }
    let b = choose|k: int|
        #![trigger hits[k]]
        0 <= k < hits.len() && result_key(hits[k].url) == key && hits[k].snippet == g.snippet
            && forall|j: int|
            #![trigger hits[j]]
            0 <= j < k && result_key(hits[j].url) == key ==> byte_len(hits[j].snippet) < byte_len(
                g.snippet,
            );
    assert(all[b] == hits[b]);
    assert forall|j: int|
        #![trigger all[j]]
        0 <= j < b && result_key(all[j].url) == key implies byte_len(all[j].snippet) < byte_len(
        g.snippet,
    ) by {
        assert(all[j] == hits[j]);
    }
    if g.published_date is Some {
        let c = choose|k: int|
            #![trigger hits[k]]
            0 <= k < hits.len() && result_key(hits[k].url) == key && hits[k].published_date
                == g.published_date && forall|j: int|
                #![trigger hits[j]]
                0 <= j < k && result_key(hits[j].url) == key ==> hits[j].published_date is None;
        assert(all[c] == hits[c]);
        assert forall|j: int|
            #![trigger all[j]]
            0 <= j < c && result_key(all[j].url) == key implies all[j].published_date is None by {
            assert(all[j] == hits[j]);
        }
    } else {
        assert forall|j: int|
            #![trigger all[j]]
            0 <= j < all.len() && result_key(all[j].url) == key implies all[j].published_date
            is None by {
            assert(all[j] == hits[j]);
        }
    }
}

proof fn lemma_told_folded(hits: Seq<Hit>, h: Hit, g: Merged)
    requires
        told_by_first(hits, g),
        faithful(hits, g),
        result_key(h.url) == g.canonical_url,
    ensures
        told_by_first(hits.push(h), fold_hit(g, h)),
{
    let all = hits.push(h);
    let f = fold_hit(g, h);
    let key = g.canonical_url;
    let n = hits.len() as int;
    lemma_hits_of_push(hits, h, key);
    assert(all[n] == h);
    assert forall|k: int| 0 <= k < hits.len() implies all[k] == #[trigger] hits[k] by {}
    let a = choose|k: int|
        #![trigger hits[k]]
        0 <= k < hits.len() && result_key(hits[k].url) == key && hits[k].rank == g.best_rank
            && hits[k].title == g.title && hits[k].url == g.display_url && forall|j: int|
            #![trigger hits[j]]
            0 <= j < k && result_key(hits[j].url) == key ==> hits[j].rank > g.best_rank;
    if h.rank < g.best_rank {
        assert forall|j: int|
            #![trigger all[j]]
            0 <= j < n && result_key(all[j].url) == key implies all[j].rank > f.best_rank by {
            assert(all[j] == hits[j]);
        }
    } else {
        assert(all[a] == hits[a]);
        assert forall|j: int|
            #![trigger all[j]]
            0 <= j < a && result_key(all[j].url) == key implies all[j].rank > f.best_rank by {
            assert(all[j] == hits[j]);
        }
    }
    assert(led_by_first(all, f));
    let b = choose|k: int|
        #![trigger hits[k]]
        0 <= k < hits.len() && result_key(hits[k].url) == key && hits[k].snippet == g.snippet
            && forall|j: int|
            #![trigger hits[j]]
            0 <= j < k && result_key(hits[j].url) == key ==> byte_len(hits[j].snippet) < byte_len(
                g.snippet,
            );
    if byte_len(h.snippet) > byte_len(g.snippet) {
        assert forall|j: int|
            #![trigger all[j]]
            0 <= j < n && result_key(all[j].url) == key implies byte_len(all[j].snippet) < byte_len(
            f.snippet,
        ) by {
            assert(all[j] == hits[j]);
        }
    } else {
        assert(all[b] == hits[b]);
        assert forall|j: int|
            #![trigger all[j]]
            0 <= j < b && result_key(all[j].url) == key implies byte_len(all[j].snippet) < byte_len(
            f.snippet,
        ) by {
            assert(all[j] == hits[j]);
        }
    }
    assert(shows_first_longest(all, f));
    if g.published_date is Some {
        let c = choose|k: int|
            #![trigger hits[k]]
            0 <= k < hits.len() && result_key(hits[k].url) == key && hits[k].published_date
                == g.published_date && forall|j: int|
                #![trigger hits[j]]
                0 <= j < k && result_key(hits[j].url) == key ==> hits[j].published_date is None;
        assert(all[c] == hits[c]);
        assert forall|j: int|
            #![trigger all[j]]
            0 <= j < c && result_key(all[j].url) == key implies all[j].published_date is None by {
            assert(all[j] == hits[j]);
        }
    } else {
        assert forall|j: int|
            #![trigger all[j]]
            0 <= j < n && result_key(all[j].url) == key implies all[j].published_date is None by {
            assert(all[j] == hits[j]);
        }
    }
    assert(dated_by_first(all, f));
}

proof fn lemma_groups_are_told_by_first(hits: Seq<Hit>)
    ensures
        forall|i: int|
            0 <= i < group_hits(hits).len() ==> told_by_first(
                hits,
                #[trigger] group_hits(hits)[i],
            ),
    decreases hits.len(),
{
    if hits.len() > 0 {
        let front = hits.drop_last();
        let before = group_hits(front);
        let h = hits.last();
        let key = result_key(h.url);
        let i = first_index(group_keys(before), key) as int;
        let after = group_hits(hits);
        assert(front.push(h) =~= hits);
        lemma_groups_are_told_by_first(front);
        law_groups_are_faithful(front);
        law_groups_are_well_formed(front);
        lemma_first_index(group_keys(before), key);
        assert forall|k: int| 0 <= k < before.len() implies #[trigger] group_keys(before)[k]
            == before[k].canonical_url by {}
        assert forall|j: int| 0 <= j < after.len() implies told_by_first(
            hits,
            #[trigger] after[j],
        ) by {
            if is_blank(key) {
                assert(crate::shared::web_engine_search::dedup::well_formed(before[j]));
                lemma_told_other(front, h, before[j]);
            } else if j < before.len() && j == i {
                assert(faithful(front, before[j]));
                lemma_told_folded(front, h, before[j]);
            } else if j < before.len() {
                assert(group_keys(before)[j] == before[j].canonical_url);
                if i < before.len() {
                    assert(group_keys(before)[i] == key);
                    if j < i {
                        assert(before[j].canonical_url != before[i].canonical_url);
                    } else {
                        assert(before[i].canonical_url != before[j].canonical_url);
                    }
                }
                lemma_told_other(front, h, before[j]);
            } else {
                assert forall|k: int| 0 <= k < front.len() implies result_key(
                    (#[trigger] front[k]).url,
                ) != key by {
                    if result_key(front[k].url) == key {
                        assert(group_keys(before).contains(key));
                    }
                }
                lemma_no_hits_of(front, key);
                lemma_hits_of_push(front, h, key);
                let n = front.len() as int;
                assert(hits[n] == h);
                assert forall|k: int|
                    #![trigger hits[k]]
                    0 <= k < hits.len() && result_key(hits[k].url) == key implies k == n by {
                    if k < n {
                        assert(hits[k] == front[k]);
                    }
                }
            }
        }
    }
}

/// Of the hits of one URL the first in merge order that has the lowest rank
/// gives the title and the display URL, the first of the longest gives the
/// snippet, and the first that has a date gives the date; and each hit of the
/// URL is counted once.
pub proof fn law_merged_results_are_told_by_their_first_hits(
    hits: Seq<Hit>,
    queries: Seq<Seq<char>>,
    i: int,
)
    requires
        0 <= i < merged(hits, queries).len(),
    ensures
        ({
            let g = merged(hits, queries)[i];
            let order = merge_order(hits, queries);
            &&& g.hit_count == hits_of(hits, g.canonical_url)
            &&& led_by_first(order, g)
            &&& shows_first_longest(order, g)
            &&& dated_by_first(order, g)
        }),
{
    broadcast use vstd::seq_lib::group_to_multiset_ensures;

    let order = merge_order(hits, queries);
    let groups = group_hits(order);
    let all = merged(hits, queries);
    lemma_groups_are_told_by_first(order);
    law_ranking_is_a_permutation(groups);
    law_merge_order_is_a_permutation(hits, queries);
    assert(all.contains(all[i]));
    assert(all.to_multiset().count(all[i]) > 0);
    assert(groups.to_multiset().count(all[i]) > 0);
    assert(groups.contains(all[i]));
    let m = choose|m: int| 0 <= m < groups.len() && groups[m] == all[i];
    assert(told_by_first(order, groups[m]));
    lemma_hits_of_permutation(order, hits, all[i].canonical_url);
}

proof fn lemma_hits_of_without(hits: Seq<Hit>, i: int, key: Seq<char>)
    requires
        0 <= i < hits.len(),
    ensures
        hits_of(hits, key) == hits_of(hits.remove(i), key) + if result_key(hits[i].url) == key {
            1nat
        } else {
            0nat
        },
    decreases hits.len(),
{
    if i == 0 {
        assert(hits.remove(i) =~= hits.drop_first());
    } else {
        assert(hits.remove(i)[0] == hits[0]);
        assert(hits.remove(i).drop_first() =~= hits.drop_first().remove(i - 1));
        lemma_hits_of_without(hits.drop_first(), i - 1, key);
    }
}

proof fn lemma_hits_of_permutation(a: Seq<Hit>, b: Seq<Hit>, key: Seq<char>)
    requires
        a.to_multiset() == b.to_multiset(),
    ensures
        hits_of(a, key) == hits_of(b, key),
    decreases a.len(),
{
    broadcast use vstd::seq_lib::group_to_multiset_ensures;

    assert(a.len() == a.to_multiset().len() && b.len() == b.to_multiset().len());
    if a.len() > 0 {
        let h = a.last();
        assert(a[a.len() - 1] == h);
        assert(a.contains(h));
        assert(a.to_multiset().count(h) > 0);
        assert(b.contains(h));
        let j = choose|j: int| 0 <= j < b.len() && b[j] == h;
        assert(a.remove(a.len() - 1) =~= a.drop_last());
        lemma_hits_of_permutation(a.drop_last(), b.remove(j), key);
        lemma_hits_of_without(b, j, key);
        lemma_hits_of_without(a, a.len() - 1, key);
    }
}

proof fn lemma_leg_hits_are_of_the_leg(
    hits: Seq<Hit>,
    p: SearchProvider,
    order: Seq<Seq<char>>,
    slot: nat,
)
    ensures
        forall|i: int|
            #![trigger leg_hits(hits, p, order, slot)[i]]
            0 <= i < leg_hits(hits, p, order, slot).len() ==> leg_hits(
                hits,
                p,
                order,
                slot,
            )[i].provider == p && first_index(order, leg_hits(hits, p, order, slot)[i].query)
                == slot,
    decreases hits.len(),
{
    if hits.len() > 0 {
        lemma_leg_hits_are_of_the_leg(hits.drop_last(), p, order, slot);
    }
}

proof fn lemma_provider_hits_in_query_order(
    hits: Seq<Hit>,
    p: SearchProvider,
    order: Seq<Seq<char>>,
    n: nat,
)
    ensures
        ({
            let all = provider_hits(hits, p, order, n);
            &&& forall|i: int|
                #![trigger all[i]]
                0 <= i < all.len() ==> all[i].provider == p && first_index(order, all[i].query) < n
            &&& forall|i: int, j: int|
                #![trigger all[i], all[j]]
                0 <= i < j < all.len() ==> first_index(order, all[i].query) <= first_index(
                    order,
                    all[j].query,
                )
        }),
    decreases n,
{
    if n > 0 {
        lemma_provider_hits_in_query_order(hits, p, order, (n - 1) as nat);
        lemma_leg_hits_are_of_the_leg(hits, p, order, (n - 1) as nat);
        let a = provider_hits(hits, p, order, (n - 1) as nat);
        let b = leg_hits(hits, p, order, (n - 1) as nat);
        let all = a + b;
        assert forall|i: int| #![trigger all[i]] 0 <= i < all.len() implies all[i].provider == p
            && first_index(order, all[i].query) < n by {
            if i < a.len() {
                assert(all[i] == a[i]);
            } else {
                assert(all[i] == b[i - a.len()]);
            }
        }
        assert forall|i: int, j: int| #![trigger all[i], all[j]] 0 <= i < j
            < all.len() implies first_index(order, all[i].query) <= first_index(
            order,
            all[j].query,
        ) by {
            if j < a.len() {
                assert(all[i] == a[i] && all[j] == a[j]);
            } else {
                assert(all[j] == b[j - a.len()]);
                if i < a.len() {
                    assert(all[i] == a[i]);
                } else {
                    assert(all[i] == b[i - a.len()]);
                }
            }
        }
    }
}

proof fn lemma_first_index_of_front(a: Seq<Seq<char>>, b: Seq<Seq<char>>, x: Seq<char>)
    requires
        a.contains(x),
    ensures
        first_index(a + b, x) == first_index(a, x),
    decreases a.len(),
{
    assert((a + b)[0] == a[0]);
    if a[0] != x {
        let k = choose|k: int| 0 <= k < a.len() && a[k] == x;
        assert(a.drop_first()[k - 1] == x);
        assert((a + b).drop_first() =~= a.drop_first() + b);
        lemma_first_index_of_front(a.drop_first(), b, x);
    }
}

/// The hits are merged provider by provider, Startpage first, and for each
/// provider query by query in the order of the queries.
pub proof fn law_merge_goes_leg_by_leg(hits: Seq<Hit>, queries: Seq<Seq<char>>, i: int, j: int)
    requires
        0 <= i < j < merge_order(hits, queries).len(),
    ensures
        ({
            let a = merge_order(hits, queries)[i];
            let b = merge_order(hits, queries)[j];
            &&& a.provider == SearchProvider::DuckDuckGo ==> b.provider
                == SearchProvider::DuckDuckGo
            &&& a.provider == b.provider && queries.contains(b.query) ==> queries.contains(a.query)
                && exists|m: int|
                #![trigger queries[m]]
                0 <= m < queries.len() && queries[m] == a.query && forall|n: int|
                    #![trigger queries[n]]
                    0 <= n < m ==> queries[n] != b.query
        }),
{
    let order = query_order(hits, queries);
    let more = strangers(hits, queries);
    let x = provider_hits(hits, SearchProvider::Startpage, order, order.len());
    let y = provider_hits(hits, SearchProvider::DuckDuckGo, order, order.len());
    let all = merge_order(hits, queries);
    lemma_provider_hits_in_query_order(hits, SearchProvider::Startpage, order, order.len());
    lemma_provider_hits_in_query_order(hits, SearchProvider::DuckDuckGo, order, order.len());
    if i < x.len() {
        assert(all[i] == x[i]);
    } else {
        assert(all[i] == y[i - x.len()]);
    }
    if j < x.len() {
        assert(all[j] == x[j]);
    } else {
        assert(all[j] == y[j - x.len()]);
    }
    let a = all[i];
    let b = all[j];
    if a.provider == b.provider && queries.contains(b.query) {
        lemma_first_index_of_front(queries, more, b.query);
        lemma_first_index(queries, b.query);
        lemma_first_index(order, a.query);
        let m = first_index(order, a.query) as int;
        assert(m <= first_index(queries, b.query));
        assert(order[m] == queries[m]);
        assert(queries[m] == a.query);
    }
}

/// The hits of one provider for one query, in order.
pub open spec fn of_leg(hits: Seq<Hit>, p: SearchProvider, q: Seq<char>) -> Seq<Hit>
    decreases hits.len(),
{
    if hits.len() == 0 {
        Seq::empty()
    } else if hits.last().provider == p && hits.last().query == q {
        of_leg(hits.drop_last(), p, q).push(hits.last())
    } else {
        of_leg(hits.drop_last(), p, q)
    }
}

proof fn lemma_of_leg_concat(a: Seq<Hit>, b: Seq<Hit>, p: SearchProvider, q: Seq<char>)
    ensures
        of_leg(a + b, p, q) == of_leg(a, p, q) + of_leg(b, p, q),
    decreases b.len(),
{
    if b.len() == 0 {
        assert(a + b =~= a);
        assert(of_leg(a, p, q) + of_leg(b, p, q) =~= of_leg(a, p, q));
    } else {
        assert((a + b).drop_last() =~= a + b.drop_last());
        lemma_of_leg_concat(a, b.drop_last(), p, q);
        assert(of_leg(a + b, p, q) =~= of_leg(a, p, q) + of_leg(b, p, q));
    }
}

proof fn lemma_of_leg_in_leg(
    hits: Seq<Hit>,
    owner: SearchProvider,
    order: Seq<Seq<char>>,
    slot: nat,
    p: SearchProvider,
    q: Seq<char>,
)
    ensures
        of_leg(leg_hits(hits, owner, order, slot), p, q) == if owner == p && first_index(order, q)
            == slot {
            of_leg(hits, p, q)
        } else {
            Seq::<Hit>::empty()
        },
    decreases hits.len(),
{
    if hits.len() > 0 {
        lemma_of_leg_in_leg(hits.drop_last(), owner, order, slot, p, q);
        let before = leg_hits(hits.drop_last(), owner, order, slot);
        let h = hits.last();
        assert(before.push(h).drop_last() =~= before);
    }
}

proof fn lemma_of_leg_in_provider(
    hits: Seq<Hit>,
    owner: SearchProvider,
    order: Seq<Seq<char>>,
    n: nat,
    p: SearchProvider,
    q: Seq<char>,
)
    ensures
        of_leg(provider_hits(hits, owner, order, n), p, q) == if owner == p && first_index(order, q)
            < n {
            of_leg(hits, p, q)
        } else {
            Seq::<Hit>::empty()
        },
    decreases n,
{
    if n > 0 {
        let slot = (n - 1) as nat;
        lemma_of_leg_in_provider(hits, owner, order, slot, p, q);
        lemma_of_leg_in_leg(hits, owner, order, slot, p, q);
        let a = provider_hits(hits, owner, order, slot);
        let b = leg_hits(hits, owner, order, slot);
        lemma_of_leg_concat(a, b, p, q);
        assert(of_leg(hits, p, q) + Seq::<Hit>::empty() =~= of_leg(hits, p, q));
        assert(Seq::<Hit>::empty() + of_leg(hits, p, q) =~= of_leg(hits, p, q));
    }
}

proof fn lemma_of_leg_empty(hits: Seq<Hit>, p: SearchProvider, q: Seq<char>)
    requires
        forall|k: int| 0 <= k < hits.len() ==> (#[trigger] hits[k]).query != q,
    ensures
        of_leg(hits, p, q) == Seq::<Hit>::empty(),
    decreases hits.len(),
{
    if hits.len() > 0 {
        assert(hits[hits.len() - 1] == hits.last());
        assert forall|k: int| 0 <= k < hits.drop_last().len() implies (
        #[trigger] hits.drop_last()[k]).query != q by {
            assert(hits.drop_last()[k] == hits[k]);
        }
        lemma_of_leg_empty(hits.drop_last(), p, q);
    }
}

/// The hits of one provider for one query are merged in the order in which it
/// gave them.
pub proof fn law_legs_keep_their_order(
    hits: Seq<Hit>,
    queries: Seq<Seq<char>>,
    p: SearchProvider,
    q: Seq<char>,
)
    ensures
        of_leg(merge_order(hits, queries), p, q) == of_leg(hits, p, q),
{
    let order = query_order(hits, queries);
    let x = provider_hits(hits, SearchProvider::Startpage, order, order.len());
    let y = provider_hits(hits, SearchProvider::DuckDuckGo, order, order.len());
    lemma_of_leg_concat(x, y, p, q);
    lemma_of_leg_in_provider(hits, SearchProvider::Startpage, order, order.len(), p, q);
    lemma_of_leg_in_provider(hits, SearchProvider::DuckDuckGo, order, order.len(), p, q);
    if first_index(order, q) >= order.len() {
        assert forall|k: int| 0 <= k < hits.len() implies (#[trigger] hits[k]).query != q by {
            lemma_every_query_has_a_place(hits, queries, k);
        }
        lemma_of_leg_empty(hits, p, q);
    }
    assert(of_leg(hits, p, q) + Seq::<Hit>::empty() =~= of_leg(hits, p, q));
    assert(Seq::<Hit>::empty() + of_leg(hits, p, q) =~= of_leg(hits, p, q));
}

/// Two results are one exactly where their addresses are: the scheme, a `www.`
/// before the host and a slash behind the path make no difference, the rest of
/// the path and the query do.
pub proof fn law_addresses_tell_results_apart(
    host: Seq<char>,
    path: Seq<char>,
    query: Option<Seq<char>>,
    other: Option<Seq<char>>,
)
    requires
        !("www."@.is_prefix_of(host)),
        !("/"@.is_suffix_of(path)),
    ensures
        url_identity("www."@ + host, path, query) == url_identity(host, path, query),
        url_identity(host, path + "/"@, query) == url_identity(host, path, query),
        url_identity(host, path, None) == host + path,
        query is Some ==> url_identity(host, path, query) == host + path + "?"@ + query->0,
        query != other ==> url_identity(host, path, query) != url_identity(host, path, other),
{
    reveal_strlit("www.");
    reveal_strlit("/");
    reveal_strlit("?");
    let w = "www."@ + host;
    let s = path + "/"@;
    assert(w.subrange(0, 4) =~= "www."@);
    assert(w.skip(4) =~= host);
    assert(s.subrange(s.len() - 1, s.len() as int) =~= "/"@);
    assert(s.drop_last() =~= path);
    let base = host + path;
    match (query, other) {
        (Some(a), Some(b)) => {
            assert((base + "?"@ + a).skip((base.len() + 1) as int) =~= a);
            assert((base + "?"@ + b).skip((base.len() + 1) as int) =~= b);
        },
        (Some(a), None) => {
            assert((base + "?"@ + a).len() > base.len());
        },
        (None, Some(b)) => {
            assert((base + "?"@ + b).len() > base.len());
        },
        _ => {},
    }
}

/// The key of a URL is made of its host, path and query alone, and what is no
/// URL is its own key.
pub proof fn law_keys_are_made_of_addresses(raw: Seq<char>)
    ensures
        parsed_url(trim(raw)) is None ==> result_key(raw) == trim(raw),
        parsed_url(trim(raw)) matches Some(url) ==> url.host is None ==> result_key(raw) == trim(
            raw,
        ),
        parsed_url(trim(raw)) matches Some(url) ==> url.host is Some ==> result_key(raw)
            == url_identity(lowercase(url.host->0), url.path, url.query),
{
}

/// What a merged result lists is listed in one order: the providers with
/// Startpage first, and the queries as in a dictionary; each of them once.
pub proof fn law_merged_results_list_in_order(hits: Seq<Hit>, queries: Seq<Seq<char>>, i: int)
    requires
        0 <= i < merged(hits, queries).len(),
    ensures
        ({
            let g = merged(hits, queries)[i];
            &&& 1 <= g.providers.len() <= 2
            &&& g.providers.len() == 2 ==> g.providers[0] == SearchProvider::Startpage
                && g.providers[1] == SearchProvider::DuckDuckGo
            &&& g.queries.len() >= 1
            &&& forall|a: int, b: int|
                0 <= a < b < g.queries.len() ==> precedes(
                    #[trigger] g.queries[a],
                    #[trigger] g.queries[b],
                )
            &&& g.canonical_url == result_key(g.display_url)
            &&& !is_blank(g.canonical_url)
        }),
{
    law_merge_is_in_consensus_order(hits, queries);
    let g = merged(hits, queries)[i];
    assert(crate::shared::web_engine_search::dedup::well_formed(g));
    if g.providers.len() > 2 {
        let a = g.providers[0];
        let b = g.providers[1];
        let c = g.providers[2];
    }
    if g.providers.len() == 2 {
        let a = g.providers[0];
        let b = g.providers[1];
    }
}

} // verus!
