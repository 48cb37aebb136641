//! The candidate aggregator and ranking engine: cross-source deduplication by
//! identity with source-rank precedence, and per-query scoring, weighting and
//! ordering of the collected items.

use crate::history::{bump, lookup, render_hist, upsert, History};
use crate::scorer::{lemma_score_of_bounds, match_and_score, score_of};
use crate::text::{lower_of, lowercase_str, str_eq};
use vstd::multiset::Multiset;
use vstd::prelude::*;
use vstd::seq_lib::group_to_multiset_ensures;

verus! {

/// One launchable candidate. `identity` names the underlying action: it is
/// the dedup key and the usage-history key.
pub struct FuzzyItem {
    pub display: String,
    pub identity: String,
    pub priority: u8,
    pub source_order: usize,
    pub description: String,
    pub source_path: String,
    pub search_desc: bool,
    pub icon: String,
}

impl Clone for FuzzyItem {
    fn clone(&self) -> (r: Self)
        ensures
            r == *self,
    {
        FuzzyItem {
            display: self.display.clone(),
            identity: self.identity.clone(),
            priority: self.priority,
            source_order: self.source_order,
            description: self.description.clone(),
            source_path: self.source_path.clone(),
            search_desc: self.search_desc,
            icon: self.icon.clone(),
        }
    }
}

/// Some item with this identity is in the collection.
pub open spec fn contains_exec(s: Seq<FuzzyItem>, e: Seq<char>) -> bool {
    exists|i: int| 0 <= i < s.len() && (#[trigger] s[i]).identity@ == e
}

/// No identity occurs twice.
pub open spec fn unique_execs(s: Seq<FuzzyItem>) -> bool {
    forall|i: int, j: int|
        0 <= i < j < s.len() ==> (#[trigger] s[i]).identity@ != (#[trigger] s[j]).identity@
}

/// How `contains_exec` and `unique_execs` read on an item prepended to a tail.
proof fn lemma_items_cons_facts(h: FuzzyItem, t: Seq<FuzzyItem>, e: Seq<char>)
    ensures
        contains_exec(seq![h] + t, e) == (h.identity@ == e || contains_exec(t, e)),
        unique_execs(seq![h] + t) == (!contains_exec(t, h.identity@) && unique_execs(t)),
{
    let u = seq![h] + t;
    assert(u[0] == h);
    assert(forall|i: int| 0 <= i < t.len() ==> #[trigger] t[i] == u[i + 1]);
    if h.identity@ == e || contains_exec(t, e) {
        if h.identity@ == e {
            assert(u[0].identity@ == e);
        } else {
            let i = choose|i: int| 0 <= i < t.len() && (#[trigger] t[i]).identity@ == e;
            assert(u[i + 1].identity@ == e);
        }
        assert(contains_exec(u, e));
    }
    if contains_exec(u, e) {
        let i = choose|i: int| 0 <= i < u.len() && (#[trigger] u[i]).identity@ == e;
        if i == 0 {
            assert(h.identity@ == e);
        } else {
            assert(t[i - 1].identity@ == e);
        }
    }
    if unique_execs(u) {
        assert forall|i: int, j: int| 0 <= i < j < t.len() implies (#[trigger] t[i]).identity@ != (
        #[trigger] t[j]).identity@ by {
            assert(u[i + 1].identity@ != u[j + 1].identity@);
        }
        if contains_exec(t, h.identity@) {
            let i = choose|i: int| 0 <= i < t.len() && (#[trigger] t[i]).identity@ == h.identity@;
            assert(u[0].identity@ == u[i + 1].identity@);
            assert(false);
        }
    }
    if !contains_exec(t, h.identity@) && unique_execs(t) {
        assert forall|i: int, j: int| 0 <= i < j < u.len() implies (#[trigger] u[i]).identity@ != (
        #[trigger] u[j]).identity@ by {
            if i == 0 {
                if u[j].identity@ == h.identity@ {
                    assert(t[j - 1].identity@ == h.identity@);
                    assert(contains_exec(t, h.identity@));
                }
            } else {
                assert(t[i - 1].identity@ != t[j - 1].identity@);
            }
        }
    }
}

/// One incoming item folded into the collection: a new identity is appended;
/// a known identity is replaced only by a strictly lower (more trusted)
/// source rank, first seen winning ties.
pub open spec fn merge_insert(acc: Seq<FuzzyItem>, it: FuzzyItem) -> Seq<FuzzyItem>
    decreases acc.len(),
{
    if acc.len() == 0 {
        seq![it]
    } else if acc[0].identity@ == it.identity@ {
        if it.source_order < acc[0].source_order {
            seq![it] + acc.drop_first()
        } else {
            acc
        }
    } else {
        seq![acc[0]] + merge_insert(acc.drop_first(), it)
    }
}

/// A batch folded into the collection, in arrival order.
pub open spec fn merge_seq(acc: Seq<FuzzyItem>, items: Seq<FuzzyItem>) -> Seq<FuzzyItem>
    decreases items.len(),
{
    if items.len() == 0 {
        acc
    } else {
        merge_seq(merge_insert(acc, items[0]), items.drop_first())
    }
}

/// Inserting over the first matching identity is an update in place (or no
/// change, when the incumbent has precedence).
proof fn lemma_merge_insert_at(acc: Seq<FuzzyItem>, it: FuzzyItem, t: int)
    requires
        0 <= t < acc.len(),
        acc[t].identity@ == it.identity@,
        forall|u: int| 0 <= u < t ==> (#[trigger] acc[u]).identity@ != it.identity@,
    ensures
        merge_insert(acc, it) == if it.source_order < acc[t].source_order {
            acc.update(t, it)
        } else {
            acc
        },
    decreases t,
{
    if t == 0 {
        if it.source_order < acc[0].source_order {
            assert(seq![it] + acc.drop_first() =~= acc.update(0, it));
        }
    } else {
        assert(acc[0].identity@ != it.identity@);
        assert(forall|i: int|
            0 <= i < acc.drop_first().len() ==> #[trigger] acc.drop_first()[i] == acc[i + 1]);
        lemma_merge_insert_at(acc.drop_first(), it, t - 1);
        if it.source_order < acc[t].source_order {
            assert(seq![acc[0]] + acc.drop_first().update(t - 1, it) =~= acc.update(t, it));
        } else {
            assert(seq![acc[0]] + acc.drop_first() =~= acc);
        }
    }
}

/// Inserting a fresh identity appends it.
proof fn lemma_merge_insert_missing(acc: Seq<FuzzyItem>, it: FuzzyItem)
    requires
        !contains_exec(acc, it.identity@),
    ensures
        merge_insert(acc, it) == acc.push(it),
    decreases acc.len(),
{
    if acc.len() == 0 {
        assert(merge_insert(acc, it) =~= acc.push(it));
    } else {
        assert(acc[0].identity@ != it.identity@);
        assert(!contains_exec(acc.drop_first(), it.identity@)) by {
            if contains_exec(acc.drop_first(), it.identity@) {
                let i = choose|i: int|
                    0 <= i < acc.drop_first().len() && (#[trigger] acc.drop_first()[i]).identity@
                        == it.identity@;
                assert(acc[i + 1].identity@ == it.identity@);
            }
        }
        lemma_merge_insert_missing(acc.drop_first(), it);
        assert(seq![acc[0]] + acc.drop_first().push(it) =~= acc.push(it));
    }
}

/// Folding an item in preserves identity uniqueness.
proof fn lemma_merge_insert_unique(acc: Seq<FuzzyItem>, it: FuzzyItem)
    requires
        unique_execs(acc),
    ensures
        unique_execs(merge_insert(acc, it)),
    decreases acc.len(),
{
    if acc.len() == 0 {
    } else {
        assert(acc =~= seq![acc[0]] + acc.drop_first());
        lemma_items_cons_facts(acc[0], acc.drop_first(), it.identity@);
        if acc[0].identity@ == it.identity@ {
            if it.source_order < acc[0].source_order {
                lemma_items_cons_facts(it, acc.drop_first(), it.identity@);
            }
        } else {
            lemma_merge_insert_unique(acc.drop_first(), it);
            lemma_merge_insert_contains(acc.drop_first(), it, acc[0].identity@);
            lemma_items_cons_facts(acc[0], merge_insert(acc.drop_first(), it), acc[0].identity@);
        }
    }
}

/// Which identities the collection holds after a fold.
proof fn lemma_merge_insert_contains(acc: Seq<FuzzyItem>, it: FuzzyItem, e: Seq<char>)
    ensures
        contains_exec(merge_insert(acc, it), e) == (contains_exec(acc, e) || it.identity@ == e),
    decreases acc.len(),
{
    if acc.len() == 0 {
        assert(merge_insert(acc, it) =~= seq![it] + Seq::<FuzzyItem>::empty());
        lemma_items_cons_facts(it, Seq::empty(), e);
        assert(!contains_exec(acc, e));
    } else {
        assert(acc =~= seq![acc[0]] + acc.drop_first());
        lemma_items_cons_facts(acc[0], acc.drop_first(), e);
        if acc[0].identity@ == it.identity@ {
            if it.source_order < acc[0].source_order {
                lemma_items_cons_facts(it, acc.drop_first(), e);
            }
        } else {
            lemma_merge_insert_contains(acc.drop_first(), it, e);
            lemma_items_cons_facts(acc[0], merge_insert(acc.drop_first(), it), e);
        }
    }
}

/// Law: two items sharing an identity merge, from an empty collection, to the
/// one with the strictly lower source rank in either arrival order; on a tie
/// the first-arrived item is retained.
pub proof fn lemma_merge_precedence(a: FuzzyItem, b: FuzzyItem)
    requires
        a.identity@ == b.identity@,
    ensures
        a.source_order < b.source_order ==> merge_seq(Seq::empty(), seq![a, b]) == seq![a]
            && merge_seq(Seq::empty(), seq![b, a]) == seq![a],
        a.source_order == b.source_order ==> merge_seq(Seq::empty(), seq![a, b]) == seq![a]
            && merge_seq(Seq::empty(), seq![b, a]) == seq![b],
{
    let e = Seq::<FuzzyItem>::empty();
    let ab = seq![a, b];
    let ba = seq![b, a];
    assert(merge_insert(e, a) =~= seq![a]);
    assert(merge_insert(e, b) =~= seq![b]);
    assert(ab.drop_first() =~= seq![b]);
    assert(ba.drop_first() =~= seq![a]);
    assert(seq![b].drop_first() =~= e);
    assert(seq![a].drop_first() =~= e);
    assert(merge_seq(e, ab) == merge_seq(seq![a], seq![b]));
    assert(merge_seq(seq![a], seq![b]) == merge_seq(merge_insert(seq![a], b), e));
    assert(merge_seq(e, ba) == merge_seq(seq![b], seq![a]));
    assert(merge_seq(seq![b], seq![a]) == merge_seq(merge_insert(seq![b], a), e));
    if b.source_order < a.source_order {
        assert(merge_insert(seq![a], b) =~= seq![b] + seq![a].drop_first());
        assert(merge_insert(seq![a], b) =~= seq![b]);
    }
    if a.source_order < b.source_order {
        assert(merge_insert(seq![b], a) =~= seq![a] + seq![b].drop_first());
        assert(merge_insert(seq![b], a) =~= seq![a]);
    }
}

/// The score a field contributes before weighting: the scorer's value, or
/// zero where the field does not match.
pub open spec fn field_score(h: Seq<char>, q: Seq<char>) -> int {
    match score_of(h, q) {
        Some(v) => v,
        None => 0,
    }
}

/// The non-negative part of a score.
pub open spec fn clamp_pos(v: int) -> int {
    if v > 0 {
        v
    } else {
        0
    }
}

/// The weighted sum of the per-field scores for a nonempty query, in tenths:
/// display weighs 1.0; identity 0.8 when it differs from display; description
/// 0.6 when flagged searchable; origin path 0.4 when it differs from the
/// identity. Only the display may contribute a negative part.
pub open spec fn weighted_sum(item: FuzzyItem, q: Seq<char>) -> int {
    field_score(item.display@, q) * 10 + (if item.identity@ != item.display@ {
        clamp_pos(field_score(item.identity@, q)) * 8
    } else {
        0
    }) + (if item.search_desc {
        clamp_pos(field_score(item.description@, q)) * 6
    } else {
        0
    }) + (if item.source_path@ != item.identity@ {
        clamp_pos(field_score(item.source_path@, q)) * 4
    } else {
        0
    })
}

/// The final score of a matched item for a nonempty query, in tenths: the
/// weighted sum plus the history boost, multiplied by the priority class.
pub open spec fn query_score(item: FuzzyItem, q: Seq<char>, hist: u32) -> int {
    (weighted_sum(item, q) + 100 * hist) * item.priority
}

/// The score of an item for the empty query, in tenths: priority plus the
/// history boost, additively.
pub open spec fn empty_query_score(item: FuzzyItem, hist: u32) -> int {
    10 * item.priority + 100 * hist
}

/// The scored pairs a ranking pass produces, before ordering: every item for
/// the empty query; for a nonempty query exactly the items whose weighted sum
/// is positive.
pub open spec fn ranked_pairs(items: Seq<FuzzyItem>, h: History, q: Seq<char>) -> Seq<
    (int, FuzzyItem),
> {
    if q.len() == 0 {
        items.map_values(|it: FuzzyItem| (empty_query_score(it, h.count_of(it.identity@)), it))
    } else {
        items.filter(|it: FuzzyItem| weighted_sum(it, q) > 0).map_values(
            |it: FuzzyItem| (query_score(it, q, h.count_of(it.identity@)), it),
        )
    }
}

/// Scored pairs as plain values.
pub open spec fn pairs_view(s: Seq<(i64, FuzzyItem)>) -> Seq<(int, FuzzyItem)> {
    s.map_values(|p: (i64, FuzzyItem)| (p.0 as int, p.1))
}

/// Law: with a fixed query, an item's final score strictly increases with its
/// usage count, all else equal — for the empty query and, for any item of a
/// positive priority class, for nonempty queries too.
pub proof fn lemma_history_boost_monotone(item: FuzzyItem, q: Seq<char>, h1: u32, h2: u32)
    requires
        h1 < h2,
    ensures
        empty_query_score(item, h1) < empty_query_score(item, h2),
        item.priority >= 1 ==> query_score(item, q, h1) < query_score(item, q, h2),
{
    if item.priority >= 1 {
        let w = weighted_sum(item, q);
        assert((w + 100 * (h1 as int)) * (item.priority as int) < (w + 100 * (h2 as int)) * (
        item.priority as int)) by (nonlinear_arith)
            requires
                h1 < h2 && item.priority >= 1,
        ;
    }
}

/// The fuzzy finder: the deduplicated candidate collection together with the
/// usage history that biases its ranking.
pub struct FuzzyFinder {
    items: Vec<FuzzyItem>,
    history: History,
}

impl FuzzyFinder {
    /// The candidate collection, in its collection order.
    pub closed spec fn items_view(self) -> Seq<FuzzyItem> {
        self.items@
    }

    /// The usage history the ranking reads.
    pub closed spec fn hist(self) -> History {
        self.history
    }

    /// Identities are unique and the history is well formed.
    pub open spec fn wf(self) -> bool {
        unique_execs(self.items_view()) && self.hist().wf()
    }

    /// An empty finder over the stored history text, if any; without one the
    /// history is a permanent no-op.
    pub fn new(stored_history: Option<String>) -> (f: FuzzyFinder)
        ensures
            f.wf(),
            f.items_view() == Seq::<FuzzyItem>::empty(),
            f.hist().is_enabled() == (stored_history is Some),
            stored_history is Some ==> f.hist().rows() == crate::history::parse_hist(
                stored_history->0@,
            ),
    {
        let f = FuzzyFinder { items: Vec::new(), history: History::new(stored_history) };
        proof {
            assert(f.items_view() =~= Seq::<FuzzyItem>::empty());
        }
        f
    }

    /// Folds a batch into the collection: fresh identities are added, known
    /// ones keep whichever item has the strictly lower source rank, the
    /// incumbent winning ties.
    pub fn add_items(&mut self, new_items: Vec<FuzzyItem>)
        requires
            old(self).wf(),
        ensures
            final(self).wf(),
            final(self).items_view() == merge_seq(old(self).items_view(), new_items@),
            final(self).hist() == old(self).hist(),
    {
        let ghost start = self.items@;
        let n = new_items.len();
        let mut k: usize = 0;
        proof {
            assert(new_items@.skip(0) =~= new_items@);
        }
        while k < n
            invariant
                k <= n,
                n == new_items@.len(),
                unique_execs(self.items@),
                merge_seq(start, new_items@) == merge_seq(self.items@, new_items@.skip(k as int)),
                self.history == old(self).history,
            decreases n - k,
        {
            proof {
                assert(new_items@.skip(k as int).len() > 0);
                assert(new_items@.skip(k as int)[0] == new_items@[k as int]);
                assert(new_items@.skip(k as int).drop_first() =~= new_items@.skip(k as int + 1));
            }
            let it = new_items[k].clone();
            merge_one(&mut self.items, it);
            k = k + 1;
        }
        proof {
            assert(new_items@.skip(n as int).len() == 0);
        }
    }

    /// Records one use of `identity` and hands back the history text to be
    /// persisted, or `None` when no history is configured.
    pub fn record_usage(&mut self, command: &str) -> (saved: Option<String>)
        requires
            old(self).wf(),
        ensures
            final(self).wf(),
            final(self).items_view() == old(self).items_view(),
            final(self).hist().is_enabled() == old(self).hist().is_enabled(),
            !old(self).hist().is_enabled() ==> final(self).hist().rows() == old(self).hist().rows()
                && saved is None,
            old(self).hist().is_enabled() ==> final(self).hist().rows() == upsert(
                old(self).hist().rows(),
                command@,
                bump(lookup(old(self).hist().rows(), command@)),
            ),
            old(self).hist().is_enabled() ==> saved is Some && saved->0@ == render_hist(
                final(self).hist().rows(),
            ),
    {
        self.history.record_usage(command)
    }

    /// How many candidates the collection holds.
    pub fn item_count(&self) -> (n: usize)
        ensures
            n == self.items_view().len(),
    {
        self.items.len()
    }

    /// Ranks the collection for `query`: the scored pairs of `ranked_pairs`,
    /// ordered by descending score.
    #[verifier::rlimit(100)]
    pub fn find(&self, query: &str) -> (r: Vec<(i64, FuzzyItem)>)
        ensures
            pairs_view(r@).to_multiset() == ranked_pairs(
                self.items_view(),
                self.hist(),
                lower_of(query@),
            ).to_multiset(),
            forall|a: int, b: int| 0 <= a < b < r@.len() ==> r@[a].0 >= r@[b].0,
    {
        let q = lowercase_str(query);
        let ghost qv = lower_of(query@);
        let n = self.items.len();
        let mut scored: Vec<(i64, FuzzyItem)> = Vec::new();
        let mut k: usize = 0;
        if q.as_str().is_empty() {
            proof {
                assert(self.items@.take(0) =~= Seq::<FuzzyItem>::empty());
                assert(pairs_view(scored@) =~= ranked_pairs(self.items@.take(0), self.hist(), qv));
            }
            while k < n
                invariant
                    k <= n,
                    n == self.items@.len(),
                    qv.len() == 0,
                    pairs_view(scored@) == ranked_pairs(self.items@.take(k as int), self.hist(), qv),
                decreases n - k,
            {
                let ghost pre = scored@;
                let item = &self.items[k];
                let boost = self.history.get_count(item.identity.as_str());
                let score: i64 = 10 * (item.priority as i64) + 100 * (boost as i64);
                scored.push((score, item.clone()));
                proof {
                    let f = |it: FuzzyItem|
                        (empty_query_score(it, self.hist().count_of(it.identity@)), it);
                    assert(self.items@.take(k as int + 1).map_values(f) =~= self.items@.take(
                        k as int,
                    ).map_values(f).push(f(self.items@[k as int])));
                    assert(pairs_view(scored@) =~= pairs_view(pre).push(
                        (score as int, self.items@[k as int]),
                    ));
                }
                k = k + 1;
            }
            proof {
                assert(self.items@.take(n as int) =~= self.items@);
            }
            return sort_pairs(scored);
        }
        proof {
            assert(qv.len() > 0);
            assert(self.items@.take(0) =~= Seq::<FuzzyItem>::empty());
            assert(ranked_pairs(self.items@.take(0), self.hist(), qv) =~= Seq::<
                (int, FuzzyItem),
            >::empty());
            assert(pairs_view(scored@) =~= ranked_pairs(self.items@.take(0), self.hist(), qv));
        }
        while k < n
            invariant
                k <= n,
                n == self.items@.len(),
                qv.len() > 0,
                q@ == qv,
                pairs_view(scored@) == ranked_pairs(self.items@.take(k as int), self.hist(), qv),
            decreases n - k,
        {
            let ghost pre = scored@;
            let item = &self.items[k];
            proof {
                lemma_score_of_bounds(item.display@, qv);
                lemma_score_of_bounds(item.identity@, qv);
                lemma_score_of_bounds(item.description@, qv);
                lemma_score_of_bounds(item.source_path@, qv);
            }
            let mut total: i64 = 10 * match match_and_score(item.display.as_str(), q.as_str()) {
                Some(v) => v,
                None => 0,
            };
            if !str_eq(item.identity.as_str(), item.display.as_str()) {
                let s = match match_and_score(item.identity.as_str(), q.as_str()) {
                    Some(v) => if v > 0 {
                        v
                    } else {
                        0
                    },
                    None => 0,
                };
                total = total + 8 * s;
            }
            if item.search_desc {
                let s = match match_and_score(item.description.as_str(), q.as_str()) {
                    Some(v) => if v > 0 {
                        v
                    } else {
                        0
                    },
                    None => 0,
                };
                total = total + 6 * s;
            }
            if !str_eq(item.source_path.as_str(), item.identity.as_str()) {
                let s = match match_and_score(item.source_path.as_str(), q.as_str()) {
                    Some(v) => if v > 0 {
                        v
                    } else {
                        0
                    },
                    None => 0,
                };
                total = total + 4 * s;
            }
            proof {
                assert(total as int == weighted_sum(self.items@[k as int], qv));
            }
            let ghost f = |it: FuzzyItem| (query_score(it, qv, self.hist().count_of(it.identity@)), it);
            let ghost p = |it: FuzzyItem| weighted_sum(it, qv) > 0;
            if total > 0 {
                let boost = self.history.get_count(item.identity.as_str());
                let with_boost = total + 100 * (boost as i64);
                proof {
                    assert((with_boost as int) * (item.priority as int) <= 170000000000000 * 255
                        && (with_boost as int) * (item.priority as int) >= -170000000000000
                        * 255) by (nonlinear_arith)
                        requires
                            -170000000000000 <= with_boost as int <= 170000000000000 && 0
                                <= item.priority as int <= 255,
                    ;
                }
                let score: i64 = with_boost * (item.priority as i64);
                scored.push((score, item.clone()));
                proof {
                    let x = self.items@[k as int];
                    lemma_filter_take_step(self.items@, p, k as int);
                    assert(self.items@.take(k as int + 1).filter(p) == self.items@.take(
                        k as int,
                    ).filter(p).push(x));
                    assert(self.items@.take(k as int).filter(p).push(x).map_values(f)
                        =~= self.items@.take(k as int).filter(p).map_values(f).push(f(x)));
                    assert(pairs_view(scored@) =~= pairs_view(pre).push((score as int, x)));
                }
            } else {
                proof {
                    lemma_filter_take_step(self.items@, p, k as int);
                }
            }
            k = k + 1;
        }
        proof {
            assert(self.items@.take(n as int) =~= self.items@);
        }
        sort_pairs(scored)
    }
}

/// Filtering one more item either appends it or changes nothing.
proof fn lemma_filter_take_step(s: Seq<FuzzyItem>, p: spec_fn(FuzzyItem) -> bool, k: int)
    requires
        0 <= k < s.len(),
    ensures
        s.take(k + 1).filter(p) == if p(s[k]) {
            s.take(k).filter(p).push(s[k])
        } else {
            s.take(k).filter(p)
        },
{
    reveal_with_fuel(Seq::filter, 2);
    let x = s[k];
    assert(s.take(k + 1) =~= s.take(k) + seq![x]);
    Seq::filter_distributes_over_add(s.take(k), seq![x], p);
    assert(seq![x].drop_last() =~= Seq::<FuzzyItem>::empty());
    if p(x) {
        assert(seq![x].filter(p) == seq![x]) by {
            assert(Seq::<FuzzyItem>::empty().filter(p) =~= Seq::<FuzzyItem>::empty());
            assert(Seq::<FuzzyItem>::empty().push(x) =~= seq![x]);
        }
        assert(s.take(k).filter(p) + seq![x] =~= s.take(k).filter(p).push(x));
    } else {
        assert(seq![x].filter(p) =~= Seq::<FuzzyItem>::empty());
        assert(s.take(k).filter(p) + Seq::<FuzzyItem>::empty() =~= s.take(k).filter(p));
    }
}

/// Folds one item into the collection in place.
fn merge_one(items: &mut Vec<FuzzyItem>, it: FuzzyItem)
    requires
        unique_execs(old(items)@),
    ensures
        final(items)@ == merge_insert(old(items)@, it),
        unique_execs(final(items)@),
{
    let ghost it0 = it;
    proof {
        lemma_merge_insert_unique(old(items)@, it0);
    }
    let n = items.len();
    let mut t: usize = 0;
    while t < n
        invariant
            t <= n,
            n == items@.len(),
            items@ == old(items)@,
            it == it0,
            unique_execs(merge_insert(old(items)@, it0)),
            forall|u: int| 0 <= u < t ==> (#[trigger] items@[u]).identity@ != it0.identity@,
        decreases n - t,
    {
        if str_eq(items[t].identity.as_str(), it.identity.as_str()) {
            proof {
                lemma_merge_insert_at(items@, it0, t as int);
            }
            if it.source_order < items[t].source_order {
                let _old = items.remove(t);
                items.insert(t, it);
                proof {
                    assert(items@ =~= old(items)@.update(t as int, it0));
                    assert(items@ == merge_insert(old(items)@, it0));
                    assert(unique_execs(items@));
                }
            } else {
                proof {
                    assert(items@ == merge_insert(old(items)@, it0));
                    assert(unique_execs(items@));
                }
            }
            return ;
        }
        t = t + 1;
    }
    proof {
        assert(!contains_exec(items@, it0.identity@));
        lemma_merge_insert_missing(items@, it0);
    }
    items.push(it);
    proof {
        assert(items@ == merge_insert(old(items)@, it0));
        assert(unique_execs(items@));
    }
}

/// Orders scored pairs by descending score: repeatedly moves the first
/// highest-scored remaining pair across, preserving the pairs as a multiset.
fn sort_pairs(input: Vec<(i64, FuzzyItem)>) -> (r: Vec<(i64, FuzzyItem)>)
    ensures
        pairs_view(r@).to_multiset() == pairs_view(input@).to_multiset(),
        forall|a: int, b: int| 0 <= a < b < r@.len() ==> r@[a].0 >= r@[b].0,
{
    broadcast use group_to_multiset_ensures, vstd::multiset::group_multiset_axioms;

    let ghost full = pairs_view(input@);
    let mut rem = input;
    let mut out: Vec<(i64, FuzzyItem)> = Vec::new();
    proof {
        assert(pairs_view(out@) =~= Seq::<(int, FuzzyItem)>::empty());
        assert(pairs_view(out@).to_multiset().add(pairs_view(rem@).to_multiset())
            =~= full.to_multiset());
    }
    while rem.len() > 0
        invariant
            pairs_view(out@).to_multiset().add(pairs_view(rem@).to_multiset())
                == full.to_multiset(),
            forall|a: int, b: int| 0 <= a < b < out@.len() ==> out@[a].0 >= out@[b].0,
            forall|t: int|
                0 <= t < rem@.len() && out@.len() > 0 ==> out@[out@.len() - 1].0 >= (
                #[trigger] rem@[t]).0,
        decreases rem@.len(),
    {
        let n = rem.len();
        let mut mx: usize = 0;
        let mut t: usize = 1;
        while t < n
            invariant
                mx < t <= n,
                n == rem@.len(),
                forall|u: int| 0 <= u < t ==> (#[trigger] rem@[u]).0 <= rem@[mx as int].0,
            decreases n - t,
        {
            if rem[t].0 > rem[mx].0 {
                mx = t;
            }
            t = t + 1;
        }
        let ghost pre_out = out@;
        let ghost pre_rem = rem@;
        let x = rem.remove(mx);
        out.push(x);
        proof {
            let px = (x.0 as int, x.1);
            assert(pairs_view(pre_rem)[mx as int] == px);
            assert(pairs_view(pre_rem).contains(px));
            assert(pairs_view(rem@) =~= pairs_view(pre_rem).remove(mx as int));
            vstd::seq_lib::to_multiset_remove(pairs_view(pre_rem), mx as int);
            vstd::seq_lib::to_multiset_build(pairs_view(pre_out), px);
            assert(pairs_view(pre_rem).remove(mx as int).to_multiset() =~= pairs_view(
                pre_rem,
            ).to_multiset().remove(px));
            assert(pairs_view(rem@).to_multiset() =~= pairs_view(pre_rem).to_multiset().remove(
                px,
            ));
            assert(pairs_view(out@) =~= pairs_view(pre_out).push(px));
            assert(pairs_view(pre_out).push(px).to_multiset() =~= pairs_view(
                pre_out,
            ).to_multiset().insert(px));
            assert(pairs_view(out@).to_multiset() =~= pairs_view(pre_out).to_multiset().insert(
                px,
            ));
            pairs_view(pre_rem).to_multiset_ensures();
            assert(pairs_view(pre_rem).to_multiset().count(px) > 0);
            assert(pairs_view(out@).to_multiset().add(pairs_view(rem@).to_multiset())
                =~= pairs_view(pre_out).to_multiset().add(pairs_view(pre_rem).to_multiset()));
            assert(forall|u: int| 0 <= u < pre_rem.len() ==> (#[trigger] pre_rem[u]).0 <= x.0);
            assert(forall|u: int|
                0 <= u < rem@.len() ==> (#[trigger] rem@[u]).0 == pairs_view(rem@)[u].0);
        }
    }
    proof {
        assert(pairs_view(rem@) =~= Seq::<(int, FuzzyItem)>::empty());
        assert(pairs_view(out@).to_multiset().add(Multiset::<(int, FuzzyItem)>::empty())
            =~= pairs_view(out@).to_multiset());
    }
    out
}

} // verus!
