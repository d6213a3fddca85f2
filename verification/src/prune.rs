//! Keeping the easiest cohorts.
//!
//! A list of cohorts that has outgrown its cap is ranked by difficulty, ties
//! going to the cohort that stood first, and cut off at the cap.
use crate::path::{cohorts, Cohort, Path};
use crate::score::{difficulty_of, lemma_cost_bound};
use vstd::prelude::*;

verus! {

/// The order of keys, each a cohort's difficulty paired with its position
/// in the list: by difficulty, then by position.
pub open spec fn key_before(a: (u128, usize), b: (u128, usize)) -> bool {
    a.0 < b.0 || (a.0 == b.0 && a.1 <= b.1)
}

/// `Vec::sort` on pairs of integers: the sorted list holds the same pairs
/// as before, each as often, and in ascending order, pairs being compared by
/// their first part and then by their second.
#[verifier::external_body]
fn sort_keys(keys: &mut Vec<(u128, usize)>)
    ensures
        final(keys)@.to_multiset() == old(keys)@.to_multiset(),
        forall|a: int, b: int|
            0 <= a < b < final(keys)@.len() ==> key_before(
                #[trigger] final(keys)@[a],
                #[trigger] final(keys)@[b],
            ),
{
    keys.sort()
}

/// The cohort at position `a` ranks before the one at position `b`: it is
/// easier, or as easy and stands first.
pub open spec fn ranks_before(list: Seq<Cohort>, a: int, b: int) -> bool {
    let cost_a = difficulty_of(list[a].inputs);
    let cost_b = difficulty_of(list[b].inputs);
    cost_a < cost_b || (cost_a == cost_b && a < b)
}

/// `order` lists the positions of `list` by rank: every position once,
/// each ranking before all that come after it.
pub open spec fn ranking(list: Seq<Cohort>, order: Seq<int>) -> bool {
    &&& order.len() == list.len()
    &&& forall|t: int| 0 <= t < order.len() ==> 0 <= #[trigger] order[t] < list.len()
    &&& forall|t: int, u: int|
        0 <= t < u < order.len() ==> ranks_before(list, #[trigger] order[t], #[trigger] order[u])
    &&& forall|j: int| 0 <= j < list.len() ==> #[trigger] order.contains(j)
}

/// `after` holds the cohorts at the first `cap` positions of `order`.
pub open spec fn selects(before: Seq<Cohort>, after: Seq<Cohort>, order: Seq<int>, cap: int) -> bool {
    &&& after.len() == cap
    &&& forall|t: int| 0 <= t < cap ==> #[trigger] after[t] == before[order[t]]
}

/// `after` is `before` cut down to `cap`: unchanged where it is within the
/// cap, else its `cap` first cohorts by rank, in ranked order.
pub open spec fn pruned(before: Seq<Cohort>, after: Seq<Cohort>, cap: int) -> bool {
    if before.len() <= cap {
        after == before
    } else {
        exists|order: Seq<int>| #[trigger] ranking(before, order) && selects(before, after, order, cap)
    }
}

/// A pruned list is no longer than the cap nor than the list it came from.
pub proof fn lemma_pruned_len(before: Seq<Cohort>, after: Seq<Cohort>, cap: int)
    requires
        0 <= cap,
        pruned(before, after, cap),
    ensures
        after.len() <= cap,
        after.len() <= before.len(),
        after.len() == cap || after.len() == before.len(),
{
}

/// No cohort that pruning keeps is harder than one that it drops: every
/// position that `order` ranks past the cap holds a cohort at least as hard
/// as each of the kept ones.
pub proof fn lemma_pruned_keeps_easiest(
    before: Seq<Cohort>,
    after: Seq<Cohort>,
    order: Seq<int>,
    cap: int,
)
    requires
        0 <= cap < before.len(),
        ranking(before, order),
        selects(before, after, order, cap),
    ensures
        forall|t: int, j: int|
            0 <= t < cap && 0 <= j < before.len() && !order.take(cap).contains(j)
                ==> difficulty_of((#[trigger] after[t]).inputs) <= difficulty_of(
                (#[trigger] before[j]).inputs,
            ),
{
    assert forall|t: int, j: int|
        0 <= t < cap && 0 <= j < before.len() && !order.take(cap).contains(
            j,
        ) implies difficulty_of((#[trigger] after[t]).inputs) <= difficulty_of(
        (#[trigger] before[j]).inputs,
    ) by {
        assert(order.contains(j));
        let u = choose|u: int| 0 <= u < order.len() && order[u] == j;
        if u < cap {
            assert(order.take(cap)[u] == j);
        }
        assert(ranks_before(before, order[t], order[u]));
        assert(after[t] == before[order[t]]);
    }
}

/// The ranking of a list is unique.
pub proof fn lemma_ranking_unique(list: Seq<Cohort>, first: Seq<int>, second: Seq<int>)
    requires
        ranking(list, first),
        ranking(list, second),
    ensures
        first == second,
{
    let n = list.len() as int;
    assert forall|t: int| 0 <= t < n implies first[t] == second[t] by {
        lemma_rank_agrees(list, first, second, t);
        lemma_rank_agrees(list, second, first, t);
    }
    assert(first =~= second);
}

/// Pruning has one outcome.
pub proof fn lemma_pruned_unique(
    before: Seq<Cohort>,
    first: Seq<Cohort>,
    second: Seq<Cohort>,
    cap: int,
)
    requires
        0 <= cap,
        pruned(before, first, cap),
        pruned(before, second, cap),
    ensures
        first == second,
{
    if before.len() > cap {
        let a = choose|order: Seq<int>| #[trigger]
            ranking(before, order) && selects(before, first, order, cap);
        let b = choose|order: Seq<int>| #[trigger]
            ranking(before, order) && selects(before, second, order, cap);
        lemma_ranking_unique(before, a, b);
        assert(first =~= second);
    }
}

/// The positions that rank before the one at place `t` of a ranking are
/// among those at the places before `t`.
proof fn lemma_rank_position(list: Seq<Cohort>, order: Seq<int>, t: int)
    requires
        ranking(list, order),
        0 <= t < order.len(),
    ensures
        forall|j: int|
            0 <= j < list.len() && ranks_before(list, j, order[t]) ==> order.take(t).contains(j),
{
    assert forall|j: int|
        0 <= j < list.len() && ranks_before(list, j, order[t]) implies order.take(t).contains(
        j,
    ) by {
        assert(order.contains(j));
        let u = choose|u: int| 0 <= u < order.len() && order[u] == j;
        if u > t {
            assert(ranks_before(list, order[t], order[u]));
        }
        assert(u < t);
        assert(order.take(t)[u] == j);
    }
}

/// What one ranking holds at a place does not rank before what another
/// holds there: else the first would have more positions up to that place
/// than the second has room for before it.
proof fn lemma_rank_agrees(list: Seq<Cohort>, low: Seq<int>, high: Seq<int>, t: int)
    requires
        ranking(list, low),
        ranking(list, high),
        0 <= t < list.len(),
    ensures
        !ranks_before(list, low[t], high[t]),
{
    if ranks_before(list, low[t], high[t]) {
        lemma_rank_position(list, high, t);
        let head = low.take(t + 1);
        let room = high.take(t);
        assert forall|u: int| 0 <= u < head.len() implies room.contains(#[trigger] head[u]) by {
            if u < t {
                assert(ranks_before(list, low[u], low[t]));
            }
            assert(ranks_before(list, low[u], high[t]));
        }
        assert(head.no_duplicates()) by {
            assert forall|x: int, y: int|
                0 <= x < head.len() && 0 <= y < head.len() && x != y implies head[x]
                != head[y] by {
                if x < y {
                    assert(ranks_before(list, low[x], low[y]));
                } else {
                    assert(ranks_before(list, low[y], low[x]));
                }
            }
        }
        lemma_no_room(head, room);
    }
}

/// A list without repeats whose items all occur in another list is no
/// longer than that list.
proof fn lemma_no_room(items: Seq<int>, room: Seq<int>)
    requires
        items.no_duplicates(),
        forall|u: int| 0 <= u < items.len() ==> room.contains(#[trigger] items[u]),
    ensures
        items.len() <= room.len(),
    decreases items.len(),
{
    if items.len() > 0 {
        let last = items.last();
        assert(room.contains(items[items.len() - 1]));
        let at = choose|at: int| 0 <= at < room.len() && room[at] == last;
        let rest = items.drop_last();
        let less = room.remove(at);
        assert forall|u: int| 0 <= u < rest.len() implies less.contains(#[trigger] rest[u]) by {
            assert(room.contains(items[u]));
            let v = choose|v: int| 0 <= v < room.len() && room[v] == items[u];
            assert(items[u] != items[items.len() - 1]);
            if v < at {
                assert(less[v] == rest[u]);
            } else {
                assert(less[v - 1] == rest[u]);
            }
        }
        lemma_no_room(rest, less);
    }
}

/// Cuts a list of cohorts down to `cap`, keeping the easiest.
pub fn prune(paths: Vec<Path>, cap: usize) -> (kept: Vec<Path>)
    ensures
        pruned(cohorts(paths@), cohorts(kept@), cap as int),
        kept@.len() == if paths@.len() <= cap {
            paths@.len()
        } else {
            cap as nat
        },
{
    let n = paths.len();
    if n <= cap {
        return paths;
    }
    let mut keys: Vec<(u128, usize)> = Vec::with_capacity(n);
    let mut i: usize = 0;
    while i < n
        invariant
            i <= n,
            n == paths@.len(),
            keys@.len() == i,
            forall|j: int|
                0 <= j < i ==> #[trigger] keys@[j] == (
                    difficulty_of(paths@[j].inputs@) as u128,
                    j as usize,
                ),
        decreases n - i,
    {
        keys.push((paths[i].difficulty(), i));
        i += 1;
    }
    let ghost unsorted = keys@;
    sort_keys(&mut keys);
    proof {
        broadcast use vstd::seq_lib::to_multiset_len, vstd::seq_lib::to_multiset_contains;

        assert(keys@.len() == n) by {
            assert(keys@.to_multiset().len() == unsorted.to_multiset().len());
        }
        assert forall|t: int| 0 <= t < n implies unsorted.contains(#[trigger] keys@[t]) by {
            assert(keys@.contains(keys@[t]));
            assert(keys@.to_multiset().count(keys@[t]) > 0);
            assert(unsorted.to_multiset().count(keys@[t]) > 0);
        }
        assert forall|j: int| 0 <= j < n implies keys@.contains(#[trigger] unsorted[j]) by {
            assert(unsorted.contains(unsorted[j]));
            assert(unsorted.to_multiset().count(unsorted[j]) > 0);
            assert(keys@.to_multiset().count(unsorted[j]) > 0);
        }
        assert(unsorted.no_duplicates());
        unsorted.lemma_multiset_has_no_duplicates();
        keys@.lemma_multiset_has_no_duplicates_conv();
    }
    let mut kept: Vec<Path> = Vec::with_capacity(cap);
    let mut t: usize = 0;
    while t < cap
        invariant
            t <= cap < n,
            n == paths@.len(),
            keys@.len() == n,
            forall|u: int| 0 <= u < n ==> unsorted.contains(#[trigger] keys@[u]),
            unsorted.len() == n,
            forall|j: int|
                0 <= j < n ==> #[trigger] unsorted[j] == (
                    difficulty_of(paths@[j].inputs@) as u128,
                    j as usize,
                ),
            kept@.len() == t,
            forall|u: int| 0 <= u < t ==> (#[trigger] kept@[u])@ == paths@[keys@[u].1 as int]@,
        decreases cap - t,
    {
        let at = keys[t].1;
        proof {
            assert(unsorted.contains(keys@[t as int]));
        }
        kept.push(paths[at].duplicate());
        t += 1;
    }
    proof {
        let before = cohorts(paths@);
        let order = Seq::new(n as nat, |u: int| keys@[u].1 as int);
        assert forall|u: int| 0 <= u < n implies 0 <= #[trigger] order[u] < n && keys@[u] == (
            difficulty_of(before[order[u]].inputs) as u128,
            order[u] as usize,
        ) by {
            assert(unsorted.contains(keys@[u]));
        }
        assert forall|u: int, v: int| 0 <= u < v < n implies ranks_before(
            before,
            #[trigger] order[u],
            #[trigger] order[v],
        ) by {
            assert(key_before(keys@[u], keys@[v]));
            assert(keys@[u] != keys@[v]);
            lemma_cost_bound(before[order[u]].inputs);
            lemma_cost_bound(before[order[v]].inputs);
        }
        assert forall|j: int| 0 <= j < n implies #[trigger] order.contains(j) by {
            assert(keys@.contains(unsorted[j]));
            let u = choose|u: int| 0 <= u < keys@.len() && keys@[u] == unsorted[j];
            assert(order[u] == j);
        }
        assert(ranking(before, order));
        assert(selects(before, cohorts(kept@), order, cap as int));
    }
    kept
}

} // verus!
