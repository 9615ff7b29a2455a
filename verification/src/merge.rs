//! The merge reducer: combining per-chunk aggregates into one, and the
//! algebraic laws that make any merge order equivalent.

use vstd::prelude::*;

use crate::aggregate::{
    add_entry_spec, aggregate_spec, all_stats_wf, keys_distinct, lemma_map_of_props,
    lemma_sorted_distinct, map_of, total_count, AggregateMap,
};
use crate::stats::{
    combine_stats, lemma_combine_stats_associative, lemma_combine_stats_commutative,
    singleton_stats, StatsView,
};

verus! {

/// The merged mapping: the union of the keys, statistics combined where both
/// sides hold the key.
pub open spec fn merge_spec(a: Map<Seq<u8>, StatsView>, b: Map<Seq<u8>, StatsView>) -> Map<
    Seq<u8>,
    StatsView,
> {
    Map::new(
        |k: Seq<u8>| a.dom().contains(k) || b.dom().contains(k),
        |k: Seq<u8>|
            if a.dom().contains(k) && b.dom().contains(k) {
                combine_stats(a[k], b[k])
            } else if a.dom().contains(k) {
                a[k]
            } else {
                b[k]
            },
    )
}

/// The empty mapping is a unit of merging.
pub proof fn lemma_merge_empty(a: Map<Seq<u8>, StatsView>)
    ensures
        merge_spec(a, Map::empty()) == a,
        merge_spec(Map::empty(), a) == a,
{
    assert(merge_spec(a, Map::empty()) =~= a);
    assert(merge_spec(Map::empty(), a) =~= a);
}

/// Merging is commutative: the same statistics per key either way.
pub proof fn lemma_merge_commutative(a: Map<Seq<u8>, StatsView>, b: Map<Seq<u8>, StatsView>)
    ensures
        merge_spec(a, b) == merge_spec(b, a),
{
    assert forall|k: Seq<u8>| #[trigger]
        merge_spec(a, b).dom().contains(k) implies merge_spec(a, b)[k] == merge_spec(b, a)[k] by {
        if a.dom().contains(k) && b.dom().contains(k) {
            lemma_combine_stats_commutative(a[k], b[k]);
        }
    }
    assert(merge_spec(a, b) =~= merge_spec(b, a));
}

/// Merging is associative: any pairwise reduction order gives the same
/// statistics per key.
pub proof fn lemma_merge_associative(
    a: Map<Seq<u8>, StatsView>,
    b: Map<Seq<u8>, StatsView>,
    c: Map<Seq<u8>, StatsView>,
)
    ensures
        merge_spec(merge_spec(a, b), c) == merge_spec(a, merge_spec(b, c)),
{
    assert forall|k: Seq<u8>| #[trigger]
        merge_spec(merge_spec(a, b), c).dom().contains(k) implies merge_spec(merge_spec(a, b), c)[k]
        == merge_spec(a, merge_spec(b, c))[k] by {
        if a.dom().contains(k) && b.dom().contains(k) && c.dom().contains(k) {
            lemma_combine_stats_associative(a[k], b[k], c[k]);
        }
    }
    assert(merge_spec(merge_spec(a, b), c) =~= merge_spec(a, merge_spec(b, c)));
}

/// Folding one key into a merge is folding it into the right operand.
pub proof fn lemma_add_entry_merge(
    a: Map<Seq<u8>, StatsView>,
    b: Map<Seq<u8>, StatsView>,
    k: Seq<u8>,
    s: StatsView,
)
    ensures
        add_entry_spec(merge_spec(a, b), k, s) == merge_spec(a, add_entry_spec(b, k, s)),
{
    if a.dom().contains(k) && b.dom().contains(k) {
        lemma_combine_stats_associative(a[k], b[k], s);
    }
    assert(add_entry_spec(merge_spec(a, b), k, s) =~= merge_spec(a, add_entry_spec(b, k, s)));
}

/// Aggregating a concatenation is merging the parts' aggregates: the fold
/// over records is a homomorphism onto the merge algebra.
pub proof fn lemma_aggregate_append(r1: Seq<(Seq<u8>, int)>, r2: Seq<(Seq<u8>, int)>)
    ensures
        aggregate_spec(r1 + r2) == merge_spec(aggregate_spec(r1), aggregate_spec(r2)),
    decreases r2.len(),
{
    if r2.len() == 0 {
        assert(r1 + r2 =~= r1);
        lemma_merge_empty(aggregate_spec(r1));
    } else {
        lemma_aggregate_append(r1, r2.drop_last());
        assert((r1 + r2).drop_last() =~= r1 + r2.drop_last());
        assert((r1 + r2).last() == r2.last());
        lemma_add_entry_merge(
            aggregate_spec(r1),
            aggregate_spec(r2.drop_last()),
            r2.last().0,
            singleton_stats(r2.last().1),
        );
    }
}

/// A prefix accounts for no more measurements than the whole.
pub proof fn lemma_total_count_take_le(kv: Seq<(Seq<u8>, StatsView)>, m: int)
    requires
        all_stats_wf(kv),
        0 <= m <= kv.len(),
    ensures
        total_count(kv.take(m)) <= total_count(kv),
    decreases kv.len(),
{
    if m == kv.len() {
        assert(kv.take(m) =~= kv);
    } else {
        let dl = kv.drop_last();
        assert(all_stats_wf(dl)) by {
            assert forall|i: int| 0 <= i < dl.len() implies (#[trigger] dl[i]).1.wf() by {
                assert(kv[i].1.wf());
            }
        }
        lemma_total_count_take_le(dl, m);
        assert(dl.take(m) =~= kv.take(m));
        assert(kv[kv.len() - 1].1.wf());
    }
}

/// Merge two aggregates, consuming both: the union of their keys, with the
/// statistics of keys on both sides combined.
#[verifier::loop_isolation(false)]
pub fn merge_maps<'a>(dest: AggregateMap<'a>, src: AggregateMap<'a>) -> (r: AggregateMap<'a>)
    requires
        dest.wf(),
        src.wf(),
        total_count(dest.kv()) + total_count(src.kv()) <= u64::MAX,
    ensures
        r.wf(),
        r.as_map() == merge_spec(dest.as_map(), src.as_map()),
        total_count(r.kv()) == total_count(dest.kv()) + total_count(src.kv()),
{
    let ghost dmap = dest.as_map();
    let ghost dkv = dest.kv();
    let ghost skv = src.kv();
    proof {
        lemma_sorted_distinct(skv);
        lemma_merge_empty(dmap);
        assert(skv.take(0) =~= Seq::<(Seq<u8>, StatsView)>::empty());
    }
    let mut acc = dest;
    let n = src.entries.len();
    let mut i: usize = 0;
    while i < n
        invariant
            0 <= i <= n,
            n == skv.len(),
            acc.wf(),
            acc.as_map() == merge_spec(dmap, map_of(skv.take(i as int))),
            total_count(acc.kv()) == total_count(dkv) + total_count(skv.take(i as int)),
        decreases n - i,
    {
        let e = src.entries[i];
        proof {
            assert(skv[i as int] == (e.key@, e.stats@));
            assert(skv[i as int].1.wf());
            assert(skv.take(i + 1 as int).drop_last() =~= skv.take(i as int));
            assert(skv.take(i + 1 as int).last() == skv[i as int]);
            lemma_total_count_take_le(skv, i + 1 as int);
            assert(total_count(acc.kv()) + e.stats@.count <= u64::MAX);
            // The key is new to the prefix already folded in.
            let pre = skv.take(i as int);
            assert(keys_distinct(pre)) by {
                assert forall|x: int, y: int| 0 <= x < y < pre.len() implies pre[x].0 != pre[y].0 by {
                    assert(skv[x].0 != skv[y].0);
                }
            }
            lemma_map_of_props(pre);
            if map_of(pre).dom().contains(e.key@) {
                let w = choose|x: int| 0 <= x < pre.len() && (#[trigger] pre[x]).0 == e.key@;
                assert(skv[w].0 != skv[i as int].0);
                assert(false);
            }
            lemma_add_entry_merge(dmap, map_of(pre), e.key@, e.stats@);
        }
        acc.add_stats(e.key, e.stats);
        i = i + 1;
    }
    proof {
        assert(skv.take(n as int) =~= skv);
    }
    acc
}

} // verus!
