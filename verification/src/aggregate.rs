//! The aggregate map: per-key statistics over records, kept as a key-sorted
//! vector of entries with borrowed keys.

use vstd::prelude::*;
use vstd::slice::slice_subrange;

use crate::parse::{
    all_lines_valid, first_pos, key_of, lemma_first_pos, lemma_first_pos_is, lemma_lines_len,
    lemma_lines_split, line_value, lines_of, parse_data, records_of, records_of_lines, valid_line,
    NEWLINE,
};
use crate::Error;

use crate::order::{
    key_eq, key_lt, lemma_lex_lt_connected, lemma_lex_lt_irreflexive, lemma_lex_lt_transitive,
    lex_lt,
};
use crate::stats::{combine_stats, singleton_stats, StationData, StatsView, VAL_LIMIT};

verus! {

/// One key with its running statistics. The key is borrowed from the mapped
/// region: aggregation never copies key bytes.
#[derive(Clone, Copy, PartialEq, Eq, Debug)]
pub struct Entry<'a> {
    pub key: &'a [u8],
    pub stats: StationData,
}

/// The mapping denoted by a sequence of (key, statistics) pairs; a later pair
/// for the same key wins.
pub open spec fn map_of(kv: Seq<(Seq<u8>, StatsView)>) -> Map<Seq<u8>, StatsView>
    decreases kv.len(),
{
    if kv.len() == 0 {
        Map::empty()
    } else {
        map_of(kv.drop_last()).insert(kv.last().0, kv.last().1)
    }
}

/// Total number of measurements a kv sequence accounts for.
pub open spec fn total_count(kv: Seq<(Seq<u8>, StatsView)>) -> int
    decreases kv.len(),
{
    if kv.len() == 0 {
        0
    } else {
        total_count(kv.drop_last()) + kv.last().1.count
    }
}

pub open spec fn all_stats_wf(kv: Seq<(Seq<u8>, StatsView)>) -> bool {
    forall|i: int| 0 <= i < kv.len() ==> (#[trigger] kv[i]).1.wf()
}

pub open spec fn keys_sorted(kv: Seq<(Seq<u8>, StatsView)>) -> bool {
    forall|i: int, j: int| 0 <= i < j < kv.len() ==> lex_lt(kv[i].0, kv[j].0)
}

pub open spec fn keys_distinct(kv: Seq<(Seq<u8>, StatsView)>) -> bool {
    forall|i: int, j: int| 0 <= i < j < kv.len() ==> kv[i].0 != kv[j].0
}

pub proof fn lemma_sorted_distinct(kv: Seq<(Seq<u8>, StatsView)>)
    requires
        keys_sorted(kv),
    ensures
        keys_distinct(kv),
{
    assert forall|i: int, j: int| 0 <= i < j < kv.len() implies kv[i].0 != kv[j].0 by {
        lemma_lex_lt_irreflexive(kv[i].0);
        assert(lex_lt(kv[i].0, kv[j].0));
    }
}

/// For distinct keys, `map_of` holds exactly the entries.
pub proof fn lemma_map_of_props(kv: Seq<(Seq<u8>, StatsView)>)
    requires
        keys_distinct(kv),
    ensures
        forall|i: int|
            0 <= i < kv.len() ==> map_of(kv).dom().contains((#[trigger] kv[i]).0) && map_of(
                kv,
            )[kv[i].0] == kv[i].1,
        forall|k: Seq<u8>|
            map_of(kv).dom().contains(k) ==> exists|i: int|
                0 <= i < kv.len() && (#[trigger] kv[i]).0 == k,
    decreases kv.len(),
{
    if kv.len() > 0 {
        let dl = kv.drop_last();
        assert(keys_distinct(dl)) by {
            assert forall|i: int, j: int| 0 <= i < j < dl.len() implies dl[i].0 != dl[j].0 by {
                assert(kv[i].0 != kv[j].0);
            }
        }
        lemma_map_of_props(dl);
        assert forall|i: int|
            0 <= i < kv.len() implies map_of(kv).dom().contains((#[trigger] kv[i]).0) && map_of(
            kv,
        )[kv[i].0] == kv[i].1 by {
            if i < kv.len() - 1 {
                assert(dl[i] == kv[i]);
                assert(kv[i].0 != kv[kv.len() - 1].0);
            }
        }
        assert forall|k: Seq<u8>| map_of(kv).dom().contains(k) implies exists|i: int|
            0 <= i < kv.len() && (#[trigger] kv[i]).0 == k by {
            if k == kv.last().0 {
                assert(kv[kv.len() - 1].0 == k);
            } else {
                assert(map_of(dl).dom().contains(k));
                let i = choose|i: int| 0 <= i < dl.len() && (#[trigger] dl[i]).0 == k;
                assert(kv[i].0 == k);
            }
        }
    }
}

/// Replacing the statistics at one position updates the mapping at that key.
pub proof fn lemma_map_of_update(kv: Seq<(Seq<u8>, StatsView)>, idx: int, s: StatsView)
    requires
        keys_distinct(kv),
        0 <= idx < kv.len(),
    ensures
        map_of(kv.update(idx, (kv[idx].0, s))) == map_of(kv).insert(kv[idx].0, s),
    decreases kv.len(),
{
    let kv2 = kv.update(idx, (kv[idx].0, s));
    if idx == kv.len() - 1 {
        assert(kv2.drop_last() =~= kv.drop_last());
        assert(kv2.last() == (kv[idx].0, s));
        assert(map_of(kv).insert(kv[idx].0, s) =~= map_of(kv.drop_last()).insert(kv[idx].0, s));
    } else {
        let dl = kv.drop_last();
        assert(keys_distinct(dl)) by {
            assert forall|i: int, j: int| 0 <= i < j < dl.len() implies dl[i].0 != dl[j].0 by {
                assert(kv[i].0 != kv[j].0);
            }
        }
        assert(dl[idx] == kv[idx]);
        lemma_map_of_update(dl, idx, s);
        assert(kv2.drop_last() =~= dl.update(idx, (kv[idx].0, s)));
        assert(kv2.last() == kv.last());
        assert(kv[idx].0 != kv.last().0);
        assert(map_of(kv2) =~= map_of(kv).insert(kv[idx].0, s));
    }
}

/// Inserting a fresh key at any position inserts it into the mapping.
pub proof fn lemma_map_of_insert(kv: Seq<(Seq<u8>, StatsView)>, idx: int, k: Seq<u8>, s: StatsView)
    requires
        keys_distinct(kv),
        0 <= idx <= kv.len(),
        forall|i: int| 0 <= i < kv.len() ==> (#[trigger] kv[i]).0 != k,
    ensures
        map_of(kv.insert(idx, (k, s))) == map_of(kv).insert(k, s),
    decreases kv.len(),
{
    let kv2 = kv.insert(idx, (k, s));
    if idx == kv.len() {
        assert(kv2.drop_last() =~= kv);
        assert(kv2.last() == (k, s));
    } else {
        let dl = kv.drop_last();
        assert(keys_distinct(dl)) by {
            assert forall|i: int, j: int| 0 <= i < j < dl.len() implies dl[i].0 != dl[j].0 by {
                assert(kv[i].0 != kv[j].0);
            }
        }
        assert(forall|i: int| 0 <= i < dl.len() ==> (#[trigger] dl[i]) == kv[i]);
        lemma_map_of_insert(dl, idx, k, s);
        assert(kv2.drop_last() =~= dl.insert(idx, (k, s)));
        assert(kv2.last() == kv.last());
        assert(kv[kv.len() - 1].0 != k);
        assert(map_of(kv2) =~= map_of(kv).insert(k, s));
    }
}

pub proof fn lemma_total_count_nonneg(kv: Seq<(Seq<u8>, StatsView)>)
    requires
        all_stats_wf(kv),
    ensures
        total_count(kv) >= kv.len(),
    decreases kv.len(),
{
    if kv.len() > 0 {
        let dl = kv.drop_last();
        assert(all_stats_wf(dl)) by {
            assert forall|i: int| 0 <= i < dl.len() implies (#[trigger] dl[i]).1.wf() by {
                assert(kv[i].1.wf());
            }
        }
        lemma_total_count_nonneg(dl);
        assert(kv[kv.len() - 1].1.wf());
    }
}

/// Every entry's count is bounded by the total.
pub proof fn lemma_count_le_total(kv: Seq<(Seq<u8>, StatsView)>, i: int)
    requires
        all_stats_wf(kv),
        0 <= i < kv.len(),
    ensures
        kv[i].1.count <= total_count(kv),
    decreases kv.len(),
{
    let dl = kv.drop_last();
    assert(all_stats_wf(dl)) by {
        assert forall|j: int| 0 <= j < dl.len() implies (#[trigger] dl[j]).1.wf() by {
            assert(kv[j].1.wf());
        }
    }
    if i == kv.len() - 1 {
        lemma_total_count_nonneg(dl);
    } else {
        lemma_count_le_total(dl, i);
        assert(dl[i] == kv[i]);
        assert(kv[kv.len() - 1].1.wf());
    }
}

pub proof fn lemma_total_count_update(kv: Seq<(Seq<u8>, StatsView)>, idx: int, e: (Seq<u8>, StatsView))
    requires
        0 <= idx < kv.len(),
    ensures
        total_count(kv.update(idx, e)) == total_count(kv) - kv[idx].1.count + e.1.count,
    decreases kv.len(),
{
    let kv2 = kv.update(idx, e);
    if idx == kv.len() - 1 {
        assert(kv2.drop_last() =~= kv.drop_last());
        assert(kv2.last() == e);
    } else {
        lemma_total_count_update(kv.drop_last(), idx, e);
        assert(kv2.drop_last() =~= kv.drop_last().update(idx, e));
        assert(kv2.last() == kv.last());
        assert(kv.drop_last()[idx] == kv[idx]);
    }
}

pub proof fn lemma_total_count_insert(kv: Seq<(Seq<u8>, StatsView)>, idx: int, e: (Seq<u8>, StatsView))
    requires
        0 <= idx <= kv.len(),
    ensures
        total_count(kv.insert(idx, e)) == total_count(kv) + e.1.count,
    decreases kv.len(),
{
    let kv2 = kv.insert(idx, e);
    if idx == kv.len() {
        assert(kv2.drop_last() =~= kv);
        assert(kv2.last() == e);
    } else {
        lemma_total_count_insert(kv.drop_last(), idx, e);
        assert(kv2.drop_last() =~= kv.drop_last().insert(idx, e));
        assert(kv2.last() == kv.last());
    }
}

/// Fold statistics for one key into a mapping: combine when the key is
/// present, bind it afresh when absent.
pub open spec fn add_entry_spec(m: Map<Seq<u8>, StatsView>, k: Seq<u8>, s: StatsView) -> Map<
    Seq<u8>,
    StatsView,
> {
    if m.dom().contains(k) {
        m.insert(k, combine_stats(m[k], s))
    } else {
        m.insert(k, s)
    }
}

/// The statistics of a record sequence, folded in order.
pub open spec fn aggregate_spec(records: Seq<(Seq<u8>, int)>) -> Map<Seq<u8>, StatsView>
    decreases records.len(),
{
    if records.len() == 0 {
        Map::empty()
    } else {
        add_entry_spec(
            aggregate_spec(records.drop_last()),
            records.last().0,
            singleton_stats(records.last().1),
        )
    }
}

/// A per-chunk (and, merged, per-run) aggregate: key-sorted statistics.
#[derive(Debug)]
pub struct AggregateMap<'a> {
    pub entries: Vec<Entry<'a>>,
}

impl<'a> AggregateMap<'a> {
    /// The (key, statistics) pairs, in report order.
    pub open spec fn kv(self) -> Seq<(Seq<u8>, StatsView)> {
        self.entries@.map(|i: int, e: Entry<'a>| (e.key@, e.stats@))
    }

    /// The mapping this aggregate denotes.
    pub open spec fn as_map(self) -> Map<Seq<u8>, StatsView> {
        map_of(self.kv())
    }

    /// Entries are strictly ascending by key and all statistics are
    /// well-formed.
    pub open spec fn wf(self) -> bool {
        &&& all_stats_wf(self.kv())
        &&& keys_sorted(self.kv())
    }

    /// The empty aggregate.
    pub fn new() -> (r: Self)
        ensures
            r.wf(),
            r.kv() == Seq::<(Seq<u8>, StatsView)>::empty(),
            r.as_map() == Map::<Seq<u8>, StatsView>::empty(),
    {
        let r = AggregateMap { entries: Vec::new() };
        proof {
            assert(r.kv() =~= Seq::<(Seq<u8>, StatsView)>::empty());
        }
        r
    }

    /// First position whose key is not below `key`.
    #[verifier::loop_isolation(false)]
    fn find_slot(&self, key: &[u8]) -> (idx: usize)
        ensures
            0 <= idx <= self.entries@.len(),
            forall|i: int| 0 <= i < idx ==> lex_lt((#[trigger] self.kv()[i]).0, key@),
            idx < self.entries@.len() ==> !lex_lt(self.kv()[idx as int].0, key@),
    {
        let n = self.entries.len();
        let mut idx: usize = 0;
        while idx < n && key_lt(self.entries[idx].key, key)
            invariant
                0 <= idx <= n,
                forall|i: int| 0 <= i < idx ==> lex_lt((#[trigger] self.kv()[i]).0, key@),
            decreases n - idx,
        {
            proof {
                assert(self.kv()[idx as int].0 == self.entries@[idx as int].key@);
            }
            idx = idx + 1;
        }
        proof {
            if idx < n {
                assert(self.kv()[idx as int].0 == self.entries@[idx as int].key@);
            }
        }
        idx
    }

    /// Fold `stats` (for `key`) into the aggregate: combine when the key is
    /// present, insert it when absent.
    pub fn add_stats(&mut self, key: &'a [u8], stats: StationData)
        requires
            old(self).wf(),
            stats@.wf(),
            total_count(old(self).kv()) + stats@.count <= u64::MAX,
        ensures
            final(self).wf(),
            final(self).as_map() == add_entry_spec(old(self).as_map(), key@, stats@),
            total_count(final(self).kv()) == total_count(old(self).kv()) + stats@.count,
    {
        let ghost kv0 = self.kv();
        proof {
            lemma_sorted_distinct(kv0);
            lemma_map_of_props(kv0);
        }
        let idx = self.find_slot(key);
        let n = self.entries.len();
        if idx < n && key_eq(self.entries[idx].key, key) {
            proof {
                assert(kv0[idx as int] == (self.entries@[idx as int].key@,
                self.entries@[idx as int].stats@));
                assert(kv0[idx as int].0 == key@);
                lemma_count_le_total(kv0, idx as int);
                lemma_total_count_nonneg(kv0);
            }
            let mut e = self.entries[idx];
            e.stats.update_from_station(&stats);
            self.entries[idx] = e;
            proof {
                let c = combine_stats(kv0[idx as int].1, stats@);
                let kv2 = kv0.update(idx as int, (key@, c));
                assert(self.kv() =~= kv2);
                lemma_map_of_update(kv0, idx as int, c);
                lemma_total_count_update(kv0, idx as int, (key@, c));
                assert(self.as_map() == add_entry_spec(map_of(kv0), key@, stats@));
                assert(all_stats_wf(kv2)) by {
                    assert forall|i: int| 0 <= i < kv2.len() implies (#[trigger] kv2[i]).1.wf() by {
                        if i != idx {
                            assert(kv2[i] == kv0[i]);
                        }
                        assert(kv0[i].1.wf());
                    }
                }
                assert(keys_sorted(kv2)) by {
                    assert forall|i: int, j: int| 0 <= i < j < kv2.len() implies lex_lt(
                        kv2[i].0,
                        kv2[j].0,
                    ) by {
                        assert(kv2[i].0 == kv0[i].0);
                        assert(kv2[j].0 == kv0[j].0);
                        assert(lex_lt(kv0[i].0, kv0[j].0));
                    }
                }
            }
        } else {
            proof {
                assert forall|i: int| 0 <= i < kv0.len() implies (#[trigger] kv0[i]).0 != key@ by {
                    if i < idx {
                        lemma_lex_lt_irreflexive(key@);
                        assert(lex_lt(kv0[i].0, key@));
                    } else {
                        if idx < n {
                            assert(kv0[idx as int].0 == self.entries@[idx as int].key@);
                            lemma_lex_lt_connected(kv0[idx as int].0, key@);
                            assert(lex_lt(key@, kv0[idx as int].0));
                            if i > idx {
                                lemma_lex_lt_transitive(key@, kv0[idx as int].0, kv0[i].0);
                            }
                            lemma_lex_lt_irreflexive(key@);
                            assert(lex_lt(key@, kv0[i].0));
                        }
                    }
                }
                if map_of(kv0).dom().contains(key@) {
                    let w = choose|i: int| 0 <= i < kv0.len() && (#[trigger] kv0[i]).0 == key@;
                    assert(false);
                }
            }
            self.entries.insert(idx, Entry { key, stats });
            proof {
                let kv2 = kv0.insert(idx as int, (key@, stats@));
                assert(self.kv() =~= kv2);
                lemma_map_of_insert(kv0, idx as int, key@, stats@);
                lemma_total_count_insert(kv0, idx as int, (key@, stats@));
                assert(all_stats_wf(kv2)) by {
                    assert forall|i: int| 0 <= i < kv2.len() implies (#[trigger] kv2[i]).1.wf() by {
                        if i < idx {
                            assert(kv2[i] == kv0[i]);
                        } else if i > idx {
                            assert(kv2[i] == kv0[i - 1]);
                        }
                    }
                }
                assert(keys_sorted(kv2)) by {
                    assert forall|i: int, j: int| 0 <= i < j < kv2.len() implies lex_lt(
                        kv2[i].0,
                        kv2[j].0,
                    ) by {
                        if idx < n {
                            lemma_lex_lt_connected(kv0[idx as int].0, key@);
                        }
                        if i < idx {
                            assert(kv2[i] == kv0[i]);
                        } else if i > idx {
                            assert(kv2[i] == kv0[i - 1]);
                        }
                        if j < idx {
                            assert(kv2[j] == kv0[j]);
                        } else if j > idx {
                            assert(kv2[j] == kv0[j - 1]);
                        }
                        if i < idx && j == idx {
                            assert(lex_lt(kv0[i].0, key@));
                        } else if i == idx && j > idx {
                            assert(kv0[idx as int].0 != key@);
                            assert(lex_lt(key@, kv0[idx as int].0));
                            if j - 1 > idx {
                                assert(lex_lt(kv0[idx as int].0, kv0[j - 1].0));
                                lemma_lex_lt_transitive(key@, kv0[idx as int].0, kv0[j - 1].0);
                            }
                            assert(lex_lt(key@, kv0[j - 1].0));
                        } else if i < idx && j > idx {
                            assert(lex_lt(kv0[i].0, kv0[j - 1].0));
                        }
                    }
                }
            }
        }
    }

    /// Aggregate every record of this chunk: one map covering exactly the
    /// records in the slice. Fails on the first malformed line, with no
    /// partial result.
    #[verifier::loop_isolation(false)]
    #[verifier::rlimit(30)]
    pub fn process_chunk(chunk: &'a [u8]) -> (r: Result<Self, Error>)
        ensures
            r is Ok <==> all_lines_valid(chunk@),
            (r matches Ok(m) ==> m.wf() && m.as_map() == aggregate_spec(records_of(chunk@))
                && total_count(m.kv()) == lines_of(chunk@).len()),
            (r matches Err(e) ==> e == Error::MalformedRecord),
    {
        let len = chunk.len();
        let mut map = AggregateMap::new();
        let mut start: usize = 0;

        proof {
            assert(chunk@.take(0) =~= Seq::<u8>::empty());
            assert(records_of(chunk@.take(0)) =~= Seq::<(Seq<u8>, int)>::empty());
            assert(chunk@.skip(0) =~= chunk@);
            lemma_lines_len(chunk@);
        }

        while start < len
            invariant
                0 <= start <= len,
                len == chunk@.len(),
                start == 0 || start == len || chunk@[start - 1] == NEWLINE,
                map.wf(),
                all_lines_valid(chunk@.take(start as int)),
                map.as_map() == aggregate_spec(records_of(chunk@.take(start as int))),
                total_count(map.kv()) == lines_of(chunk@.take(start as int)).len(),
                lines_of(chunk@) == lines_of(chunk@.take(start as int)) + lines_of(
                    chunk@.skip(start as int),
                ),
            decreases len - start,
        {
            let ghost old_start = start as int;
            let ghost pre = chunk@.take(old_start);
            let ghost cur = chunk@.skip(old_start);
            let ghost k = lines_of(pre).len() as int;

            let mut j: usize = start;
            while j < len && chunk[j] != NEWLINE
                invariant
                    start <= j <= len,
                    forall|i: int| start <= i < j ==> chunk@[i] != NEWLINE,
                decreases len - j,
            {
                j = j + 1;
            }

            let line = slice_subrange(chunk, start, j);
            proof {
                assert(cur.len() > 0);
                assert(forall|i: int| 0 <= i < j - old_start ==> cur[i] == chunk@[old_start + i]
                    && cur[i] != NEWLINE);
                if j < len {
                    assert(cur[j - old_start] == chunk@[j as int]);
                    lemma_first_pos_is(cur, NEWLINE, j - old_start);
                    assert(lines_of(cur) == seq![cur.take(j - old_start)] + lines_of(
                        cur.skip(j - old_start + 1),
                    ));
                } else {
                    lemma_first_pos(cur, NEWLINE);
                    if first_pos(cur, NEWLINE) < cur.len() {
                        assert(cur[first_pos(cur, NEWLINE)] == NEWLINE);
                    }
                    assert(first_pos(cur, NEWLINE) == cur.len());
                    assert(lines_of(cur) == seq![cur]);
                }
                if j < len {
                    assert(line@ =~= cur.take(j - old_start));
                } else {
                    assert(line@ =~= cur);
                }
                assert(lines_of(cur)[0] == line@);
                assert(lines_of(chunk@)[k] == line@);
                assert(0 <= k < lines_of(chunk@).len());
            }

            match parse_data(line) {
                Err(_) => {
                    proof {
                        assert(!valid_line(lines_of(chunk@)[k]));
                        assert(!all_lines_valid(chunk@));
                    }
                    return Err(Error::MalformedRecord);
                },
                Ok((key, v)) => {
                    proof {
                        assert(lines_of(chunk@).len() >= k + 1);
                        assert(total_count(map.kv()) < u64::MAX);
                    }
                    map.add(key, v);
                    let next = if j < len {
                        j + 1
                    } else {
                        len
                    };
                    proof {
                        let b = next as int;
                        let npre = chunk@.take(b);
                        // The consumed piece holds exactly the one line.
                        assert(npre.take(old_start) =~= pre);
                        assert(npre.skip(old_start) =~= chunk@.subrange(old_start, b));
                        lemma_lines_split(npre, old_start);
                        let piece = chunk@.subrange(old_start, b);
                        if j < len {
                            assert(piece[j - old_start] == chunk@[j as int]);
                            assert(forall|i: int|
                                0 <= i < j - old_start ==> piece[i] == chunk@[old_start + i]
                                    && piece[i] != NEWLINE);
                            lemma_first_pos_is(piece, NEWLINE, j - old_start);
                            assert(piece.take(j - old_start) =~= line@);
                            assert(piece.skip(j - old_start + 1) =~= Seq::<u8>::empty());
                            assert(lines_of(piece) == seq![line@]);
                        } else {
                            assert(piece =~= cur);
                            assert(lines_of(piece) == seq![line@]);
                        }
                        assert(lines_of(npre) =~= lines_of(pre).push(line@));
                        // Its records: the old ones plus this line's record.
                        assert(records_of(npre) =~= records_of(pre).push(
                            (key_of(line@), line_value(line@)),
                        ));
                        assert(records_of(npre).drop_last() =~= records_of(pre));
                        assert(map.as_map() == aggregate_spec(records_of(npre)));
                        // Every line seen so far is valid.
                        assert forall|i: int| 0 <= i < lines_of(npre).len() implies valid_line(
                            #[trigger] lines_of(npre)[i],
                        ) by {
                            if i < lines_of(pre).len() {
                                assert(lines_of(npre)[i] == lines_of(pre)[i]);
                                assert(valid_line(lines_of(pre)[i]));
                            } else {
                                assert(lines_of(npre)[i] == line@);
                            }
                        }
                        // The rest of the region still splits at the new start.
                        lemma_lines_split(chunk@, b);
                        assert(total_count(map.kv()) == lines_of(npre).len());
                    }
                    start = next;
                },
            }
        }
        proof {
            assert(chunk@.take(len as int) =~= chunk@);
        }
        Ok(map)
    }

    /// Fold one measurement for `key` into the aggregate.
    pub fn add(&mut self, key: &'a [u8], value: i64)
        requires
            old(self).wf(),
            -VAL_LIMIT <= value <= VAL_LIMIT,
            total_count(old(self).kv()) < u64::MAX,
        ensures
            final(self).wf(),
            final(self).as_map() == add_entry_spec(
                old(self).as_map(),
                key@,
                singleton_stats(value as int),
            ),
            total_count(final(self).kv()) == total_count(old(self).kv()) + 1,
    {
        let stats = StationData::new(value);
        self.add_stats(key, stats);
    }
}


/// Whether a record belongs to key `k`.
pub open spec fn key_pred(k: Seq<u8>) -> spec_fn((Seq<u8>, int)) -> bool {
    |r: (Seq<u8>, int)| r.0 == k
}

/// A record's measurement.
pub open spec fn record_value() -> spec_fn(int, (Seq<u8>, int)) -> int {
    |i: int, r: (Seq<u8>, int)| r.1
}

/// The measurements in `records` that belong to key `k`, in order.
pub open spec fn values_for(records: Seq<(Seq<u8>, int)>, k: Seq<u8>) -> Seq<int> {
    records.filter(key_pred(k)).map(record_value())
}

/// The least element of a non-empty sequence.
pub open spec fn seq_min(s: Seq<int>) -> int
    decreases s.len(),
{
    if s.len() <= 1 {
        s[0]
    } else if s.last() <= seq_min(s.drop_last()) {
        s.last()
    } else {
        seq_min(s.drop_last())
    }
}

/// The greatest element of a non-empty sequence.
pub open spec fn seq_max(s: Seq<int>) -> int
    decreases s.len(),
{
    if s.len() <= 1 {
        s[0]
    } else if s.last() >= seq_max(s.drop_last()) {
        s.last()
    } else {
        seq_max(s.drop_last())
    }
}

/// The sum of a sequence.
pub open spec fn seq_sum(s: Seq<int>) -> int
    decreases s.len(),
{
    if s.len() == 0 {
        0
    } else {
        seq_sum(s.drop_last()) + s.last()
    }
}

/// The true statistics of key `k` in `records`: its least and greatest
/// measurement, how many there are, and their exact sum.
pub open spec fn true_stats(records: Seq<(Seq<u8>, int)>, k: Seq<u8>) -> StatsView {
    StatsView {
        min: seq_min(values_for(records, k)),
        max: seq_max(values_for(records, k)),
        count: values_for(records, k).len() as int,
        sum: seq_sum(values_for(records, k)),
    }
}

/// The aggregate of `records` reports key `k` truly: the key appears exactly
/// when it has a measurement, and then with the true statistics.
pub open spec fn reports_truly(records: Seq<(Seq<u8>, int)>, k: Seq<u8>) -> bool {
    &&& (aggregate_spec(records).dom().contains(k) <==> values_for(records, k).len() > 0)
    &&& (aggregate_spec(records).dom().contains(k) ==> aggregate_spec(records)[k]
        == true_stats(records, k))
}

/// Aggregation correctness: every key is reported exactly when it has a
/// measurement, and its statistics are the true minimum, maximum, count and
/// sum of that key's measurements (the mean is derived from the last two at
/// report time).
pub proof fn lemma_aggregate_correct(k: Seq<u8>, records: Seq<(Seq<u8>, int)>)
    ensures
        reports_truly(records, k),
    decreases records.len(),
{
    let pred = key_pred(k);
    reveal_with_fuel(Seq::<_>::filter, 2);
    if records.len() == 0 {
        assert(records.filter(pred) =~= records);
        assert(values_for(records, k).len() == 0);
    } else {
        let dl = records.drop_last();
        let r = records.last();
        lemma_aggregate_correct(k, dl);
        let vs_dl = values_for(dl, k);
        let vs = values_for(records, k);

        if r.0 == k {
            assert(records.filter(pred) == dl.filter(pred).push(r));
            assert(vs =~= vs_dl.push(r.1));
            assert(vs.drop_last() =~= vs_dl);
            assert(vs.last() == r.1);
            if aggregate_spec(dl).dom().contains(k) {
                assert(vs_dl.len() > 0);
                assert(aggregate_spec(records)[k] == combine_stats(
                    aggregate_spec(dl)[k],
                    singleton_stats(r.1),
                ));
            } else {
                assert(vs_dl.len() == 0);
                assert(vs.len() == 1);
                assert(vs[0] == r.1);
                assert(seq_min(vs) == r.1);
                assert(seq_max(vs) == r.1);
                assert(seq_sum(vs.drop_last()) == 0);
                assert(seq_sum(vs) == r.1);
                assert(aggregate_spec(records)[k] == singleton_stats(r.1));
            }
        } else {
            assert(records.filter(pred) == dl.filter(pred));
            assert(vs =~= vs_dl);
        }
    }
}

} // verus!
