//! The whole pipeline over one region: partition, aggregate each chunk,
//! merge the partial results. The fold here is sequential in chunk order;
//! workers may aggregate chunks concurrently and merge in any order, which
//! the merge laws make equivalent.

use vstd::prelude::*;
use vstd::seq_lib::lemma_flatten_concat;

use crate::aggregate::{aggregate_spec, total_count, AggregateMap};
use crate::merge::{lemma_aggregate_append, merge_maps};
use crate::mmap::{chunk_lines, partition_chunks, Mmap};
use crate::parse::{
    all_lines_valid, lemma_lines_len, lines_of, records_of, records_of_lines, valid_line,
};
use crate::Error;

verus! {

/// The lines of the first `i` chunks, in order.
pub open spec fn done_lines(cs: Seq<&[u8]>, i: int) -> Seq<Seq<u8>> {
    chunk_lines(cs).take(i).flatten()
}

/// Aggregate a whole region, split into `num_consumers` chunks: one map
/// covering exactly the region's records. The partition count never changes
/// the result, only the split of the work. Fails on the first malformed
/// line, with no partial result.
#[verifier::loop_isolation(false)]
pub fn process_mmap<'a>(mmap: Mmap<'a>, num_consumers: usize) -> (r: Result<
    AggregateMap<'a>,
    Error,
>)
    requires
        num_consumers >= 1,
    ensures
        r is Ok <==> all_lines_valid(mmap@),
        (r matches Ok(m) ==> m.wf() && m.as_map() == aggregate_spec(records_of(mmap@))
            && total_count(m.kv()) == lines_of(mmap@).len()),
        (r matches Err(e) ==> e == Error::MalformedRecord),
{
    let ghost region = mmap@;
    let region_len = mmap.len();
    let chunks = partition_chunks(mmap, num_consumers);
    let ghost cl = chunk_lines(chunks@);
    let n = chunks.len();
    let mut acc = AggregateMap::new();
    let mut i: usize = 0;
    proof {
        lemma_lines_len(region);
        assert(cl.take(0) =~= Seq::<Seq<Seq<u8>>>::empty());
        assert(done_lines(chunks@, 0) =~= Seq::<Seq<u8>>::empty());
        assert(records_of_lines(done_lines(chunks@, 0)) =~= Seq::<(Seq<u8>, int)>::empty());
    }
    while i < n
        invariant
            0 <= i <= n,
            n == chunks@.len(),
            acc.wf(),
            forall|j: int|
                0 <= j < done_lines(chunks@, i as int).len() ==> valid_line(
                    #[trigger] done_lines(chunks@, i as int)[j],
                ),
            acc.as_map() == aggregate_spec(records_of_lines(done_lines(chunks@, i as int))),
            total_count(acc.kv()) == done_lines(chunks@, i as int).len(),
        decreases n - i,
    {
        let chunk = chunks[i];
        let ghost done = done_lines(chunks@, i as int);
        proof {
            assert(cl[i as int] == lines_of(chunk@));
            assert(cl.take(i + 1 as int) =~= cl.take(i as int).push(cl[i as int]));
            cl.take(i as int).lemma_flatten_push(cl[i as int]);
            assert(done_lines(chunks@, i + 1 as int) == done + lines_of(chunk@));
            assert(cl.take(i + 1 as int) + cl.skip(i + 1 as int) =~= cl);
            lemma_flatten_concat(cl.take(i + 1 as int), cl.skip(i + 1 as int));
            assert(lines_of(region) == done_lines(chunks@, i + 1 as int) + cl.skip(
                i + 1 as int,
            ).flatten());
        }
        match AggregateMap::process_chunk(chunk) {
            Err(_) => {
                proof {
                    assert(!all_lines_valid(chunk@));
                    assert(exists|j: int|
                        0 <= j < lines_of(chunk@).len() && !valid_line(
                            #[trigger] lines_of(chunk@)[j],
                        ));
                    let j = choose|j: int|
                        0 <= j < lines_of(chunk@).len() && !valid_line(
                            #[trigger] lines_of(chunk@)[j],
                        );
                    assert(lines_of(region)[done.len() + j] == lines_of(chunk@)[j]);
                    assert(!all_lines_valid(region)) by {
                        if all_lines_valid(region) {
                            assert(valid_line(lines_of(region)[done.len() + j]));
                        }
                    }
                }
                return Err(Error::MalformedRecord);
            },
            Ok(m) => {
                proof {
                    assert(done.len() + lines_of(chunk@).len() <= lines_of(region).len());
                    assert(lines_of(region).len() <= region_len);
                    assert(total_count(acc.kv()) + total_count(m.kv()) <= u64::MAX);
                    lemma_aggregate_append(
                        records_of_lines(done),
                        records_of_lines(lines_of(chunk@)),
                    );
                    assert(records_of_lines(done_lines(chunks@, i + 1 as int)) =~= records_of_lines(
                        done,
                    ) + records_of_lines(lines_of(chunk@)));
                }
                acc = merge_maps(acc, m);
                proof {
                    let d2 = done_lines(chunks@, i + 1 as int);
                    assert forall|j: int| 0 <= j < d2.len() implies valid_line(
                        #[trigger] d2[j],
                    ) by {
                        if j < done.len() {
                            assert(d2[j] == done[j]);
                            assert(valid_line(done[j]));
                        } else {
                            assert(d2[j] == lines_of(chunk@)[j - done.len()]);
                            assert(valid_line(lines_of(chunk@)[j - done.len()]));
                        }
                    }
                }
                i = i + 1;
            },
        }
    }
    proof {
        assert(cl.take(n as int) =~= cl);
        assert(done_lines(chunks@, n as int) == lines_of(region));
        assert(all_lines_valid(region));
    }
    Ok(acc)
}

} // verus!
