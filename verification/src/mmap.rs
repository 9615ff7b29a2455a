//! The mapped-region view and the chunk partitioner: contiguous,
//! non-overlapping, line-aligned chunks whose union is the whole region.

use vstd::prelude::*;
use vstd::slice::slice_subrange;

use crate::parse::{
    first_pos, lemma_first_pos, lemma_first_pos_is, lemma_lines_split, lines_of, NEWLINE,
};

verus! {

/// A read-only view over a file's bytes, valid for the run's duration. The
/// mapping itself is acquired and released by the caller; this type only
/// carries the borrowed bytes.
pub struct Mmap<'a> {
    mmap_slice: &'a [u8],
}

impl<'a> View for Mmap<'a> {
    type V = Seq<u8>;

    closed spec fn view(&self) -> Seq<u8> {
        self.mmap_slice@
    }
}

impl<'a> Mmap<'a> {
    /// Wrap a region's bytes.
    pub fn new(data: &'a [u8]) -> (r: Self)
        ensures
            r@ == data@,
    {
        Self { mmap_slice: data }
    }

    /// The region's bytes.
    pub fn bytes(&self) -> (r: &'a [u8])
        ensures
            r@ == self@,
    {
        self.mmap_slice
    }

    /// The region's length.
    pub fn len(&self) -> (r: usize)
        ensures
            r == self@.len(),
    {
        self.mmap_slice.len()
    }
}

/// Where a chunk whose terminator search starts at `scan_from` ends: one past
/// the first terminator at or after `scan_from`, or the region's end if none
/// remains.
pub open spec fn scan_end(region: Seq<u8>, scan_from: int) -> int {
    let rel = first_pos(region.skip(scan_from), NEWLINE);
    if scan_from + rel < region.len() {
        scan_from + rel + 1
    } else {
        region.len() as int
    }
}

/// Where the terminator search for the chunk at `index` starts: the nominal
/// boundary, clamped to the region and never before the previous chunk's end.
pub open spec fn chunk_scan_from(region_len: int, chunk_size: int, index: int, pos: int) -> int {
    let nominal = (index + 1) * chunk_size;
    let clamped = if nominal > region_len {
        region_len
    } else {
        nominal
    };
    if clamped < pos {
        pos
    } else {
        clamped
    }
}

/// The byte sequences of a list of chunks.
pub open spec fn chunk_views(cs: Seq<&[u8]>) -> Seq<Seq<u8>> {
    cs.map(|i: int, c: &[u8]| c@)
}

/// The lines of each chunk of a list.
pub open spec fn chunk_lines(cs: Seq<&[u8]>) -> Seq<Seq<Seq<u8>>> {
    cs.map(|i: int, c: &[u8]| lines_of(c@))
}

/// Hands out exactly `num_chunks` contiguous, line-aligned chunks of the
/// region, in order; a terminator is never split away from its line.
pub struct MmapChunkIterator<'a> {
    data: Mmap<'a>,
    chunk_size: usize,
    num_chunks: usize,
    next_index: usize,
    pos: usize,
}

impl<'a> MmapChunkIterator<'a> {
    /// The region being partitioned.
    pub closed spec fn region(self) -> Seq<u8> {
        self.data@
    }

    /// The nominal chunk size.
    pub closed spec fn chunk_size_spec(self) -> int {
        self.chunk_size as int
    }

    /// How many chunks the iterator hands out in total.
    pub closed spec fn num_chunks_spec(self) -> int {
        self.num_chunks as int
    }

    /// How many chunks have been handed out.
    pub closed spec fn index_spec(self) -> int {
        self.next_index as int
    }

    /// The end of the last chunk handed out: the next chunk starts here.
    pub closed spec fn pos_spec(self) -> int {
        self.pos as int
    }

    /// The iterator's invariant: the resume point is line-aligned and every
    /// chunk is handed out before the region's end is passed.
    pub closed spec fn wf(self) -> bool {
        &&& 1 <= self.num_chunks
        &&& self.next_index <= self.num_chunks
        &&& self.pos <= self.data@.len()
        &&& (self.pos == 0 || self.pos == self.data@.len() || self.data@[self.pos - 1]
            == NEWLINE)
        &&& (self.next_index == self.num_chunks ==> self.pos == self.data@.len())
    }

    /// Target one chunk per consumer: the nominal chunk size is the region's
    /// length divided by the consumer count.
    fn with_consumers(self, consumers: usize) -> (r: Self)
        requires
            consumers >= 1,
        ensures
            r.region() == self.region(),
            r.num_chunks_spec() == consumers as int,
            r.chunk_size_spec() == self.region().len() as int / consumers as int,
            r.index_spec() == self.index_spec(),
            r.pos_spec() == self.pos_spec(),
    {
        let len = self.data.len();
        Self {
            data: self.data,
            chunk_size: len / consumers,
            num_chunks: consumers,
            next_index: self.next_index,
            pos: self.pos,
        }
    }

    /// A fresh partitioner over `data` into `num_consumers` chunks.
    pub fn new(data: Mmap<'a>, num_consumers: usize) -> (r: Self)
        requires
            num_consumers >= 1,
        ensures
            r.wf(),
            r.region() == data@,
            r.num_chunks_spec() == num_consumers as int,
            r.chunk_size_spec() == data@.len() as int / num_consumers as int,
            r.index_spec() == 0,
            r.pos_spec() == 0,
    {
        Self { data, chunk_size: 1, num_chunks: 1, next_index: 0, pos: 0 }.with_consumers(
            num_consumers,
        )
    }

    /// The next chunk: from the previous chunk's end to one past the first
    /// terminator at or after the nominal boundary (the last chunk runs to
    /// the region's end). `None` once all chunks are handed out.
    #[verifier::loop_isolation(false)]
    pub fn next_chunk(&mut self) -> (r: Option<&'a [u8]>)
        requires
            old(self).wf(),
        ensures
            final(self).wf(),
            final(self).region() == old(self).region(),
            final(self).num_chunks_spec() == old(self).num_chunks_spec(),
            final(self).chunk_size_spec() == old(self).chunk_size_spec(),
            r is None <==> old(self).index_spec() == old(self).num_chunks_spec(),
            r is None ==> final(self).pos_spec() == old(self).pos_spec()
                && final(self).index_spec() == old(self).index_spec(),
            (r matches Some(c) ==> {
                &&& final(self).index_spec() == old(self).index_spec() + 1
                &&& old(self).pos_spec() <= final(self).pos_spec() <= old(self).region().len()
                &&& c@ == old(self).region().subrange(old(self).pos_spec(), final(self).pos_spec())
                &&& (final(self).pos_spec() == old(self).region().len()
                    || old(self).region()[final(self).pos_spec() - 1] == NEWLINE)
                &&& (old(self).index_spec() < old(self).num_chunks_spec() - 1
                    ==> final(self).pos_spec() == scan_end(
                    old(self).region(),
                    chunk_scan_from(
                        old(self).region().len() as int,
                        old(self).chunk_size_spec(),
                        old(self).index_spec(),
                        old(self).pos_spec(),
                    ),
                ))
                &&& (old(self).index_spec() == old(self).num_chunks_spec() - 1
                    ==> final(self).pos_spec() == old(self).region().len())
            }),
    {
        if self.next_index == self.num_chunks {
            return None;
        }
        let len = self.data.len();
        let i = self.next_index;
        let bytes = self.data.bytes();

        if i == self.num_chunks - 1 {
            let c = slice_subrange(bytes, self.pos, len);
            self.pos = len;
            self.next_index = i + 1;
            return Some(c);
        }
        // The nominal boundary, clamped to the region's end; computed wide,
        // so an oversized chunk size cannot overflow.
        proof {
            assert((i as int + 1) * (self.chunk_size as int) <= 0x10000000000000000
                * 0xffffffffffffffff) by (nonlinear_arith)
                requires
                    0 <= i as int + 1 <= 0x10000000000000000,
                    0 <= self.chunk_size as int <= 0xffffffffffffffff,
            {}
        }
        let wide: u128 = (i as u128 + 1) * (self.chunk_size as u128);
        let clamped: usize = if wide > len as u128 {
            len
        } else {
            wide as usize
        };
        let scan_from: usize = if clamped < self.pos {
            self.pos
        } else {
            clamped
        };
        proof {
            assert(scan_from == chunk_scan_from(
                len as int,
                self.chunk_size as int,
                i as int,
                self.pos as int,
            ));
        }

        let mut t: usize = scan_from;
        while t < len && bytes[t] != NEWLINE
            invariant
                scan_from <= t <= len,
                forall|x: int| scan_from <= x < t ==> bytes@[x] != NEWLINE,
            decreases len - t,
        {
            t = t + 1;
        }
        let ghost rest = self.data@.skip(scan_from as int);
        proof {
            assert(forall|x: int| 0 <= x < t - scan_from ==> rest[x] == self.data@[scan_from + x]);
            if t < len {
                assert(rest[t - scan_from] == self.data@[t as int]);
                lemma_first_pos_is(rest, NEWLINE, t - scan_from);
            } else {
                lemma_first_pos(rest, NEWLINE);
                if first_pos(rest, NEWLINE) < rest.len() {
                    assert(rest[first_pos(rest, NEWLINE)] == NEWLINE);
                }
                assert(first_pos(rest, NEWLINE) == rest.len());
            }
        }
        let end: usize = if t < len {
            t + 1
        } else {
            len
        };
        proof {
            assert(end == scan_end(self.data@, scan_from as int));
        }
        let c = slice_subrange(bytes, self.pos, end);
        self.pos = end;
        self.next_index = i + 1;
        Some(c)
    }
}


/// Partition completeness: the region splits into exactly `num_consumers`
/// contiguous chunks, in order, whose bytes together are the whole region
/// with no gap and no overlap, and whose lines together are the region's
/// lines: every line lies wholly within exactly one chunk.
#[verifier::loop_isolation(false)]
pub fn partition_chunks<'a>(data: Mmap<'a>, num_consumers: usize) -> (chunks: Vec<&'a [u8]>)
    requires
        num_consumers >= 1,
    ensures
        chunks@.len() == num_consumers,
        chunk_views(chunks@).flatten() == data@,
        chunk_lines(chunks@).flatten() == lines_of(data@),
{
    let ghost region = data@;
    let mut it = MmapChunkIterator::new(data, num_consumers);
    let mut chunks: Vec<&'a [u8]> = Vec::new();
    proof {
        assert(chunk_views(chunks@) =~= Seq::<Seq<u8>>::empty());
        assert(chunk_lines(chunks@) =~= Seq::<Seq<Seq<u8>>>::empty());
        assert(Seq::<Seq<u8>>::empty().flatten() =~= Seq::<u8>::empty());
        assert(Seq::<Seq<Seq<u8>>>::empty().flatten() =~= Seq::<Seq<u8>>::empty());
        assert(region.take(0) =~= Seq::<u8>::empty());
    }
    while chunks.len() < num_consumers
        invariant
            it.wf(),
            it.region() == region,
            it.num_chunks_spec() == num_consumers as int,
            it.index_spec() == chunks@.len() as int,
            chunks@.len() <= num_consumers,
            0 <= it.pos_spec() <= region.len(),
            it.pos_spec() == 0 || it.pos_spec() == region.len() || region[it.pos_spec() - 1]
                == NEWLINE,
            it.index_spec() == num_consumers as int ==> it.pos_spec() == region.len(),
            chunk_views(chunks@).flatten() == region.take(it.pos_spec()),
            chunk_lines(chunks@).flatten() == lines_of(region.take(it.pos_spec())),
        decreases num_consumers - chunks@.len(),
    {
        let ghost p0 = it.pos_spec();
        let ghost views0 = chunk_views(chunks@);
        let ghost lns0 = chunk_lines(chunks@);
        match it.next_chunk() {
            Some(chunk) => {
                proof {
                    let p1 = it.pos_spec();
                    assert(chunk@ == region.subrange(p0, p1));
                    // The chunk list's bytes now reach the new resume point.
                    assert(chunk_views(chunks@.push(chunk)) =~= views0.push(chunk@));
                    views0.lemma_flatten_push(chunk@);
                    assert(region.take(p0) + region.subrange(p0, p1) =~= region.take(p1));
                    // Its lines likewise, since the cut is line-aligned.
                    assert(chunk_lines(chunks@.push(chunk)) =~= lns0.push(lines_of(chunk@)));
                    lns0.lemma_flatten_push(lines_of(chunk@));
                    lemma_lines_split(region.take(p1), p0);
                    assert(region.take(p1).take(p0) =~= region.take(p0));
                    assert(region.take(p1).skip(p0) =~= chunk@);
                }
                chunks.push(chunk);
            },
            None => {
                proof {
                    assert(false);
                }
            },
        }
    }
    proof {
        assert(region.take(it.pos_spec()) =~= region);
    }
    chunks
}

} // verus!
