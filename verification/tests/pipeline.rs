use station_stats::aggregate::AggregateMap;
use station_stats::merge::merge_maps;
use station_stats::mmap::{partition_chunks, Mmap, MmapChunkIterator};
use station_stats::render::format_report;
use station_stats::run::process_mmap;
use station_stats::stats::StationData;
use station_stats::Error;

fn stats_of<'m, 'a>(map: &'m AggregateMap<'a>, key: &[u8]) -> &'m StationData {
    for e in map.entries.iter() {
        if e.key == key {
            return &e.stats;
        }
    }
    panic!("key not found");
}

fn aggregate(data: &[u8], workers: usize) -> AggregateMap<'_> {
    process_mmap(Mmap::new(data), workers).unwrap()
}

#[test]
fn three_records_two_workers() {
    let data = b"A;10.0\nB;-5.0\nA;20.0\n";
    let map = aggregate(data, 2);
    assert_eq!(map.entries.len(), 2);
    let a = stats_of(&map, b"A");
    assert_eq!(a.min_temp, 100);
    assert_eq!(a.max_temp, 200);
    assert_eq!(a.count, 2);
    assert_eq!(a.temp_sum, 300);
    assert_eq!(a.mean_fixed(), 150);
    let b = stats_of(&map, b"B");
    assert_eq!(b.min_temp, -50);
    assert_eq!(b.max_temp, -50);
    assert_eq!(b.count, 1);
    assert_eq!(b.temp_sum, -50);
    let out = format_report(&map);
    assert_eq!(out, b"{A=10.0/15.0/20.0, B=-5.0/-5.0/-5.0}".to_vec());
}

#[test]
fn malformed_line_fails() {
    let data = b"A;abc\n";
    let r = process_mmap(Mmap::new(data), 1);
    assert_eq!(r.unwrap_err(), Error::MalformedRecord);
    let r8 = process_mmap(Mmap::new(data), 8);
    assert_eq!(r8.unwrap_err(), Error::MalformedRecord);
    let rc = AggregateMap::process_chunk(data);
    assert_eq!(rc.unwrap_err(), Error::MalformedRecord);
    let mixed = b"A;1.0\nA;abc\nA;2.0\n";
    assert_eq!(
        process_mmap(Mmap::new(mixed), 2).unwrap_err(),
        Error::MalformedRecord
    );
}

#[test]
fn empty_file() {
    let data = b"";
    let map = aggregate(data, 4);
    assert_eq!(map.entries.len(), 0);
    assert_eq!(format_report(&map), b"{}".to_vec());
}

#[test]
fn partition_count_invariance() {
    let data = b"Oslo;3.5\nParis;12.0\nOslo;-1.2\nRome;22.4\nParis;8.1\nRome;19.9\nOslo;0.0\n";
    let one = aggregate(data, 1);
    let eight = aggregate(data, 8);
    assert_eq!(one.entries, eight.entries);
    assert_eq!(format_report(&one), format_report(&eight));
    let three = aggregate(data, 3);
    assert_eq!(one.entries, three.entries);
}

fn build(pairs: &[(&'static [u8], i64)]) -> AggregateMap<'static> {
    let mut m = AggregateMap::new();
    for (k, v) in pairs.iter() {
        m.add(k, *v);
    }
    m
}

fn map_a() -> AggregateMap<'static> {
    build(&[(b"x", 10), (b"y", 20)])
}

fn map_b() -> AggregateMap<'static> {
    build(&[(b"y", -5), (b"z", 7)])
}

fn map_c() -> AggregateMap<'static> {
    build(&[(b"x", 0), (b"z", 100), (b"w", 1)])
}

#[test]
fn merge_is_commutative() {
    let ab = merge_maps(map_a(), map_b());
    let ba = merge_maps(map_b(), map_a());
    assert_eq!(ab.entries, ba.entries);
}

#[test]
fn merge_is_associative() {
    let left = merge_maps(merge_maps(map_a(), map_b()), map_c());
    let right = merge_maps(map_a(), merge_maps(map_b(), map_c()));
    assert_eq!(left.entries, right.entries);
}

#[test]
fn merge_combines_stats() {
    let m = merge_maps(map_a(), map_b());
    let y = stats_of(&m, b"y");
    assert_eq!(y.min_temp, -5);
    assert_eq!(y.max_temp, 20);
    assert_eq!(y.count, 2);
    assert_eq!(y.temp_sum, 15);
}

#[test]
fn partition_covers_region() {
    let data = b"A;1.0\nB;2.0\nC;3.0\nD;4.0\nE;5.0\nF;6.0\n";
    for n in [1usize, 2, 3, 5, 40] {
        let chunks = partition_chunks(Mmap::new(data), n);
        assert_eq!(chunks.len(), n);
        let mut joined: Vec<u8> = Vec::new();
        for c in chunks.iter() {
            joined.extend_from_slice(c);
        }
        assert_eq!(joined, data.to_vec());
        // every boundary between chunks sits right after a terminator
        let mut pos: usize = 0;
        for c in chunks.iter().take(n - 1) {
            pos += c.len();
            assert!(pos == 0 || pos == data.len() || data[pos - 1] == b'\n');
        }
    }
}

#[test]
fn chunk_iterator_hands_out_all_chunks() {
    let data = b"A;1.0\nB;2.0\n";
    let mut it = MmapChunkIterator::new(Mmap::new(data), 5);
    let mut joined: Vec<u8> = Vec::new();
    let mut yields: usize = 0;
    while let Some(c) = it.next_chunk() {
        joined.extend_from_slice(c);
        yields += 1;
    }
    assert_eq!(yields, 5);
    assert_eq!(joined, data.to_vec());
}

#[test]
fn long_line_is_never_split() {
    // One line far longer than the nominal chunk size.
    let mut data: Vec<u8> = Vec::new();
    data.extend_from_slice(b"start;1.0\n");
    data.extend_from_slice(b"averyveryverylongstationname-padding-padding;2.5\n");
    data.extend_from_slice(b"end;3.0\n");
    let chunks = partition_chunks(Mmap::new(&data), 8);
    // a chunk holds whole lines only: every boundary sits at the region's
    // start or end, or right after a terminator
    let mut pos: usize = 0;
    for c in chunks.iter() {
        pos += c.len();
        assert!(pos == 0 || pos == data.len() || data[pos - 1] == b'\n');
    }
    assert_eq!(pos, data.len());
    let map = aggregate(&data, 8);
    assert_eq!(map.entries.len(), 3);
}

#[test]
fn no_trailing_terminator_still_counts_last_line() {
    let data = b"A;1.0\nB;2.5";
    let map = aggregate(data, 2);
    assert_eq!(map.entries.len(), 2);
    let b = stats_of(&map, b"B");
    assert_eq!(b.min_temp, 25);
    assert_eq!(b.count, 1);
}

#[test]
fn aggregation_tracks_true_statistics() {
    let data = b"k;5.0\nk;-2.5\nk;7.5\nk;0.0\nk;7.5\n";
    let map = aggregate(data, 2);
    let k = stats_of(&map, b"k");
    assert_eq!(k.min_temp, -25);
    assert_eq!(k.max_temp, 75);
    assert_eq!(k.count, 5);
    assert_eq!(k.temp_sum, 175);
    // true mean is 3.5, exactly representable
    assert_eq!(k.mean_fixed(), 35);
}

#[test]
fn report_keys_are_sorted() {
    let data = b"zeta;1.0\nalpha;2.0\nmid;3.0\n";
    let map = aggregate(data, 1);
    let out = format_report(&map);
    assert_eq!(
        out,
        b"{alpha=2.0/2.0/2.0, mid=3.0/3.0/3.0, zeta=1.0/1.0/1.0}".to_vec()
    );
}

#[test]
fn manual_map_reduce_matches_whole_run() {
    // the same composition the command-line front end uses: partition,
    // aggregate each chunk on its own, merge in chunk order
    let data = b"Oslo;3.5\nParis;12.0\nOslo;-1.2\nRome;22.4\nParis;8.1\n";
    let chunks = partition_chunks(Mmap::new(data), 4);
    let mut acc = AggregateMap::new();
    for chunk in chunks {
        let partial = AggregateMap::process_chunk(chunk).unwrap();
        acc = merge_maps(acc, partial);
    }
    let whole = aggregate(data, 1);
    assert_eq!(acc.entries, whole.entries);
}

#[test]
fn empty_line_is_malformed() {
    let data = b"A;1.0\n\nB;2.0\n";
    assert_eq!(
        process_mmap(Mmap::new(data), 2).unwrap_err(),
        Error::MalformedRecord
    );
}
