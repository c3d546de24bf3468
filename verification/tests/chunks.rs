use keystats::chunks::{plan_chunks, ChunkRange};

fn ranges(data: &[u8], workers: usize) -> Vec<(usize, usize)> {
    plan_chunks(data, workers).iter().map(|c| (c.start, c.end)).collect()
}

fn aligned(data: &[u8], offset: usize) -> bool {
    offset == 0 || offset == data.len() || data[offset - 1] == b'\n'
}

fn assert_partition(data: &[u8], workers: usize) {
    let chunks: Vec<ChunkRange> = plan_chunks(data, workers);
    assert_eq!(chunks.len(), workers);
    assert_eq!(chunks[0].start, 0);
    assert_eq!(chunks[workers - 1].end, data.len());
    for i in 0..workers {
        assert!(chunks[i].start <= chunks[i].end);
        assert!(aligned(data, chunks[i].start));
        assert!(aligned(data, chunks[i].end));
        if i + 1 < workers {
            assert_eq!(chunks[i].end, chunks[i + 1].start);
        }
    }
    for offset in 0..data.len() {
        let holders = chunks.iter().filter(|c| c.start <= offset && offset < c.end).count();
        assert_eq!(holders, 1);
    }
}

#[test]
fn one_worker_gets_everything() {
    assert_eq!(ranges(b"a;1.0\nb;2.0\nc;3.0\n", 1), vec![(0, 18)]);
    assert_eq!(ranges(b"", 1), vec![(0, 0)]);
}

#[test]
fn cuts_move_past_the_next_newline() {
    let data = b"a;1.0\nb;2.0\nc;3.0\n";
    assert_eq!(ranges(data, 2), vec![(0, 12), (12, 18)]);
    assert_eq!(ranges(data, 3), vec![(0, 12), (12, 18), (18, 18)]);
}

#[test]
fn cut_inside_a_line_ends_the_range_after_that_line() {
    let data = b"ab;1.0\ncd;2.0\nef;3.0\ngh;4.0\n";
    assert_eq!(ranges(data, 4), vec![(0, 14), (14, 21), (21, 28), (28, 28)]);
}

#[test]
fn remainder_goes_to_the_last_range() {
    // 20 bytes among 3 workers: steps of 6, two bytes over.
    let data = b"a;1.0\nb;2.0\nc;3.0\nd\n";
    assert_eq!(ranges(data, 3), vec![(0, 12), (12, 18), (18, 20)]);
}

#[test]
fn without_final_newline_the_scan_stops_at_the_end() {
    let data = b"a;1.0\nb;2.0";
    assert_eq!(ranges(data, 2), vec![(0, 6), (6, 11)]);
    assert_eq!(ranges(data, 4), vec![(0, 6), (6, 6), (6, 11), (11, 11)]);
}

#[test]
fn without_any_newline_the_first_range_takes_all() {
    assert_eq!(ranges(b"a;1.0", 3), vec![(0, 5), (5, 5), (5, 5)]);
}

#[test]
fn more_workers_than_bytes() {
    assert_eq!(
        ranges(b"x\ny\n", 8),
        vec![(0, 2), (2, 2), (2, 2), (2, 2), (2, 2), (2, 2), (2, 2), (2, 4)]
    );
    assert_eq!(ranges(b"", 2), vec![(0, 0), (0, 0)]);
}

#[test]
fn ranges_partition_the_buffer() {
    let mut texts: Vec<Vec<u8>> = vec![
        b"".to_vec(),
        b"\n".to_vec(),
        b"\n\n\n".to_vec(),
        b"no newline at all".to_vec(),
        b"Paris;12.3\nParis;-4.5\nOslo;0.0\n".to_vec(),
        b"Paris;12.3\nParis;-4.5\nOslo;0.0".to_vec(),
    ];
    let mut long = Vec::new();
    for i in 0..200 {
        long.extend_from_slice(format!("key{};{}.{}\n", i % 13, i % 100, i % 10).as_bytes());
    }
    texts.push(long.clone());
    long.pop();
    texts.push(long);
    for text in texts.iter() {
        for workers in [1, 2, 3, 4, 5, 7, 16, 32, 33, 1000] {
            assert_partition(text, workers);
        }
    }
}
