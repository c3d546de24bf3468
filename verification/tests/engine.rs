use keystats::codec::FormatError;
use keystats::engine::{aggregate, aggregate_chunk};
use keystats::summary::StatsPer;

fn listed(rows: &[(&[u8], StatsPer)]) -> Vec<(String, i32, i32, i128, usize)> {
    rows.iter()
        .map(|(key, stats)| {
            (
                String::from_utf8(key.to_vec()).unwrap(),
                stats.min(),
                stats.max(),
                stats.sum(),
                stats.count(),
            )
        })
        .collect()
}

fn row(key: &str, min: i32, max: i32, sum: i128, count: usize) -> (String, i32, i32, i128, usize) {
    (key.to_string(), min, max, sum, count)
}

fn printed(rows: &[(&[u8], StatsPer)]) -> Vec<String> {
    rows.iter()
        .map(|(key, stats)| {
            let min = stats.min() as f32 / 10.0;
            let avg = (stats.sum() as f32 / stats.count() as f32) / 10.0;
            let max = stats.max() as f32 / 10.0;
            format!("{}: {:.1}/{:.1}/{:.1}", String::from_utf8_lossy(key), min, avg, max)
        })
        .collect()
}

fn sample(lines: usize) -> Vec<u8> {
    let mut text = Vec::new();
    for i in 0..lines {
        let sign = if i % 3 == 0 { "-" } else { "" };
        text.extend_from_slice(
            format!("station {};{}{}.{}\n", (i * 31) % 17, sign, (i * 7) % 100, i % 10).as_bytes(),
        );
    }
    text
}

#[test]
fn end_to_end_example() {
    let data = b"Paris;12.3\nParis;-4.5\nOslo;0.0\n";
    let rows = aggregate(data, 1).unwrap();
    assert_eq!(listed(&rows), vec![row("Oslo", 0, 0, 0, 1), row("Paris", -45, 123, 78, 2)]);
    assert_eq!(printed(&rows), vec!["Oslo: 0.0/0.0/0.0", "Paris: -4.5/3.9/12.3"]);
}

#[test]
fn last_line_without_newline_is_counted() {
    let data = b"Paris;12.3\nParis;-4.5\nOslo;0.0\nParis;99.9";
    for workers in [1, 2, 3, 32] {
        let rows = aggregate(data, workers).unwrap();
        assert_eq!(listed(&rows), vec![row("Oslo", 0, 0, 0, 1), row("Paris", -45, 999, 1077, 3)]);
    }
    let only = aggregate(b"k;1.5", 4).unwrap();
    assert_eq!(listed(&only), vec![row("k", 15, 15, 15, 1)]);
}

#[test]
fn one_worker_and_many_agree() {
    let data = sample(1000);
    let single = listed(&aggregate(&data, 1).unwrap());
    assert_eq!(single.len(), 17);
    assert_eq!(single.iter().map(|r| r.4).sum::<usize>(), 1000);
    for workers in [2, 3, 8, 32, 999, 5000] {
        assert_eq!(listed(&aggregate(&data, workers).unwrap()), single);
    }
    assert_eq!(printed(&aggregate(&data, 1).unwrap()), printed(&aggregate(&data, 32).unwrap()));
}

#[test]
fn running_twice_gives_the_same_rows() {
    let data = sample(300);
    let first = aggregate(&data, 32).unwrap();
    let second = aggregate(&data, 32).unwrap();
    assert_eq!(listed(&first), listed(&second));
    assert_eq!(printed(&first), printed(&second));
}

#[test]
fn empty_buffer_gives_no_rows() {
    assert!(aggregate(b"", 1).unwrap().is_empty());
    assert!(aggregate(b"", 32).unwrap().is_empty());
    assert!(aggregate(b"\n\n\n", 2).unwrap().is_empty());
}

#[test]
fn lines_without_delimiter_are_skipped() {
    let data = b"\nParis;1.0\n\nnot a record\nParis;2.0\n\n";
    let rows = aggregate(data, 1).unwrap();
    assert_eq!(listed(&rows), vec![row("Paris", 10, 20, 30, 2)]);
}

#[test]
fn bad_reading_fails_the_run() {
    assert_eq!(aggregate(b"Paris;12.3\nOslo;1e3\n", 1).err(), Some(FormatError));
    assert_eq!(aggregate(b"Paris;12.3\nOslo;100.0\n", 2).err(), Some(FormatError));
    assert_eq!(aggregate(b"Paris;12.3\r\nOslo;1.0\r\n", 1).err(), Some(FormatError));
    let mut data = sample(500);
    data.extend_from_slice(b"late;oops\n");
    for workers in [1, 4, 32] {
        assert_eq!(aggregate(&data, workers).err(), Some(FormatError));
    }
}

#[test]
fn worker_reads_its_share_only() {
    let data = b"a;1.0\nb;2.0\na;-3.0\n";
    let stats = aggregate_chunk(&data[6..12]).unwrap();
    assert_eq!(stats.readings(), 1);
    assert_eq!(listed(&stats.into_sorted()), vec![row("b", 20, 20, 20, 1)]);
    let all = aggregate_chunk(data).unwrap();
    assert_eq!(all.readings(), 3);
    assert_eq!(listed(&all.into_sorted()), vec![row("a", -30, 10, -20, 2), row("b", 20, 20, 20, 1)]);
}

#[test]
fn worker_fails_on_a_bad_reading() {
    assert_eq!(aggregate_chunk(b"a;1.0\nb;x\n").err(), Some(FormatError));
    assert_eq!(aggregate_chunk(b"a;1.0\nb;").err(), Some(FormatError));
}

#[test]
fn keys_are_taken_byte_for_byte() {
    let data = "Z\u{fc}rich;1.0\nzz;2.0\nZ\u{fc}rich;3.0\n".as_bytes();
    let rows = aggregate(data, 2).unwrap();
    assert_eq!(listed(&rows), vec![row("Z\u{fc}rich", 10, 30, 40, 2), row("zz", 20, 20, 20, 1)]);
}
