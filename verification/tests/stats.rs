use keystats::stats::{reduce, Stats};
use keystats::summary::StatsPer;

fn listed(rows: &[(&[u8], StatsPer)]) -> Vec<(Vec<u8>, i32, i32, i128, usize)> {
    rows.iter()
        .map(|(key, stats)| (key.to_vec(), stats.min(), stats.max(), stats.sum(), stats.count()))
        .collect()
}

fn row(key: &[u8], min: i32, max: i32, sum: i128, count: usize) -> (Vec<u8>, i32, i32, i128, usize) {
    (key.to_vec(), min, max, sum, count)
}

#[test]
fn new_aggregator_is_empty() {
    let stats = Stats::new();
    assert_eq!(stats.readings(), 0);
    assert!(stats.into_sorted().is_empty());
}

#[test]
fn update_inserts_a_new_key() {
    let mut stats = Stats::new();
    stats.update(b"Oslo", -12);
    assert_eq!(stats.readings(), 1);
    assert_eq!(listed(&stats.into_sorted()), vec![row(b"Oslo", -12, -12, -12, 1)]);
}

#[test]
fn update_pushes_into_a_present_key() {
    let mut stats = Stats::new();
    stats.update(b"Oslo", -12);
    stats.update(b"Oslo", 30);
    stats.update(b"Oslo", 5);
    assert_eq!(stats.readings(), 3);
    assert_eq!(listed(&stats.into_sorted()), vec![row(b"Oslo", -12, 30, 23, 3)]);
}

#[test]
fn update_finds_a_key_by_its_bytes() {
    let first = String::from("Lima");
    let second = String::from("Lima");
    let mut stats = Stats::new();
    stats.update(first.as_bytes(), 1);
    stats.update(second.as_bytes(), 2);
    assert_eq!(listed(&stats.into_sorted()), vec![row(b"Lima", 1, 2, 3, 2)]);
}

#[test]
fn update_keeps_keys_apart() {
    let mut stats = Stats::new();
    stats.update(b"b", 2);
    stats.update(b"a", 1);
    stats.update(b"b", 4);
    stats.update(b"", 9);
    assert_eq!(stats.readings(), 4);
    assert_eq!(
        listed(&stats.into_sorted()),
        vec![row(b"", 9, 9, 9, 1), row(b"a", 1, 1, 1, 1), row(b"b", 2, 4, 6, 2)]
    );
}

#[test]
fn rows_ascend_by_bytes() {
    let keys: [&[u8]; 8] = [b"b", b"ab", b"a", b"B", b"abc", b"\xc3\x85", b"", b"aa"];
    let mut stats = Stats::new();
    for (i, key) in keys.iter().enumerate() {
        stats.update(key, i as i32);
    }
    let rows = stats.into_sorted();
    let order: Vec<&[u8]> = rows.iter().map(|(key, _)| *key).collect();
    let expected: Vec<&[u8]> = vec![b"", b"B", b"a", b"aa", b"ab", b"abc", b"b", b"\xc3\x85"];
    assert_eq!(order, expected);
}

#[test]
fn rows_ascend_for_many_keys() {
    let names: Vec<String> = (0..500).map(|i| format!("station-{}", (i * 7919) % 500)).collect();
    let mut stats = Stats::new();
    for (i, name) in names.iter().enumerate() {
        stats.update(name.as_bytes(), i as i32);
    }
    let rows = stats.into_sorted();
    assert_eq!(rows.len(), 500);
    for pair in rows.windows(2) {
        assert!(pair[0].0 < pair[1].0);
    }
}

#[test]
fn merge_inserts_absent_keys_and_combines_present_ones() {
    let mut a = Stats::new();
    a.update(b"Paris", 123);
    a.update(b"Oslo", 0);
    let mut b = Stats::new();
    b.update(b"Paris", -45);
    b.update(b"Rome", 200);
    b.update(b"Rome", 210);
    a.merge(b);
    assert_eq!(a.readings(), 5);
    assert_eq!(
        listed(&a.into_sorted()),
        vec![
            row(b"Oslo", 0, 0, 0, 1),
            row(b"Paris", -45, 123, 78, 2),
            row(b"Rome", 200, 210, 410, 2)
        ]
    );
}

#[test]
fn merge_with_an_empty_aggregator() {
    let mut a = Stats::new();
    a.update(b"k", 5);
    a.merge(Stats::new());
    assert_eq!(a.readings(), 1);
    let mut b = Stats::new();
    b.merge(a);
    assert_eq!(b.readings(), 1);
    assert_eq!(listed(&b.into_sorted()), vec![row(b"k", 5, 5, 5, 1)]);
}

#[test]
fn merge_order_does_not_matter() {
    let parts: [&[(&[u8], i32)]; 3] = [
        &[(b"x", 1), (b"y", -2), (b"x", 3)],
        &[(b"y", 40), (b"z", 50)],
        &[(b"x", -600), (b"z", 7), (b"w", 8)],
    ];
    let build = |order: [usize; 3]| {
        let mut total = Stats::new();
        for index in order {
            let mut part = Stats::new();
            for (key, reading) in parts[index] {
                part.update(key, *reading);
            }
            total.merge(part);
        }
        listed(&total.into_sorted())
    };
    let expected = vec![
        row(b"w", 8, 8, 8, 1),
        row(b"x", -600, 3, -596, 3),
        row(b"y", -2, 40, 38, 2),
        row(b"z", 7, 50, 57, 2),
    ];
    for order in [[0, 1, 2], [0, 2, 1], [1, 0, 2], [1, 2, 0], [2, 0, 1], [2, 1, 0]] {
        assert_eq!(build(order), expected);
    }
}

fn part<'a>(readings: &[(&'a [u8], i32)]) -> Stats<'a> {
    let mut stats = Stats::new();
    for (key, reading) in readings {
        stats.update(key, *reading);
    }
    stats
}

#[test]
fn reduce_of_nothing_is_empty() {
    let total = reduce(Vec::new()).unwrap();
    assert_eq!(total.readings(), 0);
    assert!(total.into_sorted().is_empty());
}

#[test]
fn reduce_merges_all_parts() {
    let parts = vec![
        part(&[(b"x", 1), (b"y", -2), (b"x", 3)]),
        part(&[]),
        part(&[(b"y", 40), (b"z", 50)]),
        part(&[(b"x", -600), (b"z", 7), (b"w", 8)]),
    ];
    let total = reduce(parts).unwrap();
    assert_eq!(total.readings(), 8);
    assert_eq!(
        listed(&total.into_sorted()),
        vec![
            row(b"w", 8, 8, 8, 1),
            row(b"x", -600, 3, -596, 3),
            row(b"y", -2, 40, 38, 2),
            row(b"z", 7, 50, 57, 2),
        ]
    );
}

#[test]
fn reduce_in_any_order_gives_the_same() {
    let make = |order: [usize; 3]| {
        let sources: [&[(&[u8], i32)]; 3] = [
            &[(b"a", 10), (b"b", 20)],
            &[(b"b", -20), (b"c", 999)],
            &[(b"a", -999), (b"a", 5)],
        ];
        let parts: Vec<Stats> = order.iter().map(|i| part(sources[*i])).collect();
        listed(&reduce(parts).unwrap().into_sorted())
    };
    let expected =
        vec![row(b"a", -999, 10, -984, 3), row(b"b", -20, 20, 0, 2), row(b"c", 999, 999, 999, 1)];
    for order in [[0, 1, 2], [0, 2, 1], [1, 0, 2], [1, 2, 0], [2, 0, 1], [2, 1, 0]] {
        assert_eq!(make(order), expected);
    }
}
