use keystats::summary::StatsPer;

fn of(readings: &[i32]) -> StatsPer {
    let mut stats = StatsPer::new();
    for reading in readings {
        stats.push(*reading);
    }
    stats
}

fn fields(stats: &StatsPer) -> (i32, i32, i128, usize) {
    (stats.min(), stats.max(), stats.sum(), stats.count())
}

#[test]
fn new_holds_the_sentinels() {
    let stats = StatsPer::new();
    assert_eq!(fields(&stats), (i32::MAX, i32::MIN, 0, 0));
}

#[test]
fn push_updates_every_field() {
    let mut stats = StatsPer::new();
    stats.push(123);
    assert_eq!(fields(&stats), (123, 123, 123, 1));
    stats.push(-45);
    assert_eq!(fields(&stats), (-45, 123, 78, 2));
    stats.push(0);
    assert_eq!(fields(&stats), (-45, 123, 78, 3));
}

#[test]
fn push_takes_the_extremes_of_i32() {
    let mut stats = StatsPer::new();
    stats.push(i32::MAX);
    stats.push(i32::MAX);
    stats.push(i32::MIN);
    assert_eq!(
        fields(&stats),
        (i32::MIN, i32::MAX, 2 * (i32::MAX as i128) + i32::MIN as i128, 3)
    );
}

#[test]
fn merge_combines_sums_and_counts() {
    let mut a = of(&[10, 20, 30]);
    let b = of(&[-5, 100]);
    a.merge(b);
    assert_eq!(fields(&a), (-5, 100, 155, 5));
}

#[test]
fn merge_with_nothing_changes_nothing() {
    let mut a = of(&[7, -7]);
    a.merge(StatsPer::new());
    assert_eq!(fields(&a), (-7, 7, 0, 2));
    let mut empty = StatsPer::new();
    empty.merge(of(&[7, -7]));
    assert_eq!(fields(&empty), (-7, 7, 0, 2));
}

#[test]
fn merge_is_exact_where_averaging_means_is_not() {
    // One reading of 10.0 and three of 20.0: the mean is 17.5, not 15.0.
    let mut a = of(&[100]);
    a.merge(of(&[200, 200, 200]));
    assert_eq!(a.sum(), 700);
    assert_eq!(a.count(), 4);
}

#[test]
fn any_grouping_in_any_order_gives_the_whole() {
    let whole = [123, -45, 0, 999, -999, 17, 17, 3];
    let direct = fields(&of(&whole));
    assert_eq!(direct, (-999, 999, 115, 8));

    let groupings: [Vec<Vec<i32>>; 4] = [
        vec![vec![123, -45, 0, 999], vec![-999, 17, 17, 3]],
        vec![vec![3, 17], vec![], vec![17, -999, 999], vec![0, -45, 123]],
        vec![vec![999], vec![-999], vec![123], vec![-45], vec![0], vec![17], vec![17], vec![3]],
        vec![vec![], vec![17, 3, 0, -45, 17, 123, 999, -999]],
    ];
    for groups in groupings {
        let mut forward = StatsPer::new();
        for group in groups.iter() {
            forward.merge(of(group));
        }
        assert_eq!(fields(&forward), direct);

        let mut backward = StatsPer::new();
        for group in groups.iter().rev() {
            backward.merge(of(group));
        }
        assert_eq!(fields(&backward), direct);
    }
}

#[test]
fn merge_commutes_and_associates() {
    let a = of(&[1, 2]);
    let b = of(&[-3]);
    let c = of(&[40, 50, 60]);

    let mut ab = a;
    ab.merge(b);
    let mut ba = b;
    ba.merge(a);
    assert_eq!(fields(&ab), fields(&ba));

    let mut left = ab;
    left.merge(c);
    let mut bc = b;
    bc.merge(c);
    let mut right = a;
    right.merge(bc);
    assert_eq!(fields(&left), fields(&right));
    assert_eq!(fields(&left), (-3, 60, 150, 6));
}
