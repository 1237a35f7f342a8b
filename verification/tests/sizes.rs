use kupsy::intervals::{get_gaps_intervals, get_length_of_each_interval, Interval};

fn tiv(pairs: &[(u32, u32)]) -> Vec<Interval<u32>> {
    pairs.iter().map(|&pair| pair.into()).collect()
}

#[test]
fn sizes_empty_intervals() {
    let intervals: Vec<Interval<u32>> = tiv(&[]);

    let gaps = get_gaps_intervals(&intervals);
    assert_eq!(gaps, tiv(&[]));
}

#[test]
fn sizes_single_interval() {
    let intervals: Vec<Interval<u32>> = tiv(&[(1, 5)]);

    let gaps = get_gaps_intervals(&intervals);
    assert_eq!(gaps, tiv(&[]));
}

#[test]
fn sizes_non_overlapping_intervals() {
    let intervals: Vec<Interval<u32>> = tiv(&[(1, 3), (4, 6)]);

    let gaps = get_gaps_intervals(&intervals);
    assert_eq!(gaps, tiv(&[(3, 4)]));
}

#[test]
fn fully_non_overlapping_intervals() {
    let intervals: Vec<Interval<u32>> = tiv(&[(1, 5), (6, 10), (11, 15)]);

    let gaps = get_gaps_intervals(&intervals);
    assert_eq!(gaps, tiv(&[(5, 6), (10, 11)]));
}

#[test]
fn ten_intervals() {
    let intervals: Vec<Interval<u32>> = tiv(&[
        (1, 3), (4, 6), (7, 9), (10, 12), (13, 15), (16, 18), (19, 21), (22, 24), (25, 27),
        (28, 30),
    ]);

    let gaps = get_gaps_intervals(&intervals);
    assert_eq!(gaps, tiv(&[
        (3, 4), (6, 7), (9, 10), (12, 13), (15, 16), (18, 19), (21, 22), (24, 25), (27, 28),
    ]));
}

#[test]
fn fifteen_intervals() {
    let intervals: Vec<Interval<u32>> = tiv(&[
        (1, 3), (4, 6), (7, 9), (10, 12), (13, 15), (16, 18), (19, 21), (22, 24), (25, 27),
        (28, 30), (31, 33), (34, 36), (37, 39), (40, 42), (43, 45),
    ]);

    let gaps = get_gaps_intervals(&intervals);
    assert_eq!(gaps, tiv(&[
        (3, 4), (6, 7), (9, 10), (12, 13), (15, 16), (18, 19), (21, 22), (24, 25), (27, 28),
        (30, 31), (33, 34), (36, 37), (39, 40), (42, 43),
    ]));
}

#[test]
fn twenty_intervals() {
    let intervals: Vec<Interval<u32>> = tiv(&[
        (1, 3), (4, 6), (7, 9), (10, 12), (13, 15), (16, 18), (19, 21), (22, 24), (25, 27),
        (28, 30), (31, 33), (34, 36), (37, 39), (40, 42), (43, 45), (46, 48), (49, 51), (52, 54),
        (55, 57), (58, 60),
    ]);

    let gaps = get_gaps_intervals(&intervals);
    assert_eq!(gaps, tiv(&[
        (3, 4), (6, 7), (9, 10), (12, 13), (15, 16), (18, 19), (21, 22), (24, 25), (27, 28),
        (30, 31), (33, 34), (36, 37), (39, 40), (42, 43), (45, 46), (48, 49), (51, 52), (54, 55),
        (57, 58),
    ]));
}

#[test]
fn lengths_of_each_interval() {
    let intervals: Vec<Interval<u32>> = tiv(&[(1, 5), (6, 6), (11, 15), (20, 120)]);
    assert_eq!(get_length_of_each_interval(&intervals), vec![4, 0, 4, 100]);
    assert_eq!(get_length_of_each_interval(&tiv(&[])), Vec::<u32>::new());
}

#[test]
fn length_of_one_interval() {
    let interval: Interval<i64> = (-3, 4).into();
    assert_eq!(interval.length(), 7);
    let pair: (i64, i64) = interval.into();
    assert_eq!(pair, (-3, 4));
}
