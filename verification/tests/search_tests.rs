use seg_tree::{Monoid, SegTree};

/// Addition of `u32` values.
enum Sum {}

impl Monoid for Sum {
    type Item = u32;
    fn unit() -> u32 { 0 }
    fn combine(a: u32, b: u32) -> u32 { a + b }
    fn lemma_left_identity(_a: u32) {}
    fn lemma_right_identity(_a: u32) {}
    fn lemma_associative(_a: u32, _b: u32, _c: u32) {}
    fn lemma_clone(_a: u32, _b: u32) {}
    fn id() -> u32 { 0 }
    fn op(a: &u32, b: &u32) -> u32 { a + b }
}

fn sample(n: usize) -> Vec<u32> {
    (0 .. n).map(|i| ((i * 5 + 2) % 7) as u32).collect()
}

fn scan_right(items: &[u32], start: usize, max: u32) -> usize {
    let mut acc = 0;
    let mut end = start;
    while end < items.len() && acc + items[end] <= max {
        acc += items[end];
        end += 1;
    }
    end
}

fn scan_left(items: &[u32], end: usize, max: u32) -> usize {
    let mut acc = 0;
    let mut start = end;
    while start > 0 && acc + items[start - 1] <= max {
        start -= 1;
        acc += items[start];
    }
    start
}

#[test]
fn sums_of_one_to_ten() {
    let items: Vec<u32> = vec![1, 2, 3, 4, 5, 6, 7, 8, 9, 10];
    let st = SegTree::<Sum>::from_slice(&items);
    assert_eq!(st.fold(2, 5), 12);
    assert_eq!(st.max_end(0, |&sum| sum <= 15), 5);
    assert_eq!(st.max_end(0, |&sum| sum <= 14), 4);
    assert_eq!(st.min_start(10, |&sum| sum <= 17), 9);
    assert_eq!(st.min_start(10, |&sum| sum <= 19), 8);
    assert_eq!(scan_right(&items, 0, 15), 5);
    assert_eq!(scan_left(&items, 10, 17), 9);
}

#[test]
fn max_end_agrees_with_a_linear_scan() {
    for n in 1 ..= 17 {
        let items = sample(n);
        let total: u32 = items.iter().sum();
        let st = SegTree::<Sum>::from_slice(&items);
        for start in 0 ..= n {
            for max in 0 ..= total + 1 {
                let end = st.max_end(start, |&sum| sum <= max);
                assert_eq!(end, scan_right(&items, start, max), "n {} start {} max {}", n, start, max);
                assert!(st.fold(start, end) <= max);
                assert!(end == n || st.fold(start, end + 1) > max);
            }
        }
    }
}

#[test]
fn min_start_agrees_with_a_linear_scan() {
    for n in 1 ..= 17 {
        let items = sample(n);
        let total: u32 = items.iter().sum();
        let st = SegTree::<Sum>::from_slice(&items);
        for end in 0 ..= n {
            for max in 0 ..= total + 1 {
                let start = st.min_start(end, |&sum| sum <= max);
                assert_eq!(start, scan_left(&items, end, max), "n {} end {} max {}", n, end, max);
                assert!(st.fold(start, end) <= max);
                assert!(start == 0 || st.fold(start - 1, end) > max);
            }
        }
    }
}

#[test]
fn searches_reach_the_ends_when_nothing_fails() {
    let items = sample(9);
    let st = SegTree::<Sum>::from_slice(&items);
    for pos in 0 ..= 9 {
        assert_eq!(st.max_end(pos, |_| true), 9);
        assert_eq!(st.min_start(pos, |_| true), 0);
    }
}

#[test]
fn searches_stay_put_when_every_item_fails() {
    let st = SegTree::<Sum>::from_slice(&[3, 1, 4, 1, 5, 9, 2, 6]);
    for pos in 0 ..= 8 {
        assert_eq!(st.max_end(pos, |&sum| sum == 0), pos);
        assert_eq!(st.min_start(pos, |&sum| sum == 0), pos);
    }
}

#[test]
fn searches_at_the_far_ends_never_ask() {
    for n in 1 ..= 9 {
        let st = SegTree::<Sum>::from_slice(&sample(n));
        assert_eq!(st.max_end(n, |_| panic!("asked at the right end")), n);
        assert_eq!(st.min_start(0, |_| panic!("asked at the left end")), 0);
    }
}

#[test]
fn searches_ask_only_about_ranges_from_the_given_position() {
    let items = sample(16);
    let st = SegTree::<Sum>::from_slice(&items);
    for start in 0 .. 16 {
        let mut asked: Vec<u32> = Vec::new();
        st.max_end(start, |&sum| {
            asked.push(sum);
            sum <= 20
        });
        let prefix: Vec<u32> = (start + 1 ..= 16).map(|e| items[start .. e].iter().sum()).collect();
        assert!(asked.iter().all(|a| prefix.contains(a)));
    }
    for end in 1 ..= 16 {
        let mut asked: Vec<u32> = Vec::new();
        st.min_start(end, |&sum| {
            asked.push(sum);
            sum <= 20
        });
        let suffix: Vec<u32> = (0 .. end).map(|b| items[b .. end].iter().sum()).collect();
        assert!(asked.iter().all(|a| suffix.contains(a)));
    }
}

#[test]
fn searches_ask_a_logarithmic_number_of_times() {
    let n = 1024;
    let items: Vec<u32> = vec![1; n];
    let st = SegTree::<Sum>::from_slice(&items);
    for pos in [0, 1, 3, 255, 256, 511, 512, 513, 1000, 1023, 1024] {
        for max in [0, 1, 2, 100, 511, 512, 1023, 1024, 5000] {
            let mut calls = 0;
            let end = st.max_end(pos, |&sum| {
                calls += 1;
                sum <= max
            });
            assert_eq!(end, n.min(pos + max as usize));
            assert!(calls <= 44, "{} calls from {} up to {}", calls, pos, max);
            let mut calls = 0;
            let start = st.min_start(pos, |&sum| {
                calls += 1;
                sum <= max
            });
            assert_eq!(start, pos.saturating_sub(max as usize));
            assert!(calls <= 44, "{} calls from {} down to {}", calls, pos, max);
        }
    }
}

#[test]
fn searches_follow_updates() {
    let mut st = SegTree::<Sum>::from_slice(&[1, 2, 3, 4, 5, 6, 7, 8, 9, 10]);
    assert_eq!(st.max_end(0, |&sum| sum <= 15), 5);
    st.set(2, 30);
    assert_eq!(st.max_end(0, |&sum| sum <= 15), 2);
    assert_eq!(st.max_end(3, |&sum| sum <= 15), 6);
    assert_eq!(st.min_start(6, |&sum| sum <= 15), 3);
    st.set(2, 0);
    assert_eq!(st.max_end(0, |&sum| sum <= 15), 5);
    assert_eq!(st.max_end(0, |&sum| sum <= 18), 6);
}
