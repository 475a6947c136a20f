use seg_tree::{AddU64, Monoid, SegTree};

/// Concatenation of strings: associative, not commutative.
enum Concat {}

impl Monoid for Concat {
    type Item = String;
    fn unit() -> String { String::new() }
    fn combine(a: String, b: String) -> String { format!("{}{}", a, b) }
    fn lemma_left_identity(_a: String) {}
    fn lemma_right_identity(_a: String) {}
    fn lemma_associative(_a: String, _b: String, _c: String) {}
    fn lemma_clone(_a: String, _b: String) {}
    fn id() -> String { String::new() }
    fn op(a: &String, b: &String) -> String { format!("{}{}", a, b) }
}

fn letters(text: &str) -> Vec<String> {
    text.chars().map(|c| c.to_string()).collect()
}

#[test]
fn add_u64_adds() {
    assert_eq!(AddU64::id(), 0);
    assert_eq!(AddU64::op(&2, &3), 5);
    assert_eq!(AddU64::op(&0, &17), 17);
    assert_eq!(AddU64::op(&17, &0), 17);
    assert_eq!(AddU64::op(&AddU64::op(&1, &2), &3), AddU64::op(&1, &AddU64::op(&2, &3)));
}

#[test]
fn add_u64_wraps_around() {
    assert_eq!(AddU64::op(&u64::MAX, &1), 0);
    assert_eq!(AddU64::op(&u64::MAX, &u64::MAX), u64::MAX - 1);
    assert_eq!(AddU64::op(&(1 << 63), &(1 << 63)), 0);
}

#[test]
fn add_u64_tree() {
    let items: Vec<u64> = vec![1, 2, 3, 4, 5, 6, 7, 8, 9, 10];
    let mut st = SegTree::<AddU64>::from_slice(&items);
    assert_eq!(st.len(), 10);
    assert_eq!(st.fold(2, 5), 12);
    assert_eq!(st.fold(0, 10), 55);
    assert_eq!(*st.val(), 55);
    assert_eq!(st.max_end(0, |&sum| sum <= 15), 5);
    assert_eq!(st.min_start(10, |&sum| sum <= 17), 9);
    st.set(9, u64::MAX);
    assert_eq!(st.fold(8, 10), 8);
    assert_eq!(st.fold(0, 10), 44);
    let zeros = SegTree::<AddU64>::new(5);
    assert_eq!(zeros.fold(0, 5), 0);
    assert_eq!(*zeros.get(4), 0);
}

#[test]
fn fold_keeps_the_order_of_the_items() {
    for n in 1 ..= 12 {
        let text = &"abcdefghijkl"[.. n];
        let st = SegTree::<Concat>::from_slice(&letters(text));
        for i in 0 ..= n {
            for j in i ..= n {
                assert_eq!(st.fold(i, j), &text[i .. j]);
            }
        }
        assert_eq!(st.val(), text);
    }
}

#[test]
fn set_keeps_the_order_of_the_items() {
    let mut st = SegTree::<Concat>::from_slice(&letters("abcdefg"));
    st.set(3, "XY".to_string());
    assert_eq!(st.fold(0, 7), "abcXYefg");
    assert_eq!(st.fold(2, 5), "cXYe");
    assert_eq!(st.fold(0, 3), "abc");
    assert_eq!(st.fold(4, 7), "efg");
    assert_eq!(st.get(3), "XY");
}

#[test]
fn max_end_reduces_from_left_to_right() {
    let text = "abcdefghijk";
    let st = SegTree::<Concat>::from_slice(&letters(text));
    for start in 0 ..= text.len() {
        for end in start ..= text.len() {
            let wanted = &text[start .. end];
            assert_eq!(st.max_end(start, |s: &String| wanted.starts_with(s.as_str())), end);
        }
    }
}

#[test]
fn min_start_reduces_from_left_to_right() {
    let text = "abcdefghijk";
    let st = SegTree::<Concat>::from_slice(&letters(text));
    for end in 0 ..= text.len() {
        for start in 0 ..= end {
            let wanted = &text[start .. end];
            assert_eq!(st.min_start(end, |s: &String| wanted.ends_with(s.as_str())), start);
        }
    }
}
