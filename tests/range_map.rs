use basm::range_map::{BPTreeMap, LazyOp};

struct F;

impl LazyOp<(i64, usize), i64> for F {
    fn binary_op(t1: (i64, usize), t2: (i64, usize)) -> (i64, usize) {
        (t1.0 + t2.0, t1.1 + t2.1)
    }
    fn apply(u: i64, t: (i64, usize)) -> (i64, usize) {
        (t.0 + u * t.1 as i64, t.1)
    }
    fn compose(u1: i64, u2: i64) -> i64 {
        u1 + u2
    }
    fn id_op() -> i64 {
        0
    }
}

#[test]
fn check_btree_interval_sum() {
    let mut bptm = BPTreeMap::<usize, (i64, usize), i64, F>::new();
    let n = 10;
    for i in 1..=n {
        bptm.insert(i, (i as i64, 1));
    }
    assert_eq!(Some((18, 4)), bptm.get_range(3..=6));
    assert_eq!(Some((18, 4)), bptm.get_range(3..7));
    assert_eq!(Some((55, 10)), bptm.get_range(..));
    assert_eq!(Some((36, 8)), bptm.get_range(..9));
    assert_eq!(Some((36, 8)), bptm.get_range(..=8));
    assert_eq!(Some((52, 8)), bptm.get_range(3..));
    bptm.get_range_mut(4..=6).unwrap().apply(&1i64);
    assert_eq!(Some((21, 4)), bptm.get_range(3..=6));
    assert_eq!(Some((21, 4)), bptm.get_range(3..7));
    assert_eq!(Some((58, 10)), bptm.get_range(..));
    assert_eq!(Some((39, 8)), bptm.get_range(..9));
    assert_eq!(Some((39, 8)), bptm.get_range(..=8));
    assert_eq!(Some((55, 8)), bptm.get_range(3..));
}

#[test]
fn map_insert_get_remove() {
    let mut m = BPTreeMap::<usize, (i64, usize), i64, F>::new();
    assert_eq!(m.insert(5, (50, 1)), None);
    assert_eq!(m.insert(2, (20, 1)), None);
    assert_eq!(m.insert(5, (55, 1)), Some((50, 1)));
    assert_eq!(m.get(&5), Some(&(55, 1)));
    assert_eq!(m.get(&3), None);
    assert_eq!(m.get_range(3..5), None);
    assert!(m.get_range_mut(6..).is_none());
    assert_eq!(m.get_range_mut(..).unwrap().value(), (75, 2));
    assert_eq!(m.remove(&2), Some((20, 1)));
    assert_eq!(m.remove(&2), None);
    assert_eq!(m.get_range(..), Some((55, 1)));
    m.clear();
    assert_eq!(m.get_range(..), None);
}
