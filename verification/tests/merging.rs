//! The accumulator and the table merge: identity, commutativity,
//! associativity on concrete values.
use keystats::stats::Stat;
use keystats::table::Worker;

fn stat_of_vals(vals: &[i64]) -> Stat {
    let mut s = Stat::identity();
    for v in vals {
        s.add(*v);
    }
    s
}

fn assert_same(a: &Stat, b: &Stat) {
    assert_eq!(a.count, b.count);
    assert_eq!(a.sum, b.sum);
    assert_eq!(a.min, b.min);
    assert_eq!(a.max, b.max);
}

#[test]
fn identity_element() {
    let s = stat_of_vals(&[13, -2, 40]);
    let id = Stat::identity();
    assert_eq!(id.count, 0);
    assert_eq!(id.sum, 0);
    assert_same(&s.merge(&id), &s);
    assert_same(&id.merge(&s), &s);
}

#[test]
fn merge_is_commutative() {
    let a = stat_of_vals(&[10, 30]);
    let b = stat_of_vals(&[-5, 20, 20]);
    assert_same(&a.merge(&b), &b.merge(&a));
}

#[test]
fn merge_is_associative() {
    let a = stat_of_vals(&[1, 2]);
    let b = stat_of_vals(&[-3]);
    let c = stat_of_vals(&[7, 7, 0]);
    assert_same(&a.merge(&b).merge(&c), &a.merge(&b.merge(&c)));
}

#[test]
fn merge_equals_folding_everything() {
    let a = stat_of_vals(&[10, -20, 5]);
    let b = stat_of_vals(&[3, 100]);
    let whole = stat_of_vals(&[10, -20, 5, 3, 100]);
    assert_same(&a.merge(&b), &whole);
}

#[test]
fn table_merge_is_commutative_per_key() {
    let mut w1 = Worker::new();
    let mut w2 = Worker::new();
    w1.fold_chunk(&b"A;1.0\nB;5.5\n".to_vec());
    w2.fold_chunk(&b"B;2.0\nC;-1.0\n".to_vec());
    let ab = w1.table.merge(&w2.table);
    let ba = w2.table.merge(&w1.table);
    assert_eq!(ab.entry_count(), ba.entry_count());
    for i in 0..ab.entry_count() {
        let key = ab.key_at(i).clone();
        let s1 = ab.stat_at(i);
        let mut found = false;
        for j in 0..ba.entry_count() {
            if *ba.key_at(j) == key {
                let s2 = ba.stat_at(j);
                assert_eq!(s1.count, s2.count);
                assert_eq!(s1.sum, s2.sum);
                assert_eq!(s1.min, s2.min);
                assert_eq!(s1.max, s2.max);
                found = true;
            }
        }
        assert!(found);
    }
}
