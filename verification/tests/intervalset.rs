use charmap::intervalset::IntervalSet;

#[test]
fn index_not_present() {
    assert!(IntervalSet::new(&[(1, 1)]).index(0).is_none());
    assert!(IntervalSet::new(&[]).index(0).is_none());
}

#[test]
fn index_above_is_index_if_present() {
    assert_eq!(IntervalSet::new(&[(1, 10)]).index_above(1), 0);
    assert_eq!(IntervalSet::new(&[(1, 10)]).index_above(2), 1);
}

#[test]
fn index_above_is_length_if_higher() {
    assert_eq!(IntervalSet::new(&[(1, 10)]).index_above(100), 10);
}

#[test]
fn get_walks_the_flattened_intervals() {
    let s = IntervalSet::new(&[(1, 3), (7, 9)]);
    assert_eq!(s.size, 6);
    let expected = [1, 2, 3, 7, 8, 9];
    for (i, cp) in expected.iter().enumerate() {
        assert_eq!(s.get(i as u32), *cp);
    }
}

#[test]
fn index_inverts_get() {
    let s = IntervalSet::new(&[(1, 3), (7, 9), (100, 100)]);
    for i in 0..s.size {
        assert_eq!(s.index(s.get(i)), Some(i));
    }
}

#[test]
fn index_finds_gaps() {
    let s = IntervalSet::new(&[(1, 3), (7, 9)]);
    assert_eq!(s.index(5), None);
    assert_eq!(s.index(7), Some(3));
    assert_eq!(s.index_above(5), 3);
    assert_eq!(s.index_above(0), 0);
}
