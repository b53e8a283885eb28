use charmap::intervals::{intervals, subtract_intervals, union_intervals};

#[test]
fn union_intervals_empty() {
    assert_eq!(union_intervals(vec![], vec![]), &[]);
    assert_eq!(union_intervals(vec![], vec![(1, 2)]), &[(1, 2)]);
    assert_eq!(union_intervals(vec![(1, 2)], vec![]), &[(1, 2)]);
}

#[test]
fn union_handles_totally_overlapped_gap() {
    assert_eq!(union_intervals(vec![(2, 3)], vec![(1, 2), (4, 5)]), &[(1, 5)])
}

#[test]
fn union_handles_partially_overlapped_gap() {
    assert_eq!(
        union_intervals(vec![(3, 3)], vec![(1, 2), (5, 5)]),
        &[(1, 3), (5, 5)]
    )
}

#[test]
fn subtract_works() {
    assert_eq!(subtract_intervals(vec![(0, 1), (3, 3)], &[(0, 3)]), &[]);
    assert_eq!(
        subtract_intervals(vec![(0, 1), (3, 3)], &[(1, 3)]),
        &[(0, 0)]
    );
    assert_eq!(
        subtract_intervals(vec![(0, 10)], &[(2, 3), (9, 15)]),
        &[(0, 1), (4, 8)]
    );
}

#[test]
fn subtract_empty_returns_left_unchanged() {
    assert_eq!(
        subtract_intervals(vec![(5, 9), (20, 30)], &[]),
        &[(5, 9), (20, 30)]
    );
}

#[test]
fn intervals_works() {
    assert_eq!(intervals("\u{10A07}"), &[(68103, 68103)]);
    assert_eq!(intervals("a"), &[(97, 97)]);
    assert_eq!(intervals("aa"), &[(97, 97)]);
    assert_eq!(intervals("abcdef0123456789"), &[(48, 57), (97, 102)]);
    assert_eq!(intervals("01234fedcba98765"), &[(48, 57), (97, 102)]);
}

#[test]
fn intervals_empty_string_is_empty() {
    assert_eq!(intervals(""), &[]);
}

#[test]
fn intervals_is_order_and_duplicate_insensitive() {
    let a = intervals("01234fedcba98765");
    let b = intervals("abcdef0123456789");
    let c = intervals("aabbccddeeff99887766554433221100");
    assert_eq!(a, b);
    assert_eq!(a, c);
    assert_eq!(a, vec![(48, 57), (97, 102)]);
}
