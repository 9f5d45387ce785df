use dslab::lis::{lis, lis_1, max_envelopes, max_envelopes_1};

#[test]
fn test() {
    println!("{:?}", max_envelopes_1(vec![]));
}

#[test]
fn lis_table_values() {
    let table = lis(&[3, 1, 2]);
    assert_eq!(table.len(), 32);
    assert_eq!(&table[0..3], &[1, 1, 2]);
    assert_eq!(table[5], 1);
}

#[test]
fn lis_1_finds_longest_chain() {
    assert_eq!(lis_1(&[10, 9, 2, 5, 3, 7, 101, 18]), 4);
    assert_eq!(lis_1(&[7, 7, 7]), 1);
    assert_eq!(lis_1(&[1, 2, 3]), 3);
    assert_eq!(lis_1(&[]), 1);
}

#[test]
fn max_envelopes_sorts_and_counts() {
    let mut sizes = vec![(5, 4), (6, 4), (6, 7), (2, 3)];
    assert_eq!(max_envelopes(&mut sizes), 3);
    assert_eq!(sizes, vec![(2, 3), (5, 4), (6, 7), (6, 4)]);
}

#[test]
fn max_envelopes_1_counts_piles() {
    assert_eq!(
        max_envelopes_1(vec![vec![5, 4], vec![6, 4], vec![6, 7], vec![2, 3]]),
        3
    );
    assert_eq!(max_envelopes_1(vec![]), 0);
    assert_eq!(max_envelopes_1(vec![vec![1, 1]]), 1);
}
