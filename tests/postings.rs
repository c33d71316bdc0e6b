use tsdb::postings::{IntersectPostings, MergedPostings, Postings};

fn list(v: &[u64]) -> Postings {
    Postings::new_list(v.to_vec())
}

fn be_bytes(ids: &[u32]) -> Vec<u8> {
    let mut v = vec![];
    for id in ids {
        v.extend_from_slice(&id.to_be_bytes());
    }
    v
}

#[test]
fn test_listing_seek() {
    let ids = [1, 2, 3, 4, 5, 6, 7, 1000, 1001];

    let mut pos1 = list(&ids);
    pos1.seek(3);
    assert_eq!(vec![3, 4, 5, 6, 7, 1000, 1001], pos1.collect_ids());

    let mut pos1 = list(&ids);
    pos1.seek(3);
    pos1.seek(8);
    assert_eq!(vec![1000, 1001], pos1.collect_ids());

    let mut pos1 = list(&ids);
    pos1.seek(3);
    pos1.seek(8);
    pos1.seek(1002);
    assert_eq!(vec![] as Vec<u64>, pos1.collect_ids());

    let mut pos1 = list(&ids);
    pos1.seek(3);
    pos1.seek(8);
    pos1.seek(1002);
    pos1.seek(3);
    assert_eq!(vec![] as Vec<u64>, pos1.collect_ids());
}

fn merged() -> MergedPostings {
    let pos1 = list(&[1, 2, 3, 4, 5, 6, 7, 1000, 1001]);
    let pos2 = list(&[2, 4, 5, 6, 7, 8, 999, 1001]);
    let pos3 = list(&[1, 2, 5, 6, 7, 8, 1001, 1200]);
    MergedPostings::new(vec![pos1, pos2, pos3])
}

fn merged_after(seeks: &[u64]) -> Vec<u64> {
    let mut m = merged();
    for x in seeks {
        m.seek(*x);
    }
    Postings::Merged(m).collect_ids()
}

#[test]
fn test_merged_postigns() {
    assert_eq!(vec![1, 2, 3, 4, 5, 6, 7, 8, 999, 1000, 1001, 1200], merged_after(&[]));
    assert_eq!(vec![3, 4, 5, 6, 7, 8, 999, 1000, 1001, 1200], merged_after(&[3]));
    assert_eq!(vec![999, 1000, 1001, 1200], merged_after(&[3, 9]));
    assert_eq!(vec![] as Vec<u64>, merged_after(&[3, 9, 1201]));
}

#[test]
fn merged_seek_straight_to_nine() {
    assert_eq!(vec![999, 1000, 1001, 1200], merged_after(&[9]));
}

#[test]
fn merged_seek_does_not_repeat_emitted_ids() {
    let mut m = merged();
    assert_eq!(Some(1), m.next());
    assert_eq!(Some(2), m.next());
    m.seek(1);
    assert_eq!(vec![3, 4, 5, 6, 7, 8, 999, 1000, 1001, 1200], Postings::Merged(m).collect_ids());
}

fn big_endian_after(seeks: &[u64]) -> Vec<u64> {
    let mut pos = Postings::new_big_endian(be_bytes(&[1, 2, 3, 4, 6]));
    for x in seeks {
        pos.seek(*x);
    }
    pos.collect_ids()
}

#[test]
fn test_big_endian_postings() {
    assert_eq!(vec![1, 2, 3, 4, 6], big_endian_after(&[]));
    assert_eq!(vec![1, 2, 3, 4, 6], big_endian_after(&[1]));
    assert_eq!(vec![3, 4, 6], big_endian_after(&[1, 3]));
    assert_eq!(vec![3, 4, 6], big_endian_after(&[1, 3, 1]));
    assert_eq!(vec![6], big_endian_after(&[1, 3, 1, 5]));
    assert_eq!(vec![] as Vec<u64>, big_endian_after(&[1, 3, 1, 5, 7]));
}

#[test]
fn big_endian_seek_past_u32() {
    assert_eq!(vec![] as Vec<u64>, big_endian_after(&[1 << 40]));
}

#[test]
fn test_intersect_postings() {
    let pos1 = list(&[1, 2, 3, 4, 5]);
    let pos2 = list(&[4, 5, 6, 7, 8, 100]);
    let intersect = IntersectPostings::new(vec![pos1, pos2]);
    assert_eq!(vec![4, 5], Postings::Intersect(intersect).collect_ids());
}

#[test]
fn intersect_of_three_with_seek() {
    let a = list(&[1, 3, 5, 7, 9, 11]);
    let b = list(&[3, 4, 5, 9, 11, 12]);
    let c = list(&[0, 3, 5, 6, 11]);
    let mut i = Postings::new_intersect(vec![a, b, c]);
    assert_eq!(Some(3), i.next());
    i.seek(6);
    assert_eq!(vec![11], i.collect_ids());
}

#[test]
fn intersect_of_merged() {
    let m1 = Postings::new_merge(vec![list(&[1, 5]), list(&[3, 7])]);
    let m2 = Postings::new_merge(vec![list(&[3]), list(&[5, 8])]);
    let mut i = Postings::new_intersect(vec![m1, m2]);
    assert_eq!(vec![3, 5], i.collect_ids());
}

#[test]
fn intersect_of_nothing_is_empty() {
    let mut i = Postings::new_intersect(vec![]);
    assert_eq!(None, i.next());
}

#[test]
fn empty_postings() {
    let mut e = Postings::new_empty();
    e.seek(10);
    assert_eq!(None, e.next());
}

#[test]
fn next_hands_out_ascending_ids() {
    let mut m = Postings::new_merge(vec![list(&[10, 20]), list(&[5, 20, 30])]);
    let mut prev = None;
    while let Some(v) = m.next() {
        if let Some(p) = prev {
            assert!(p < v);
        }
        prev = Some(v);
    }
    assert_eq!(Some(30), prev);
}

#[test]
fn seek_then_next_is_at_least_target() {
    for x in 0..40u64 {
        let mut m = Postings::new_merge(vec![list(&[10, 20]), list(&[5, 20, 30])]);
        m.seek(x);
        match m.next() {
            Some(v) => assert!(v >= x),
            None => assert!(x > 30),
        }
    }
}

#[test]
fn list_postings_seek_directly() {
    let mut l = tsdb::postings::ListPostings::new(vec![2, 4, 6]);
    l.seek(5);
    assert_eq!(Some(6), l.next());
    assert_eq!(None, l.next());
}
