use loro_internal::id::{CounterSpan, IdSpan, ID};
use loro_internal::shared_vv::ImVersionVector;
use loro_internal::version::{Frontiers, VersionVector};

fn vv_of(entries: &[(u64, i32)]) -> VersionVector {
    let mut vv = VersionVector::new();
    for (p, c) in entries {
        vv.set_end(*p, *c);
    }
    vv
}

fn entries(vv: &VersionVector) -> Vec<(u64, i32)> {
    let mut v: Vec<(u64, i32)> = vv.ends.iter().map(|(p, c)| (*p, *c)).collect();
    v.sort();
    v
}

#[test]
fn version_vector_includes_what_lies_below_the_end() {
    let mut vv = VersionVector::new();
    assert!(vv.is_empty());
    assert!(!vv.includes_id(ID::new(1, 0)));
    vv.extend_to_include_last_id(ID::new(1, 2));
    assert_eq!(vv.get_end(1), 3);
    assert_eq!(vv.get(&1), Some(&3));
    assert_eq!(vv.get(&2), None);
    assert!(vv.includes_id(ID::new(1, 2)));
    assert!(!vv.includes_id(ID::new(1, 3)));
    vv.extend_to_include_last_id(ID::new(1, 0));
    assert_eq!(vv.get_end(1), 3);
    vv.extend_to_include_end_id(ID::new(1, 7));
    assert_eq!(vv.get_end(1), 7);
    vv.extend_to_include_end_id(ID::new(1, 5));
    assert_eq!(vv.get_end(1), 7);
    assert_eq!(vv.len(), 1);
}

#[test]
fn merge_takes_the_larger_end_and_meet_the_smaller() {
    let a = vv_of(&[(1, 3), (2, 5)]);
    let b = vv_of(&[(2, 7), (3, 1), (1, 2)]);
    let mut m = a.clone_vv();
    m.merge(&b);
    assert_eq!(entries(&m), vec![(1, 3), (2, 7), (3, 1)]);
    assert_eq!(entries(&a.meet(&b)), vec![(1, 2), (2, 5)]);
    assert!(m.eq_vv(&vv_of(&[(3, 1), (2, 7), (1, 3)])));
    assert!(!m.eq_vv(&a));
    assert!(vv_of(&[(1, 0)]).eq_vv(&VersionVector::new()));
}

#[test]
fn diff_gives_what_each_side_lacks() {
    let a = vv_of(&[(1, 3), (2, 5), (4, 2)]);
    let b = vv_of(&[(2, 7), (3, 1), (1, 3)]);
    let d = a.diff(&b);
    let mut left: Vec<(u64, i32, i32)> = d.left.iter().map(|(p, s)| (*p, s.start, s.end)).collect();
    let mut right: Vec<(u64, i32, i32)> =
        d.right.iter().map(|(p, s)| (*p, s.start, s.end)).collect();
    left.sort();
    right.sort();
    assert_eq!(left, vec![(4, 0, 2)]);
    assert_eq!(right, vec![(2, 5, 7), (3, 0, 1)]);
}

#[test]
fn frontiers_hold_each_id_once() {
    let mut f = Frontiers::new();
    assert!(f.is_empty());
    f.push(ID::new(1, 2));
    f.push(ID::new(2, 0));
    f.push(ID::new(1, 2));
    assert_eq!(f.len(), 2);
    assert!(f.contains(ID::new(2, 0)));
    assert!(!f.contains(ID::new(2, 1)));
    assert_eq!(f.get(1), ID::new(2, 0));

    let mut g = f.clone_frontiers();
    g.retain_non_included(&Frontiers::from_id(ID::new(2, 0)));
    assert_eq!(g.ids, vec![ID::new(1, 2)]);
    g.push(ID::new(3, 3));
    g.push(ID::new(1, 9));
    g.filter_peer(1);
    assert_eq!(g.ids, vec![ID::new(3, 3)]);

    let h = Frontiers { ids: vec![ID::new(2, 0), ID::new(1, 2)] };
    assert!(f.eq_set(&h));
    assert!(!f.eq_set(&g));
    assert!(g.subset_of(&Frontiers { ids: vec![ID::new(3, 3), ID::new(1, 1)] }));
}

#[test]
fn spans_cover_half_open_ranges() {
    let s = CounterSpan::new(2, 5);
    assert_eq!(s.content_len(), 3);
    assert!(s.contains(2) && s.contains(4) && !s.contains(5) && !s.contains(1));
    assert_eq!(CounterSpan::new(5, 2).content_len(), 0);
    let span = IdSpan::new(7, 0, 2);
    assert!(span.contains_id(ID::new(7, 1)));
    assert!(!span.contains_id(ID::new(8, 1)));
    assert!(!span.contains_id(ID::new(7, 2)));
    assert_eq!(ID::new(7, 1).inc(4), ID::new(7, 5));
    assert_eq!(ID::new(42, 7).to_string(), "7@42");
    assert_eq!(ID::new(0, -3).to_string(), "-3@0");
    assert_eq!(ID::new(u64::MAX, i32::MIN).to_string(), "-2147483648@18446744073709551615");
}

#[test]
fn shared_version_is_copied_where_it_is_changed() {
    let mut a = ImVersionVector::new();
    assert_eq!(a.get(1), None);
    assert_eq!(a.get_end(1), 0);
    a.set_end(1, 3);
    a.set_end(2, 5);
    assert_eq!(a.get(1), Some(3));
    assert!(a.includes_id(ID::new(2, 4)));
    assert!(!a.includes_id(ID::new(2, 5)));
    assert!(!a.includes_id(ID::new(3, 0)));
    let mut b = a.clone_im();
    assert_eq!(entries(&b.to_vv()), vec![(1, 3), (2, 5)]);
    b.set_end(1, 7);
    b.extend_to_include_last_id(ID::new(3, 0));
    b.extend_to_include_last_id(ID::new(2, 1));
    assert_eq!(entries(&b.to_vv()), vec![(1, 7), (2, 5), (3, 1)]);
    // the copy changed, what it was copied from did not
    assert_eq!(entries(&a.to_vv()), vec![(1, 3), (2, 5)]);
    let mut peers = b.peers();
    peers.sort();
    assert_eq!(peers, vec![1, 2, 3]);
}

#[test]
fn shared_versions_merge_entry_by_entry() {
    let mut a = ImVersionVector::from_vv(&vv_of(&[(1, 3), (2, 5)]));
    let b = ImVersionVector::from_vv(&vv_of(&[(2, 2), (3, 4), (1, 6)]));
    a.merge(&b);
    assert_eq!(entries(&a.to_vv()), vec![(1, 6), (2, 5), (3, 4)]);
    assert_eq!(entries(&b.to_vv()), vec![(1, 6), (2, 2), (3, 4)]);
    let mut none = ImVersionVector::new();
    none.merge(&b);
    assert_eq!(entries(&none.to_vv()), vec![(1, 6), (2, 2), (3, 4)]);
    assert!(ImVersionVector::from_vv(&VersionVector::new()).peers().is_empty());
}
