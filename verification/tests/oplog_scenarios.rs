use std::cmp::Ordering;
use std::collections::HashMap;

use loro_internal::change::Change;
use loro_internal::container::{ContainerID, ContainerType};
use loro_internal::error::LoroError;
use loro_internal::id::ID;
use loro_internal::op::{InnerContent, InnerListOp, Op};
use loro_internal::oplog::{OpLog, RemoteClientChanges};
use loro_internal::rle::RleVec;
use loro_internal::version::{Frontiers, VersionVector};

fn frontiers(ids: &[(u64, i32)]) -> Frontiers {
    Frontiers { ids: ids.iter().map(|(p, c)| ID::new(*p, *c)).collect() }
}

fn sorted_ids(f: &Frontiers) -> Vec<(u64, i32)> {
    let mut v: Vec<(u64, i32)> = f.ids.iter().map(|id| (id.peer, id.counter)).collect();
    v.sort();
    v
}

fn vv_of(entries: &[(u64, i32)]) -> VersionVector {
    let mut vv = VersionVector::new();
    for (p, c) in entries {
        vv.set_end(*p, *c);
    }
    vv
}

fn vv_entries(vv: &VersionVector) -> Vec<(u64, i32)> {
    let mut v: Vec<(u64, i32)> = vv.ends.iter().map(|(p, c)| (*p, *c)).collect();
    v.sort();
    v
}

/// A change of `peer` that inserts `text` into the text container "t".
fn text_change(
    log: &mut OpLog,
    peer: u64,
    counter: i32,
    lamport: u32,
    deps: &[(u64, i32)],
    text: &str,
    timestamp: i64,
) -> Change<Op> {
    let container = log.arena.register_container(&ContainerID::new_root("t", ContainerType::Text));
    let slice = log.arena.alloc_str(text);
    let mut ops = RleVec::new();
    ops.push(Op {
        container,
        counter,
        content: InnerContent::List(InnerListOp::Insert { slice, pos: counter as usize }),
    });
    Change { ops, id: ID::new(peer, counter), deps: frontiers(deps), lamport, timestamp }
}

fn linear_log(second_timestamp: i64) -> OpLog {
    let mut log = OpLog::new();
    let c1 = text_change(&mut log, 1, 0, 0, &[], "abc", 0);
    log.import_local_change(c1).unwrap();
    let c2 = text_change(&mut log, 1, 3, 3, &[(1, 2)], "de", second_timestamp);
    log.import_local_change(c2).unwrap();
    log
}

#[test]
fn linear_single_peer_merges_changes_of_one_timestamp() {
    let log = linear_log(0);
    let nodes = log.dag.map.get(&1).unwrap();
    assert_eq!(nodes.vec().len(), 1);
    assert_eq!(nodes.vec()[0].len, 5);
    assert_eq!(nodes.vec()[0].cnt, 0);
    assert_eq!(nodes.vec()[0].lamport, 0);
    assert_eq!(vv_entries(log.vv()), vec![(1, 5)]);
    assert_eq!(sorted_ids(log.frontiers()), vec![(1, 4)]);
    assert_eq!(log.next_lamport(), 5);
    assert_eq!(log.len_changes(), 1);
    assert_eq!(log.next_id(1), ID::new(1, 5));
    assert_eq!(log.next_id(9), ID::new(9, 0));
}

#[test]
fn linear_single_peer_keeps_changes_of_two_timestamps_apart() {
    let log = linear_log(10);
    let nodes = log.dag.map.get(&1).unwrap();
    assert_eq!(nodes.vec().len(), 1);
    assert_eq!(nodes.vec()[0].len, 5);
    assert_eq!(vv_entries(log.vv()), vec![(1, 5)]);
    assert_eq!(sorted_ids(log.frontiers()), vec![(1, 4)]);
    assert_eq!(log.next_lamport(), 5);
    assert_eq!(log.len_changes(), 2);
    assert_eq!(log.latest_timestamp(), 10);
}

/// Two replicas that fork after `c0` and then exchange their changes.
fn forked_logs() -> (OpLog, OpLog) {
    let mut a = OpLog::new();
    let mut b = OpLog::new();
    let c0 = text_change(&mut a, 1, 0, 0, &[], "x", 0);
    a.import_local_change(c0).unwrap();
    let to_b = a.export_changes_from(b.vv());
    b.import_remote_changes(to_b).unwrap();
    assert_eq!(vv_entries(b.vv()), vec![(1, 1)]);

    let c_b = text_change(&mut b, 2, 0, 1, &[(1, 0)], "b", 5);
    b.import_local_change(c_b).unwrap();
    let c_a = text_change(&mut a, 1, 1, 1, &[(1, 0)], "a", 7);
    a.import_local_change(c_a).unwrap();

    let to_a = b.export_changes_from(a.vv());
    let to_b = a.export_changes_from(b.vv());
    a.import_remote_changes(to_a).unwrap();
    b.import_remote_changes(to_b).unwrap();
    (a, b)
}

#[test]
fn concurrent_fork_and_merge() {
    let (a, b) = forked_logs();
    for log in [&a, &b] {
        assert_eq!(vv_entries(log.vv()), vec![(1, 2), (2, 1)]);
        assert_eq!(sorted_ids(log.frontiers()), vec![(1, 1), (2, 0)]);
        let lca = log.dag.find_common_ancestor(&frontiers(&[(1, 1)]), &frontiers(&[(2, 0)]));
        assert_eq!(sorted_ids(&lca), vec![(1, 0)]);
        assert_eq!(log.next_lamport(), 2);

        let (lca_vv, steps) =
            log.iter_from_lca_causally(&VersionVector::new(), None, log.vv(), None);
        assert_eq!(vv_entries(&lca_vv), vec![]);
        let ids: Vec<(u64, i32)> =
            steps.iter().map(|s| (s.change.id.peer, s.change.id.counter)).collect();
        assert_eq!(ids, vec![(1, 0), (1, 1), (2, 0)]);
        assert_eq!(vv_entries(&steps[0].vv), vec![(1, 0)]);
        assert_eq!(vv_entries(&steps[1].vv), vec![(1, 1)]);
        assert_eq!(vv_entries(&steps[2].vv), vec![(1, 1), (2, 0)]);
    }
}

#[test]
fn walk_from_a_fork_starts_at_the_common_ancestor() {
    let (a, _) = forked_logs();
    let (lca_vv, steps) =
        a.iter_from_lca_causally(&vv_of(&[(1, 2)]), None, &vv_of(&[(1, 1), (2, 1)]), None);
    assert_eq!(vv_entries(&lca_vv), vec![(1, 1)]);
    let ids: Vec<(u64, i32)> =
        steps.iter().map(|s| (s.change.id.peer, s.change.id.counter)).collect();
    assert_eq!(ids, vec![(1, 1), (2, 0)]);
}

#[test]
fn missing_dependency_is_buffered() {
    let mut log = OpLog::new();
    let c = text_change(&mut log, 1, 5, 5, &[(1, 4)], "x", 0);
    match log.import_local_change(c) {
        Err(LoroError::DecodeError(msg)) => assert_eq!(msg, "Missing dep 4@1"),
        other => panic!("unexpected result {:?}", other),
    }
    assert_eq!(log.pending_changes.count(ID::new(1, 4)), 1);
    let waiting = log.pending_changes.get(ID::new(1, 4)).unwrap();
    assert_eq!(waiting[0].id, ID::new(1, 5));
    assert_eq!(log.pending_changes.count(ID::new(1, 5)), 0);
    assert_eq!(vv_entries(log.vv()), vec![]);
    assert!(log.dag.map.is_empty());
    assert!(log.changes.is_empty());
    assert_eq!(log.next_lamport(), 0);
}

#[test]
fn remote_preflight_rejection() {
    let mut source = OpLog::new();
    let local = text_change(&mut source, 1, 3, 0, &[], "x", 0);
    let remote = source.convert_change_to_remote(&local);
    let mut batch: RemoteClientChanges = HashMap::new();
    batch.insert(1, vec![remote]);

    let mut log = OpLog::new();
    match log.import_remote_changes(batch) {
        Err(LoroError::DecodeError(msg)) => assert_eq!(msg, "Changes are not appliable yet"),
        other => panic!("unexpected result {:?}", other),
    }
    assert_eq!(vv_entries(log.vv()), vec![]);
    assert!(log.dag.map.is_empty());
    assert!(log.changes.is_empty());
    assert!(log.is_empty());
    assert_eq!(log.next_lamport(), 0);
}

#[test]
fn truncated_re_import_changes_nothing() {
    let mut log = linear_log(10);
    let batch = log.export_changes_from(&vv_of(&[(1, 0)]));
    assert_eq!(batch.get(&1).unwrap().len(), 2);
    let text_before = log.arena.text.clone();
    log.import_remote_changes(batch).unwrap();
    let nodes = log.dag.map.get(&1).unwrap();
    assert_eq!(nodes.vec().len(), 1);
    assert_eq!(nodes.vec()[0].len, 5);
    assert_eq!(vv_entries(log.vv()), vec![(1, 5)]);
    assert_eq!(sorted_ids(log.frontiers()), vec![(1, 4)]);
    assert_eq!(log.next_lamport(), 5);
    assert_eq!(log.latest_timestamp(), 10);
    assert_eq!(log.len_changes(), 2);
    assert_eq!(log.arena.text, text_before);
}

#[test]
fn importing_an_export_from_the_own_version_changes_nothing() {
    let (mut a, _) = forked_logs();
    let batch = a.export_changes_from(a.vv());
    assert!(batch.is_empty());
    a.import_remote_changes(batch).unwrap();
    assert_eq!(vv_entries(a.vv()), vec![(1, 2), (2, 1)]);
    assert_eq!(sorted_ids(a.frontiers()), vec![(1, 1), (2, 0)]);
    assert_eq!(a.len_changes(), 3);
}

#[test]
fn export_then_import_gives_the_same_version() {
    let (a, _) = forked_logs();
    let mut fresh = OpLog::new();
    fresh.import_remote_changes(a.export_changes_from(&VersionVector::new())).unwrap();
    assert_eq!(vv_entries(fresh.vv()), vv_entries(a.vv()));
    assert_eq!(sorted_ids(fresh.frontiers()), sorted_ids(a.frontiers()));
    assert_eq!(fresh.next_lamport(), a.next_lamport());
    let mut text: Vec<char> = fresh.arena.text.chars().collect();
    text.sort();
    assert_eq!(text, vec!['a', 'b', 'x']);
    let again = fresh.export_changes_from(&VersionVector::new());
    assert_eq!(again.get(&1).unwrap().len(), 2);
    assert_eq!(again.get(&2).unwrap().len(), 1);
}

#[test]
fn reused_id_is_refused() {
    let mut log = linear_log(0);
    let again = text_change(&mut log, 1, 2, 2, &[(1, 1)], "z", 0);
    match log.import_local_change(again) {
        Err(LoroError::UsedOpID { id }) => assert_eq!(id, ID::new(1, 2)),
        other => panic!("unexpected result {:?}", other),
    }
    assert_eq!(vv_entries(log.vv()), vec![(1, 5)]);
    assert_eq!(log.len_changes(), 1);
}

#[test]
fn version_covers_exactly_the_stored_changes() {
    let (a, _) = forked_logs();
    for (peer, end) in vv_entries(a.vv()) {
        let chain = a.get_peer_changes(peer).unwrap();
        assert_eq!(chain.atom_len(), end as usize);
        let mut next = 0;
        for change in chain.vec() {
            assert_eq!(change.id.counter, next);
            next = change.ctr_end();
        }
        assert_eq!(next, end);
    }
}

#[test]
fn dependencies_come_before_their_node() {
    let (a, _) = forked_logs();
    for nodes in a.dag.map.values() {
        for node in nodes.vec() {
            for dep in &node.deps.ids {
                assert!(node.vv.includes_id(*dep));
                assert!(a.dag.get_lamport(*dep) < node.lamport);
            }
        }
    }
}

#[test]
fn next_lamport_is_past_every_operation() {
    let (a, _) = forked_logs();
    for chain in a.changes.values() {
        for change in chain.vec() {
            assert!(a.next_lamport() >= change.lamport_end());
        }
    }
}

#[test]
fn lookup_change_finds_exactly_what_the_version_includes() {
    let log = linear_log(10);
    for counter in 0..5 {
        let id = ID::new(1, counter);
        assert!(log.vv().includes_id(id));
        let change = log.lookup_change(id).unwrap();
        assert!(change.id.counter <= counter);
        assert!(counter < change.ctr_end());
    }
    assert_eq!(log.lookup_change(ID::new(1, 2)).unwrap().id, ID::new(1, 0));
    assert_eq!(log.lookup_change(ID::new(1, 3)).unwrap().id, ID::new(1, 3));
    // one past the end: the atom-index lookup finds the last change, the log does not
    assert!(!log.vv().includes_id(ID::new(1, 5)));
    let chain = log.get_peer_changes(1).unwrap();
    let found = chain.get_by_atom_index(5).unwrap();
    assert_eq!(found.merged_index, 1);
    assert_eq!(found.offset, 2);
    assert!(chain.get_by_atom_index(6).is_none());
    assert!(log.lookup_change(ID::new(1, 5)).is_none());
    assert!(log.lookup_change(ID::new(2, 0)).is_none());
    assert!(log.lookup_change(ID::new(1, -1)).is_none());
    assert_eq!(log.get_change_at(ID::new(1, 5)).unwrap().id, ID::new(1, 3));
    assert!(log.get_change_at(ID::new(1, 6)).is_none());
    assert_eq!(log.get_change_since(ID::new(1, 1)).len(), 2);
    assert_eq!(log.get_change_since(ID::new(1, 4)).len(), 1);
    assert_eq!(log.get_change_since(ID::new(3, 0)).len(), 0);
    assert_eq!(log.lookup_op(ID::new(1, 4)).unwrap().counter, 3);
    assert!(log.lookup_op(ID::new(1, 5)).is_none());
}

#[test]
fn empty_frontiers_have_next_lamport_zero() {
    let log = linear_log(0);
    assert_eq!(log.dag.frontiers_to_next_lamport(&Frontiers::new()), 0);
    assert_eq!(log.dag.frontiers_to_next_lamport(&frontiers(&[(1, 1)])), 2);
    assert_eq!(log.dag.frontiers_to_next_lamport(&frontiers(&[(1, 4)])), 5);
    let empty = OpLog::new();
    assert_eq!(empty.dag.frontiers_to_next_lamport(&Frontiers::new()), 0);
}

#[test]
fn frontiers_are_the_heads_of_the_version() {
    let (a, _) = forked_logs();
    let heads = a.dag.vv_to_frontiers(a.vv());
    assert_eq!(sorted_ids(&heads), sorted_ids(a.frontiers()));
    let earlier = a.dag.vv_to_frontiers(&vv_of(&[(1, 1), (2, 1)]));
    assert_eq!(sorted_ids(&earlier), vec![(2, 0)]);
    assert_eq!(vv_entries(&a.dag.frontiers_to_im_vv(&frontiers(&[(2, 0)])).to_vv()), vec![(1, 1), (2, 1)]);
    assert!(a.dag.frontiers_to_vv(&frontiers(&[(2, 5)])).is_none());
}

#[test]
fn frontiers_compare_as_equal_greater_or_less() {
    let (a, _) = forked_logs();
    assert_eq!(a.cmp_frontiers(&frontiers(&[(2, 0), (1, 1)])), Ordering::Equal);
    assert_eq!(a.cmp_frontiers(&frontiers(&[(1, 0)])), Ordering::Greater);
    assert_eq!(a.cmp_frontiers(&frontiers(&[(1, 5)])), Ordering::Less);
    assert_eq!(a.cmp_frontiers(&frontiers(&[(3, 0)])), Ordering::Less);
}

#[test]
fn scan_between_versions_visits_the_changes_in_between() {
    let log = linear_log(10);
    let count = |a: &[(u64, i32)], b: &[(u64, i32)]| {
        log.for_each_change_within(&vv_of(a), &vv_of(b)).len()
    };
    assert_eq!(count(&[], &[(1, 5)]), 2);
    assert_eq!(count(&[(1, 5)], &[]), 2);
    assert_eq!(count(&[(1, 3)], &[(1, 5)]), 1);
    assert_eq!(count(&[(1, 1)], &[(1, 2)]), 1);
    assert_eq!(count(&[(1, 2)], &[(1, 4)]), 2);
    assert_eq!(count(&[(1, 5)], &[(1, 5)]), 0);
    assert_eq!(count(&[(1, 5)], &[(1, 9)]), 0);
    assert_eq!(count(&[(2, 0)], &[(2, 3)]), 0);
}

#[test]
fn timestamp_of_a_version_is_the_latest_of_its_changes() {
    let log = linear_log(10);
    assert_eq!(log.get_timestamp_of_version(&frontiers(&[(1, 1)])), 0);
    assert_eq!(log.get_timestamp_of_version(&frontiers(&[(1, 4)])), 10);
    assert_eq!(log.get_timestamp_of_version(&frontiers(&[(1, 1), (1, 4)])), 10);
    assert_eq!(log.get_timestamp_of_version(&frontiers(&[(7, 0)])), 0);
    assert_eq!(log.get_timestamp_of_version(&Frontiers::new()), 0);
}

#[test]
fn exported_changes_carry_their_text() {
    let log = linear_log(10);
    let batch = log.export_changes_from(&vv_of(&[(1, 3)]));
    let changes = batch.get(&1).unwrap();
    assert_eq!(changes.len(), 1);
    assert_eq!(changes[0].id, ID::new(1, 3));
    assert_eq!(changes[0].lamport, 3);
    assert_eq!(changes[0].deps.ids, vec![ID::new(1, 2)]);
    let op = &changes[0].ops.vec()[0];
    assert_eq!(op.container.to_string(), "/t:Text");
    match &op.content {
        loro_internal::op::RawOpContent::List(loro_internal::op::ListOp::Insert {
            slice: loro_internal::op::ListSlice::RawStr { str, unicode_len },
            pos,
        }) => {
            assert_eq!(str, "de");
            assert_eq!(*unicode_len, 2);
            assert_eq!(*pos, 3);
        }
        other => panic!("unexpected content {:?}", other),
    }
}

#[test]
fn pending_has_an_entry_for_the_missing_dependency_alone() {
    let mut log = OpLog::new();
    let c = text_change(&mut log, 1, 5, 5, &[(1, 4)], "x", 0);
    assert!(log.import_local_change(c).is_err());
    assert_eq!(log.pending_changes.entries.len(), 1);
    assert_eq!(log.pending_changes.entries[0].missing, ID::new(1, 4));
    assert_eq!(log.pending_changes.entries[0].changes.len(), 1);
    assert!(log.pending_changes.get(ID::new(1, 5)).is_none());
    // a second change that waits for the same operation joins the first
    let c = text_change(&mut log, 2, 0, 5, &[(1, 4)], "y", 0);
    assert!(log.import_local_change(c).is_err());
    assert_eq!(log.pending_changes.entries.len(), 1);
    assert_eq!(log.pending_changes.count(ID::new(1, 4)), 2);
    assert_eq!(log.pending_changes.get(ID::new(1, 4)).unwrap()[1].id, ID::new(2, 0));
    // one that waits for another operation gets an entry of its own
    let c = text_change(&mut log, 3, 0, 1, &[(2, 0)], "z", 0);
    assert!(log.import_local_change(c).is_err());
    assert_eq!(log.pending_changes.entries.len(), 2);
    assert_eq!(log.pending_changes.count(ID::new(1, 4)), 2);
    assert_eq!(log.pending_changes.count(ID::new(2, 0)), 1);
}

/// Three peers; the changes of a peer have different timestamps, so that
/// each is stored by itself.
fn woven_log() -> OpLog {
    let mut log = OpLog::new();
    let steps: [(u64, i32, u32, &[(u64, i32)], &str); 6] = [
        (1, 0, 0, &[], "ab"),
        (2, 0, 2, &[(1, 1)], "c"),
        (1, 2, 3, &[(1, 1), (2, 0)], "def"),
        (3, 0, 0, &[], "g"),
        (2, 1, 6, &[(1, 4), (2, 0), (3, 0)], "hi"),
        (1, 5, 8, &[(1, 4), (2, 2)], "j"),
    ];
    for (n, (peer, counter, lamport, deps, text)) in steps.iter().enumerate() {
        let c = text_change(&mut log, *peer, *counter, *lamport, deps, text, n as i64);
        log.try_import_local_change(c).unwrap();
    }
    assert_eq!(vv_entries(log.vv()), vec![(1, 6), (2, 3), (3, 1)]);
    log
}

#[test]
fn scan_between_versions_lists_a_peer_by_rising_counters() {
    let log = woven_log();
    let found = log.for_each_change_within(&vv_of(&[(1, 1), (2, 3)]), &vv_of(&[(1, 6), (3, 1)]));
    let of = |peer: u64| -> Vec<i32> {
        found.iter().filter(|c| c.id.peer == peer).map(|c| c.id.counter).collect()
    };
    assert_eq!(of(1), vec![0, 2, 5]);
    assert_eq!(of(2), vec![0, 1]);
    assert_eq!(of(3), vec![0]);
    assert_eq!(found.len(), 6);
    // the changes of a peer stand together
    let mut peers: Vec<u64> = found.iter().map(|c| c.id.peer).collect();
    peers.dedup();
    assert_eq!(peers.len(), 3);
    // the other way round the same changes are listed
    let back = log.for_each_change_within(&vv_of(&[(1, 6), (3, 1)]), &vv_of(&[(1, 1), (2, 3)]));
    let ids = |v: &Vec<&loro_internal::change::Change<loro_internal::op::Op>>| -> Vec<(u64, i32)> {
        let mut ids: Vec<(u64, i32)> = v.iter().map(|c| (c.id.peer, c.id.counter)).collect();
        ids.sort();
        ids
    };
    assert_eq!(ids(&found), ids(&back));
}

#[test]
fn walk_meets_a_change_after_what_it_depends_on() {
    let log = woven_log();
    let (lca_vv, steps) =
        log.iter_from_lca_causally(&vv_of(&[(1, 2)]), None, log.vv(), None);
    assert_eq!(vv_entries(&lca_vv), vec![(1, 2)]);
    let ids: Vec<(u64, i32)> =
        steps.iter().map(|s| (s.change.id.peer, s.change.id.counter)).collect();
    assert_eq!(ids, vec![(3, 0), (2, 0), (1, 2), (2, 1), (1, 5)]);
    assert_eq!(vv_entries(&steps[3].vv), vec![(1, 5), (2, 1), (3, 1)]);
    for (k, step) in steps.iter().enumerate() {
        let c = step.change;
        assert_eq!(step.vv.get_end(c.id.peer), c.id.counter);
        for dep in c.deps.ids.iter() {
            assert!(step.vv.includes_id(*dep));
            let earlier = steps[..k].iter().any(|s| {
                s.change.id.peer == dep.peer
                    && s.change.id.counter <= dep.counter
                    && dep.counter < s.change.ctr_end()
            });
            assert!(lca_vv.includes_id(*dep) || earlier);
        }
    }
}

#[test]
fn export_from_inside_a_change_brings_a_log_up_to_date() {
    let source = woven_log();
    // a log that holds the first operation of the first change of peer 1
    let mut target = OpLog::new();
    let c = text_change(&mut target, 1, 0, 0, &[], "a", 0);
    target.import_local_change(c).unwrap();
    let from = vv_of(&[(1, 1)]);
    let batch = source.export_changes_from(&from);
    assert_eq!(batch.get(&1).unwrap()[0].id, ID::new(1, 0));
    target.try_import_remote_changes(batch).unwrap();
    assert_eq!(vv_entries(target.vv()), vv_entries(source.vv()));
    assert_eq!(sorted_ids(target.frontiers()), sorted_ids(source.frontiers()));
    assert_eq!(target.next_lamport(), source.next_lamport());
    assert_eq!(target.next_lamport(), 9);
    // the operations of peer 1 lie in changes without a gap
    let chain = target.get_peer_changes(1).unwrap();
    assert_eq!(chain.atom_len(), 6);
    let mut next = 0;
    for change in chain.vec() {
        assert_eq!(change.id.counter, next);
        next = change.ctr_end();
    }
    assert_eq!(next, 6);
    // and what both logs export is the same text
    let text_of = |log: &OpLog| -> String {
        let mut all = log.export_changes_from(&VersionVector::new());
        let mut text = String::new();
        for change in all.remove(&1).unwrap() {
            for op in change.ops.vec() {
                match &op.content {
                    loro_internal::op::RawOpContent::List(loro_internal::op::ListOp::Insert {
                        slice: loro_internal::op::ListSlice::RawStr { str, .. },
                        ..
                    }) => text.push_str(str),
                    other => panic!("unexpected content {:?}", other),
                }
            }
        }
        text
    };
    assert_eq!(text_of(&target), "abdefj");
    assert_eq!(text_of(&source), "abdefj");
    // once more: nothing is new
    let again = source.export_changes_from(&from);
    target.try_import_remote_changes(again).unwrap();
    assert_eq!(vv_entries(target.vv()), vv_entries(source.vv()));
    assert_eq!(target.get_peer_changes(1).unwrap().atom_len(), 6);
}
