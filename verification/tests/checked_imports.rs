use std::collections::HashMap;

use loro_internal::change::Change;
use loro_internal::container::{ContainerID, ContainerType};
use loro_internal::error::LoroError;
use loro_internal::id::{CounterSpan, ID};
use loro_internal::op::{InnerContent, InnerListOp, Op, SliceRange};
use loro_internal::oplog::{OpLog, RemoteClientChanges};
use loro_internal::rle::{Rle, RleVec};
use loro_internal::validate::{check_batch, check_cuts};
use loro_internal::version::{Frontiers, VersionVector};

fn frontiers(ids: &[(u64, i32)]) -> Frontiers {
    Frontiers { ids: ids.iter().map(|(p, c)| ID::new(*p, *c)).collect() }
}

fn vv_entries(vv: &VersionVector) -> Vec<(u64, i32)> {
    let mut v: Vec<(u64, i32)> = vv.ends.iter().map(|(p, c)| (*p, *c)).collect();
    v.sort();
    v
}

fn text_change(
    log: &mut OpLog,
    peer: u64,
    counter: i32,
    lamport: u32,
    deps: &[(u64, i32)],
    text: &str,
    timestamp: i64,
) -> Change<Op> {
    let container = log.arena.register_container(&ContainerID::new_root("t", ContainerType::Text));
    let slice = log.arena.alloc_str(text);
    let mut ops = RleVec::new();
    ops.push(Op {
        container,
        counter,
        content: InnerContent::List(InnerListOp::Insert { slice, pos: 0 }),
    });
    Change { ops, id: ID::new(peer, counter), deps: frontiers(deps), lamport, timestamp }
}

/// Peer 1 writes "abc" and "de"; peer 2 writes "xy" on top of the first of them.
fn two_peer_log() -> OpLog {
    let mut log = OpLog::new();
    let c = text_change(&mut log, 1, 0, 0, &[], "abc", 1);
    log.try_import_local_change(c).unwrap();
    let c = text_change(&mut log, 2, 0, 3, &[(1, 2)], "xy", 2);
    log.try_import_local_change(c).unwrap();
    let c = text_change(&mut log, 1, 3, 3, &[(1, 2)], "de", 3);
    log.try_import_local_change(c).unwrap();
    log
}

#[test]
fn checked_import_takes_in_what_follows() {
    let log = two_peer_log();
    assert_eq!(vv_entries(log.vv()), vec![(1, 5), (2, 2)]);
    let mut heads: Vec<(u64, i32)> =
        log.frontiers().ids.iter().map(|id| (id.peer, id.counter)).collect();
    heads.sort();
    assert_eq!(heads, vec![(1, 4), (2, 1)]);
    assert_eq!(log.next_lamport(), 5);
    assert_eq!(log.latest_timestamp(), 3);
    assert_eq!(log.len_changes(), 3);
}

#[test]
fn checked_import_refuses_what_does_not_follow() {
    let mut log = two_peer_log();
    // a gap in the counters of the peer
    let gap = text_change(&mut log, 1, 7, 5, &[(1, 4)], "z", 0);
    assert!(log.check_admits(&gap) == false);
    assert!(matches!(log.try_import_local_change(gap), Err(LoroError::DecodeError(_))));
    // a Lamport clock that is not the one after the dependencies
    let clock = text_change(&mut log, 1, 5, 9, &[(1, 4)], "z", 0);
    assert!(matches!(log.try_import_local_change(clock), Err(LoroError::DecodeError(_))));
    // dependencies that leave out what the peer did before
    let forgetful = text_change(&mut log, 1, 5, 5, &[(2, 1)], "z", 0);
    assert!(matches!(log.try_import_local_change(forgetful), Err(LoroError::DecodeError(_))));
    // a change without operations
    let empty = Change {
        ops: RleVec::new(),
        id: ID::new(1, 5),
        deps: frontiers(&[(1, 4)]),
        lamport: 5,
        timestamp: 0,
    };
    assert!(!empty.is_valid());
    assert!(matches!(log.try_import_local_change(empty), Err(LoroError::DecodeError(_))));
    assert_eq!(vv_entries(log.vv()), vec![(1, 5), (2, 2)]);
    assert_eq!(log.len_changes(), 3);
    // what follows is taken in
    let good = text_change(&mut log, 1, 5, 5, &[(1, 4), (2, 1)], "z", 0);
    assert!(good.is_valid());
    assert!(log.check_admits(&good));
    log.try_import_local_change(good).unwrap();
    assert_eq!(vv_entries(log.vv()), vec![(1, 6), (2, 2)]);
    assert_eq!(log.frontiers().ids, vec![ID::new(1, 5)]);
    assert_eq!(log.dag.map.get(&1).unwrap().merged_len(), 2);
}

#[test]
fn pending_changes_can_be_taken_out_and_imported() {
    let mut log = OpLog::new();
    let late = text_change(&mut log, 1, 3, 3, &[(1, 2)], "de", 0);
    assert!(log.try_import_local_change(late).is_err());
    assert_eq!(log.pending_changes.count(ID::new(1, 2)), 1);
    let early = text_change(&mut log, 1, 0, 0, &[], "abc", 0);
    log.try_import_local_change(early).unwrap();
    assert!(log.has_all_deps(&frontiers(&[(1, 2)])));
    assert!(!log.has_all_deps(&frontiers(&[(1, 2), (1, 3)])));
    let waiting = log.take_pending(ID::new(1, 2));
    assert_eq!(waiting.len(), 1);
    assert!(log.pending_changes.is_empty());
    assert!(log.take_pending(ID::new(1, 2)).is_empty());
    for change in waiting {
        log.try_import_local_change(change).unwrap();
    }
    assert_eq!(vv_entries(log.vv()), vec![(1, 5)]);
}

#[test]
fn a_copy_keeps_the_history_and_starts_a_new_arena() {
    let log = two_peer_log();
    let copy = log.clone();
    assert_eq!(vv_entries(copy.vv()), vv_entries(log.vv()));
    assert_eq!(copy.frontiers().ids, log.frontiers().ids);
    assert_eq!(copy.next_lamport(), log.next_lamport());
    assert_eq!(copy.latest_timestamp(), log.latest_timestamp());
    assert_eq!(copy.len_changes(), 3);
    assert_eq!(copy.lookup_change(ID::new(1, 4)).unwrap().id, ID::new(1, 3));
    assert_eq!(copy.dag.get_lamport(ID::new(2, 1)), 4);
    assert!(copy.arena.is_empty());
    assert!(!log.arena.is_empty());
    assert!(copy.pending_changes.is_empty());
    assert!(!copy.is_empty());
    assert!(OpLog::default().is_empty());
}

#[test]
fn size_report_counts_changes_and_operations() {
    let log = two_peer_log();
    let report = log.size_report();
    assert_eq!(report.total_changes, 3);
    assert_eq!(report.total_ops, 3);
    assert_eq!(report.total_atom_ops, 7);
    assert_eq!(report.total_dag_node, 2);
    let empty = OpLog::new().size_report();
    assert_eq!(
        (empty.total_changes, empty.total_ops, empty.total_atom_ops, empty.total_dag_node),
        (0, 0, 0, 0)
    );
}

#[test]
fn batches_are_tested_before_import() {
    let log = two_peer_log();
    let all = log.export_changes_from(&VersionVector::new());
    assert!(check_batch(&all));

    // changes under the wrong peer
    let mut wrong: RemoteClientChanges = HashMap::new();
    for (peer, changes) in log.export_changes_from(&VersionVector::new()) {
        wrong.insert(peer + 1, changes);
    }
    assert!(!check_batch(&wrong));

    // a gap between the changes of a peer
    let mut gap: RemoteClientChanges = HashMap::new();
    let mut of_one = log.export_changes_from(&VersionVector::new()).remove(&1).unwrap();
    of_one[1].id = ID::new(1, 4);
    gap.insert(1, of_one);
    assert!(!check_batch(&gap));

    // a position that leaves its range
    let mut range: RemoteClientChanges = HashMap::new();
    let mut of_one = log.export_changes_from(&VersionVector::new()).remove(&1).unwrap();
    match &mut of_one[0].ops.vec[0].content {
        loro_internal::op::RawOpContent::List(loro_internal::op::ListOp::Insert { pos, .. }) => {
            *pos = usize::MAX - 1
        }
        _ => panic!("unexpected content"),
    }
    range.insert(1, of_one);
    assert!(check_batch(&range));
    // it matters only where the change has to be cut
    assert!(check_cuts(&VersionVector::new(), &range));
    let mut inside = VersionVector::new();
    inside.set_end(1, 1);
    assert!(!check_cuts(&inside, &range));
    inside.set_end(1, 3);
    assert!(check_cuts(&inside, &range));
    assert!(check_cuts(&inside, &log.export_changes_from(&VersionVector::new())));
    let mut held_in_part = OpLog::new();
    let c = text_change(&mut held_in_part, 1, 0, 0, &[], "a", 1);
    held_in_part.try_import_local_change(c).unwrap();
    match held_in_part.try_import_remote_changes(range) {
        Err(LoroError::DecodeError(msg)) => assert_eq!(msg, "A position is out of range"),
        other => panic!("unexpected result {:?}", other),
    }
    assert_eq!(vv_entries(held_in_part.vv()), vec![(1, 1)]);
}

#[test]
fn checked_remote_import_takes_in_what_can_be_replayed() {
    let log = two_peer_log();
    let mut fresh = OpLog::new();
    fresh.try_import_remote_changes(log.export_changes_from(&VersionVector::new())).unwrap();
    assert_eq!(vv_entries(fresh.vv()), vec![(1, 5), (2, 2)]);
    assert_eq!(fresh.len_changes(), 3);
    assert_eq!(fresh.next_lamport(), 5);
    // again: every change is left out
    fresh.try_import_remote_changes(log.export_changes_from(&VersionVector::new())).unwrap();
    assert_eq!(vv_entries(fresh.vv()), vec![(1, 5), (2, 2)]);
    assert_eq!(fresh.len_changes(), 3);
}

#[test]
fn checked_remote_import_refuses_what_cannot_be_replayed() {
    let log = two_peer_log();
    // the changes of peer 2 alone lack what they depend on
    let mut only_two: RemoteClientChanges = HashMap::new();
    let of_two = log.export_changes_from(&VersionVector::new()).remove(&2).unwrap();
    only_two.insert(2, of_two);
    let mut fresh = OpLog::new();
    match fresh.try_import_remote_changes(only_two) {
        Err(LoroError::DecodeError(msg)) => {
            assert_eq!(msg, "The changes do not follow on what the log holds")
        }
        other => panic!("unexpected result {:?}", other),
    }
    assert!(fresh.is_empty());
    assert_eq!(vv_entries(fresh.vv()), vec![]);

    // a batch that starts after what the log holds
    let mut later = VersionVector::new();
    later.set_end(1, 3);
    match fresh.try_import_remote_changes(log.export_changes_from(&later)) {
        Err(LoroError::DecodeError(msg)) => assert_eq!(msg, "Changes are not appliable yet"),
        other => panic!("unexpected result {:?}", other),
    }

    // a batch that is not well formed
    let mut wrong: RemoteClientChanges = HashMap::new();
    for (peer, changes) in log.export_changes_from(&VersionVector::new()) {
        wrong.insert(peer + 2, changes);
    }
    match fresh.try_import_remote_changes(wrong) {
        Err(LoroError::DecodeError(msg)) => assert_eq!(msg, "The batch is not well formed"),
        other => panic!("unexpected result {:?}", other),
    }

    // a Lamport clock that does not follow from the dependencies
    let mut clock: RemoteClientChanges = HashMap::new();
    let mut of_one = log.export_changes_from(&VersionVector::new()).remove(&1).unwrap();
    of_one[0].lamport = 4;
    clock.insert(1, of_one);
    assert!(fresh.try_import_remote_changes(clock).is_err());
    assert!(fresh.is_empty());
    assert!(fresh.dag.check_admits(ID::new(1, 0), 0, &Frontiers::new(), 3));
    assert!(!fresh.dag.check_admits(ID::new(1, 0), 1, &Frontiers::new(), 3));
    assert!(!fresh.dag.check_admits(ID::new(1, 1), 0, &Frontiers::new(), 3));
    assert!(!fresh.dag.check_admits(ID::new(1, 0), 0, &Frontiers::new(), 0));
}

#[test]
fn graph_is_walked_node_by_node_in_replay_order() {
    let log = two_peer_log();
    let mut spans = HashMap::new();
    spans.insert(1, CounterSpan::new(1, 5));
    spans.insert(2, CounterSpan::new(0, 1));
    let pieces = log.dag.iter_causal(&spans);
    let seen: Vec<(u64, i32, usize, u32)> =
        pieces.iter().map(|n| (n.peer, n.cnt, n.len, n.lamport)).collect();
    assert_eq!(seen, vec![(1, 1, 4, 1), (2, 0, 1, 3)]);
    assert_eq!(pieces[0].deps.ids, vec![ID::new(1, 0)]);
    assert_eq!(pieces[0].vv.get_end(1), 1);
    assert_eq!(pieces[1].deps.ids, vec![ID::new(1, 2)]);
    assert_eq!(pieces[1].vv.get_end(1), 3);

    spans.insert(1, CounterSpan::new(3, 3));
    spans.insert(2, CounterSpan::new(1, 2));
    let pieces = log.dag.iter_causal(&spans);
    let seen: Vec<(u64, i32, usize, u32)> =
        pieces.iter().map(|n| (n.peer, n.cnt, n.len, n.lamport)).collect();
    assert_eq!(seen, vec![(2, 1, 1, 4)]);
    assert!(log.dag.contains(ID::new(2, 1)));
    assert!(!log.dag.contains(ID::new(2, 2)));
    assert_eq!(log.dag.get_node(ID::new(1, 4)).cnt, 0);
    let at = log.dag.get_version_at(ID::new(2, 0));
    assert_eq!(vv_entries(&at), vec![(1, 3), (2, 1)]);
}

#[test]
fn stored_items_can_be_tested_for_validity() {
    let mut v: RleVec<Op> = RleVec::new();
    v.push(Op {
        container: 0,
        counter: 0,
        content: InnerContent::List(InnerListOp::Insert {
            slice: SliceRange { start: 0, end: 3 },
            pos: 0,
        }),
    });
    assert!(v.is_valid());
    v.ends[0] = 4;
    assert!(!v.is_valid());
    v.ends[0] = 3;
    v.vec[0].counter = -1;
    assert!(!v.is_valid());
    assert!(frontiers(&[(1, 0), (2, 0)]).has_no_duplicates());
    assert!(!frontiers(&[(1, 0), (2, 0), (1, 0)]).has_no_duplicates());
}

/// Peer 1 writes "abc" and "de" at one timestamp, so that the log stores one change.
fn merged_log() -> OpLog {
    let mut log = OpLog::new();
    let c = text_change(&mut log, 1, 0, 0, &[], "abc", 0);
    log.try_import_local_change(c).unwrap();
    let c = text_change(&mut log, 1, 3, 3, &[(1, 2)], "de", 0);
    log.try_import_local_change(c).unwrap();
    assert_eq!(log.len_changes(), 1);
    log
}

#[test]
fn import_takes_the_part_of_a_change_that_the_log_lacks() {
    let source = merged_log();
    // a log that holds the first three operations
    let mut target = OpLog::new();
    let c = text_change(&mut target, 1, 0, 0, &[], "abc", 0);
    target.import_local_change(c).unwrap();
    let mut from = VersionVector::new();
    from.set_end(1, 3);
    let batch = source.export_changes_from(&from);
    assert_eq!(batch.get(&1).unwrap().len(), 1);
    assert_eq!(batch.get(&1).unwrap()[0].id, ID::new(1, 0));
    assert!(check_batch(&batch));
    target.import_remote_changes(batch).unwrap();
    assert_eq!(vv_entries(target.vv()), vec![(1, 5)]);
    assert_eq!(target.frontiers().ids, vec![ID::new(1, 4)]);
    assert_eq!(target.next_lamport(), 5);
    let chain = target.get_peer_changes(1).unwrap();
    assert_eq!(chain.atom_len(), 5);
    assert_eq!(target.dag.map.get(&1).unwrap().merged_len(), 1);
    assert_eq!(target.dag.map.get(&1).unwrap().vec()[0].len, 5);
    // the text of the part that was taken is in the arena
    let again = target.export_changes_from(&from);
    let mut text = String::new();
    for change in again.get(&1).unwrap() {
        for op in change.ops.vec() {
            match &op.content {
                loro_internal::op::RawOpContent::List(loro_internal::op::ListOp::Insert {
                    slice: loro_internal::op::ListSlice::RawStr { str, .. },
                    ..
                }) => text.push_str(str),
                other => panic!("unexpected content {:?}", other),
            }
        }
    }
    assert_eq!(text, "abcde");

    // the tested import does the same, from a version inside the part "de"
    let mut target = OpLog::new();
    let c = text_change(&mut target, 1, 0, 0, &[], "abcd", 0);
    target.import_local_change(c).unwrap();
    let mut from = VersionVector::new();
    from.set_end(1, 4);
    target.try_import_remote_changes(source.export_changes_from(&from)).unwrap();
    assert_eq!(vv_entries(target.vv()), vec![(1, 5)]);
    assert_eq!(target.lookup_change(ID::new(1, 4)).unwrap().ctr_end(), 5);
}

#[test]
fn tail_of_an_exchanged_change() {
    let source = merged_log();
    let batch = source.export_changes_from(&VersionVector::new());
    let whole = &batch.get(&1).unwrap()[0];
    assert_eq!(whole.content_len(), 5);
    let tail = whole.tail(2);
    assert_eq!(tail.id, ID::new(1, 2));
    assert_eq!(tail.lamport, 2);
    assert_eq!(tail.deps.ids, vec![ID::new(1, 1)]);
    assert_eq!(tail.content_len(), 3);
    assert_eq!(tail.timestamp, whole.timestamp);
    let mut text = String::new();
    let mut counters = Vec::new();
    for op in tail.ops.vec() {
        counters.push(op.counter);
        match &op.content {
            loro_internal::op::RawOpContent::List(loro_internal::op::ListOp::Insert {
                slice: loro_internal::op::ListSlice::RawStr { str, unicode_len },
                ..
            }) => {
                assert_eq!(str.chars().count(), *unicode_len);
                text.push_str(str)
            }
            other => panic!("unexpected content {:?}", other),
        }
    }
    assert_eq!(text, "cde");
    assert_eq!(counters[0], 2);
}

#[test]
fn checked_import_says_why_it_refuses() {
    let mut log = two_peer_log();
    let clock = text_change(&mut log, 1, 5, 9, &[(1, 4)], "z", 0);
    match log.try_import_local_change(clock) {
        Err(LoroError::DecodeError(msg)) => {
            assert_eq!(msg, "The change does not follow on what the log holds")
        }
        other => panic!("unexpected result {:?}", other),
    }
    let empty = Change {
        ops: RleVec::new(),
        id: ID::new(1, 5),
        deps: frontiers(&[(1, 4)]),
        lamport: 5,
        timestamp: 0,
    };
    match log.try_import_local_change(empty) {
        Err(LoroError::DecodeError(msg)) => assert_eq!(msg, "The change is not valid"),
        other => panic!("unexpected result {:?}", other),
    }
    let early = text_change(&mut log, 3, 0, 9, &[(1, 8)], "z", 0);
    match log.try_import_local_change(early) {
        Err(LoroError::DecodeError(msg)) => assert_eq!(msg, "Missing dep 8@1"),
        other => panic!("unexpected result {:?}", other),
    }
    assert_eq!(log.pending_changes.entries.len(), 1);
    assert_eq!(log.pending_changes.entries[0].missing, ID::new(1, 8));
    let used = text_change(&mut log, 1, 4, 4, &[(1, 3)], "z", 0);
    match log.try_import_local_change(used) {
        Err(LoroError::UsedOpID { id }) => assert_eq!(id, ID::new(1, 4)),
        other => panic!("unexpected result {:?}", other),
    }
}
