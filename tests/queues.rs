use ordered_walk::channel::Received;
use ordered_walk::index_path::IndexPath;
use ordered_walk::results_queue::{new_results_queue, DirList, NextResultMatcher, ResultsPoll, ResultsQueueIter};
use ordered_walk::work_queue::{new_work_queue, work_step, Work, WorkPoll, WorkQueueIter, WorkStep};

fn path(v: &[usize]) -> IndexPath {
    IndexPath::with_vec(v.to_vec())
}

fn result(p: &[usize], children: usize, value: &'static str) -> DirList<&'static str> {
    DirList { index_path: path(p), scheduled_read_dirs: children, value }
}

fn work(p: &[usize], value: u32) -> Work<u32> {
    Work { index_path: path(p), value }
}

/// Steps the consumer until the walk ends or stalls; returns the released
/// paths and the final outcome's name.
fn drain_results(it: &mut ResultsQueueIter<&'static str>) -> (Vec<Vec<usize>>, &'static str) {
    let mut out = Vec::new();
    for _ in 0..1000 {
        match it.next() {
            ResultsPoll::Ready(d) => out.push(d.index_path.indices().clone()),
            ResultsPoll::Received => {}
            ResultsPoll::Wait => return (out, "wait"),
            ResultsPoll::Done => return (out, "done"),
            ResultsPoll::Incomplete => return (out, "incomplete"),
        }
    }
    panic!("consumer did not settle");
}

fn next_work(it: &mut WorkQueueIter<u32>) -> Option<Vec<usize>> {
    match it.next() {
        WorkPoll::Ready(w) => Some(w.index_path.indices().clone()),
        _ => None,
    }
}

#[test]
fn children_released_in_order_despite_arrival() {
    let (q, mut it) = new_results_queue();
    q.push(result(&[0, 1], 0, "b")).ok().unwrap();
    q.push(result(&[0, 0], 0, "a")).ok().unwrap();
    q.push(result(&[0], 2, "root")).ok().unwrap();
    let (out, end) = drain_results(&mut it);
    assert_eq!(out, vec![vec![0], vec![0, 0], vec![0, 1]]);
    assert_eq!(end, "done");
}

#[test]
fn chain_released_in_depth_order() {
    let (q, mut it) = new_results_queue();
    q.push(result(&[0, 0, 0], 0, "c")).ok().unwrap();
    q.push(result(&[0, 0], 1, "b")).ok().unwrap();
    q.push(result(&[0], 1, "a")).ok().unwrap();
    let (out, end) = drain_results(&mut it);
    assert_eq!(out, vec![vec![0], vec![0, 0], vec![0, 0, 0]]);
    assert_eq!(end, "done");
}

#[test]
fn preorder_of_wider_tree() {
    // [0] has children [0,0] (with child [0,0,0]) and [0,1] (with [0,1,0], [0,1,1]).
    let (q, mut it) = new_results_queue();
    q.push(result(&[0, 1, 1], 0, "")).ok().unwrap();
    q.push(result(&[0, 1], 2, "")).ok().unwrap();
    q.push(result(&[0, 0, 0], 0, "")).ok().unwrap();
    q.push(result(&[0, 1, 0], 0, "")).ok().unwrap();
    q.push(result(&[0], 2, "")).ok().unwrap();
    q.push(result(&[0, 0], 1, "")).ok().unwrap();
    let (out, end) = drain_results(&mut it);
    assert_eq!(
        out,
        vec![vec![0], vec![0, 0], vec![0, 0, 0], vec![0, 1], vec![0, 1, 0], vec![0, 1, 1]]
    );
    assert_eq!(end, "done");
}

#[test]
fn results_root_without_children_ends_walk() {
    let (q, mut it) = new_results_queue();
    q.push(result(&[0], 0, "only")).ok().unwrap();
    let (out, end) = drain_results(&mut it);
    assert_eq!(out, vec![vec![0]]);
    assert_eq!(end, "done");
    assert!(it.looking_for().is_empty());
    assert!(matches!(it.next(), ResultsPoll::Done));
}

#[test]
fn results_wait_for_root() {
    let (q, mut it) = new_results_queue::<&'static str>();
    let (out, end) = drain_results(&mut it);
    assert!(out.is_empty());
    assert_eq!(end, "wait");
    drop(q);
}

#[test]
fn results_incomplete_when_producers_leave() {
    let (q, mut it) = new_results_queue();
    q.push(result(&[0], 2, "root")).ok().unwrap();
    q.push(result(&[0, 1], 0, "late")).ok().unwrap();
    drop(q);
    let (out, end) = drain_results(&mut it);
    assert_eq!(out, vec![vec![0]]);
    assert_eq!(end, "incomplete");
    assert_eq!(it.looking_for().indices(), &vec![0, 0]);
}

#[test]
fn results_push_after_consumer_gone_returns_item() {
    let (q, it) = new_results_queue();
    drop(it);
    let back = q.push(result(&[0, 3], 4, "kept")).err().unwrap();
    assert_eq!(back.0.index_path.indices(), &vec![0, 3]);
    assert_eq!(back.0.scheduled_read_dirs, 4);
    assert_eq!(back.0.value, "kept");
}

#[test]
fn results_clone_shares_channel() {
    let (q, mut it) = new_results_queue();
    let q2 = q.clone();
    q2.push(result(&[0], 0, "x")).ok().unwrap();
    let (out, end) = drain_results(&mut it);
    assert_eq!(out, vec![vec![0]]);
    assert_eq!(end, "done");
}

#[test]
fn matcher_descends_and_unwinds() {
    let mut m = NextResultMatcher::default();
    assert_eq!(m.looking_for().indices(), &vec![0]);
    m.increment_past(&result(&[0], 2, ""));
    assert_eq!(m.looking_for().indices(), &vec![0, 0]);
    m.increment_past(&result(&[0, 0], 1, ""));
    assert_eq!(m.looking_for().indices(), &vec![0, 0, 0]);
    m.increment_past(&result(&[0, 0, 0], 0, ""));
    assert_eq!(m.looking_for().indices(), &vec![0, 1]);
    assert!(!m.is_none());
    m.increment_past(&result(&[0, 1], 0, ""));
    assert!(m.is_none());
    assert!(m.looking_for().is_empty());
}

#[test]
fn matcher_decrement_keeps_target() {
    let mut m = NextResultMatcher::new();
    m.decrement_remaining_read_dirs_at_this_level();
    assert_eq!(m.looking_for().indices(), &vec![0]);
    assert!(m.is_looking_for(&path(&[0])));
    assert!(!m.is_looking_for(&path(&[1])));
}

#[test]
fn work_queue_with_nothing_pushed_finishes() {
    let (_q, mut it) = new_work_queue::<u32>();
    assert!(matches!(it.next(), WorkPoll::Finished));
}

#[test]
fn work_queue_waits_until_all_completed() {
    let (q, mut it) = new_work_queue();
    q.push(work(&[0, 2], 2)).ok().unwrap();
    q.push(work(&[0], 0)).ok().unwrap();
    q.push(work(&[0, 1], 1)).ok().unwrap();
    assert_eq!(next_work(&mut it), Some(vec![0]));
    q.completed_work();
    assert_eq!(next_work(&mut it), Some(vec![0, 1]));
    q.completed_work();
    assert_eq!(next_work(&mut it), Some(vec![0, 2]));
    assert!(matches!(it.next(), WorkPoll::Wait));
    assert!(matches!(it.next(), WorkPoll::Wait));
    q.completed_work();
    assert!(matches!(it.next(), WorkPoll::Finished));
}

#[test]
fn work_queue_stop_ends_stream() {
    let (q, mut it) = new_work_queue();
    q.push(work(&[0], 0)).ok().unwrap();
    q.push(work(&[1], 1)).ok().unwrap();
    q.stop_now();
    assert!(matches!(it.next(), WorkPoll::Stopped));
    assert!(matches!(it.next(), WorkPoll::Stopped));
}

#[test]
fn work_queue_stop_with_item_in_hand() {
    let (q, mut it) = new_work_queue();
    q.push(work(&[0], 7)).ok().unwrap();
    match it.next() {
        WorkPoll::Ready(w) => assert_eq!(w.value, 7),
        _ => panic!("expected an item"),
    }
    q.stop_now();
    assert!(matches!(it.next(), WorkPoll::Stopped));
}

#[test]
fn work_queue_clone_shares_counters() {
    let (q, mut it) = new_work_queue();
    let q2 = q.clone();
    q2.push(work(&[0], 1)).ok().unwrap();
    assert_eq!(next_work(&mut it), Some(vec![0]));
    assert!(matches!(it.next(), WorkPoll::Wait));
    q.completed_work();
    assert!(matches!(it.next(), WorkPoll::Finished));
    q2.push(work(&[1], 2)).ok().unwrap();
    q.stop_now();
    assert!(matches!(it.next(), WorkPoll::Stopped));
}

#[test]
fn work_push_after_consumer_gone_returns_item() {
    let (q, it) = new_work_queue();
    drop(it);
    let back = q.push(work(&[2, 5], 9)).err().unwrap();
    assert_eq!(back.0.value, 9);
    assert_eq!(back.0.index_path.indices(), &vec![2, 5]);
}

#[test]
fn work_step_cases() {
    assert_eq!(work_step(true, 3, 5), WorkStep::Stop);
    assert_eq!(work_step(true, 0, 0), WorkStep::Stop);
    assert_eq!(work_step(false, 1, 0), WorkStep::Take);
    assert_eq!(work_step(false, 0, 0), WorkStep::Finish);
    assert_eq!(work_step(false, 0, 1), WorkStep::Wait);
}

#[test]
fn index_path_operations() {
    let mut p = path(&[0, 4]);
    assert_eq!(p.len(), 2);
    assert_eq!(p.get(1), 4);
    p.increment_last();
    assert_eq!(p.indices(), &vec![0, 5]);
    p.push(0);
    assert_eq!(p.indices(), &vec![0, 5, 0]);
    assert_eq!(p.pop(), Some(0));
    assert_eq!(p.pop(), Some(5));
    assert_eq!(p.pop(), Some(0));
    assert_eq!(p.pop(), None);
    assert!(p.is_empty());
}

#[test]
fn index_path_order() {
    assert!(path(&[0]).precedes(&path(&[0, 0])));
    assert!(path(&[0, 0, 9]).precedes(&path(&[0, 1])));
    assert!(!path(&[0, 1]).precedes(&path(&[0, 0, 9])));
    assert!(!path(&[0, 1]).precedes(&path(&[0, 1])));
    assert!(path(&[]).precedes(&path(&[0])));
    assert!(path(&[0, 1]).eq(&path(&[0, 1])));
    assert!(!path(&[0, 1]).eq(&path(&[0])));
    assert!(!path(&[0, 1]).eq(&path(&[0, 2])));
}

#[test]
fn results_take_in_outcomes() {
    let (_q, mut it) = new_results_queue();
    assert!(matches!(it.take_in(Received::Empty), ResultsPoll::Wait));
    assert!(matches!(it.take_in(Received::Disconnected), ResultsPoll::Incomplete));
    assert!(matches!(it.take_in(Received::Message(result(&[0], 0, "r"))), ResultsPoll::Received));
    match it.next() {
        ResultsPoll::Ready(d) => assert_eq!(d.value, "r"),
        _ => panic!("expected the root"),
    }
    assert!(matches!(it.next(), ResultsPoll::Done));
}

#[test]
fn work_take_in_outcomes() {
    let (q, mut it) = new_work_queue();
    assert!(!it.take_in(Received::Empty));
    assert!(!it.take_in(Received::Disconnected));
    assert!(it.take_in(Received::Message(work(&[3], 3))));
    q.stop_now();
    assert!(matches!(it.next(), WorkPoll::Stopped));
}
