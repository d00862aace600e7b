use sayit::translation_queue::{Queue, Ready, MAX_ACTIVE, MAX_PENDING, MAX_PENDING_BYTES};
use std::collections::{BTreeMap, VecDeque};
use std::sync::Arc;

fn fill_active(queue: &mut Queue<u64>, parent_cancelled: bool) -> Vec<Ready<u64>> {
    (1..=MAX_ACTIVE as u64)
        .flat_map(|seq| queue.enqueue(seq, 1, seq, parent_cancelled).unwrap())
        .collect()
}

#[test]
fn active_and_waiting_counts_are_bounded_and_fifo_work_is_preserved() {
    let mut queue = Queue::new();
    let mut ready: VecDeque<_> = fill_active(&mut queue, false).into();
    for seq in MAX_ACTIVE as u64 + 1..=(MAX_ACTIVE + MAX_PENDING) as u64 {
        assert!(queue.enqueue(seq, 1, seq, false).unwrap().is_empty());
    }
    assert!(queue.enqueue(999, 1, 999, false).err().unwrap().contains("队列已满"));
    assert_eq!(queue.active_len(), MAX_ACTIVE);
    assert_eq!(queue.pending_len(), MAX_PENDING);
    let mut completed = Vec::new();
    while let Some(task) = ready.pop_front() {
        assert_eq!(task.seq, task.job);
        completed.push(task.seq);
        ready.extend(queue.finish(task.seq, false));
        assert!(queue.active_len() <= MAX_ACTIVE);
    }
    assert_eq!(completed, (1..=(MAX_ACTIVE + MAX_PENDING) as u64).collect::<Vec<_>>());
    assert!(queue.active_len() == 0 && queue.pending_len() == 0);
    assert_eq!(queue.pending_bytes(), 0);
}

#[test]
fn byte_limit_is_independent_of_count_and_recovers_after_completion() {
    let mut queue = Queue::new();
    fill_active(&mut queue, false);
    queue.enqueue(9, MAX_PENDING_BYTES, 9, false).unwrap();
    assert!(queue.enqueue(10, 1, 10, false).is_err());
    assert_eq!(queue.pending_bytes(), MAX_PENDING_BYTES);
    assert_eq!(queue.finish(1, false)[0].seq, 9);
    assert_eq!(queue.pending_bytes(), 0);
    assert!(queue.enqueue(10, 1, 10, false).unwrap().is_empty());
}

#[test]
fn obsolete_work_is_cancelled_but_keeps_its_slot_until_it_exits() {
    let mut queue = Queue::new();
    let active = fill_active(&mut queue, false);
    queue.enqueue(9, 3, 9, false).unwrap();
    queue.enqueue(10, 5, 10, false).unwrap();
    let cancelled = queue.retain(&[2, 3, 4, 5, 6, 7, 8, 10]);
    assert!(cancelled.contains(&active[0].seq));
    assert!(!cancelled.contains(&active[1].seq));
    assert_eq!(queue.active_len(), MAX_ACTIVE);
    assert_eq!(queue.pending_bytes(), 5);
    assert_eq!(queue.finish(1, false)[0].seq, 10);
    assert!(queue.finish(1, false).is_empty(), "重复退出不能释放别的名额");
    queue.enqueue(11, 7, 11, false).unwrap();
    let cancelled = queue.retain(&[]);
    assert!(active[1..].iter().all(|task| cancelled.contains(&task.seq)));
    assert_eq!(cancelled.len(), MAX_ACTIVE);
    assert_eq!(queue.pending_len(), 0);
    assert_eq!(queue.pending_bytes(), 0);
}

#[test]
fn stop_prevents_pending_work_from_starting_and_dropping_cancels_active_work() {
    let mut queue = Queue::new();
    let active = fill_active(&mut queue, false);
    queue.enqueue(9, 1, 9, false).unwrap();
    // The owning session stops: every running request belongs to it.
    assert_eq!(queue.active_seqs(), active.iter().map(|task| task.seq).collect::<Vec<_>>());
    assert!(queue.finish(1, true).is_empty());
    assert!(queue.enqueue(10, 1, 10, true).is_err());
    let mut next = Queue::new();
    let task = next.enqueue(1, 1, 1, false).unwrap().remove(0);
    assert_eq!(next.active_seqs(), vec![task.seq]);
}

#[test]
fn discarding_pending_work_releases_its_payload_without_starting_it() {
    let mut queue = Queue::new();
    for seq in 0..MAX_ACTIVE as u64 {
        queue.enqueue(seq, 1, Arc::new(vec![0u8]), false).unwrap();
    }
    let payload = Arc::new(vec![7u8; 1024]);
    let weak = Arc::downgrade(&payload);
    queue.enqueue(100, 1024, payload, false).unwrap();
    assert!(weak.upgrade().is_some());
    let visible: Vec<u64> = (0..MAX_ACTIVE as u64).collect();
    queue.retain(&visible);
    assert!(weak.upgrade().is_none());
    assert_eq!(queue.pending_bytes(), 0);
}

#[test]
fn slow_local_operations_never_exceed_limit_and_all_results_complete() {
    let mut queue = Queue::new();
    let mut running: VecDeque<Ready<String>> = VecDeque::new();
    let mut peak = 0;
    for seq in 0..264u64 {
        running.extend(queue.enqueue(seq, 32, format!("译文 {seq}"), false).unwrap());
        peak = peak.max(running.len());
    }
    let mut results = BTreeMap::new();
    while let Some(task) = running.pop_front() {
        results.insert(task.seq, task.job);
        running.extend(queue.finish(task.seq, false));
        peak = peak.max(running.len());
    }
    assert_eq!(peak, MAX_ACTIVE);
    assert_eq!(results.len(), 264);
    for seq in 0..264u64 {
        assert_eq!(results[&seq], format!("译文 {seq}"));
    }
    assert!(queue.active_len() == 0 && queue.pending_len() == 0);
}

#[test]
fn duplicate_and_stopped_requests_are_rejected_unchanged() {
    let mut queue = Queue::new();
    queue.enqueue(1, 1, 1u64, false).unwrap();
    assert_eq!(queue.enqueue(1, 1, 1, false).err().unwrap(), "字幕翻译任务重复");
    assert_eq!(queue.enqueue(2, 1, 2, true).err().unwrap(), "字幕翻译已停止");
    assert_eq!(queue.active_len(), 1);
}
