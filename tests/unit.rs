use core::sync::atomic::AtomicU64;
use core::sync::atomic::Ordering;
use core::task::Waker;
use std::sync::Arc;
use wakerpool::WakerList;

struct Task {
    wake_count: AtomicU64,
}

impl Task {
    fn new() -> Arc<Self> {
        Arc::new(Self {
            wake_count: AtomicU64::new(0),
        })
    }

    fn waker(self: &Arc<Self>) -> Waker {
        self.clone().into()
    }

    fn wake_count(&self) -> u64 {
        self.wake_count.load(Ordering::Acquire)
    }
}

impl std::task::Wake for Task {
    fn wake(self: Arc<Self>) {
        self.wake_count.fetch_add(1, Ordering::AcqRel);
    }
}

fn is_send<T: Send>() -> bool {
    true
}

fn is_unpin<T: Unpin>() -> bool {
    true
}

/// Pops one handle, wakes it, and returns which of `tasks` it woke.
fn pop_and_identify(wl: &mut WakerList, tasks: &[Arc<Task>]) -> Option<usize> {
    let before: Vec<u64> = tasks.iter().map(|t| t.wake_count()).collect();
    let w = wl.pop()?;
    w.wake();
    let woken: Vec<usize> = (0..tasks.len())
        .filter(|&i| tasks[i].wake_count() != before[i])
        .collect();
    assert_eq!(1, woken.len());
    Some(woken[0])
}

#[test]
fn marker_traits() {
    assert!(is_send::<WakerList>());
    assert!(is_unpin::<WakerList>());
}

#[test]
fn default_list_is_empty() {
    let wl: WakerList = Default::default();
    assert!(wl.is_empty());
}

#[test]
fn wake_one() {
    let task = Task::new();

    let mut wl = WakerList::new();
    wl.push(task.waker());
    wl.pop().unwrap().wake();

    assert_eq!(1, task.wake_count());
}

#[test]
fn drop_list_with_waker() {
    let task = Task::new();

    let mut wl = WakerList::new();
    wl.push(task.waker());
    drop(wl);
    assert_eq!(1, Arc::strong_count(&task));
}

#[test]
fn fresh_list_is_empty_and_pops_none() {
    let mut wl = WakerList::new();
    assert!(wl.is_empty());
    assert!(wl.pop().is_none());
    assert!(wl.is_empty());
    assert_eq!(0, wl.slot_count());
}

#[test]
fn pops_return_pushes_in_reverse() {
    let tasks: Vec<Arc<Task>> = (0..5).map(|_| Task::new()).collect();
    let mut wl = WakerList::new();
    for t in &tasks {
        wl.push(t.waker());
    }
    for expected in (0..5).rev() {
        assert_eq!(Some(expected), pop_and_identify(&mut wl, &tasks));
    }
    assert_eq!(None, pop_and_identify(&mut wl, &tasks));
}

#[test]
fn round_trip_leaves_earlier_handles() {
    let tasks: Vec<Arc<Task>> = (0..4).map(|_| Task::new()).collect();
    let mut wl = WakerList::new();
    wl.push(tasks[0].waker());
    wl.push(tasks[1].waker());
    wl.push(tasks[2].waker());
    wl.push(tasks[3].waker());
    assert_eq!(Some(3), pop_and_identify(&mut wl, &tasks));
    assert_eq!(Some(2), pop_and_identify(&mut wl, &tasks));
    assert!(!wl.is_empty());
    assert_eq!(Some(1), pop_and_identify(&mut wl, &tasks));
    assert_eq!(Some(0), pop_and_identify(&mut wl, &tasks));
}

#[test]
fn drained_list_is_empty() {
    let task = Task::new();
    let mut wl = WakerList::new();
    for _ in 0..3 {
        wl.push(task.waker());
    }
    for _ in 0..3 {
        assert!(wl.pop().is_some());
    }
    assert!(wl.is_empty());
    assert!(wl.pop().is_none());
    assert_eq!(1, Arc::strong_count(&task));
}

#[test]
fn dropping_list_drops_each_handle_once() {
    let task = Task::new();
    let mut wl = WakerList::new();
    for _ in 0..7 {
        wl.push(task.waker());
    }
    assert_eq!(8, Arc::strong_count(&task));
    drop(wl);
    assert_eq!(1, Arc::strong_count(&task));
    assert_eq!(0, task.wake_count());
}

#[test]
fn three_handles_pop_last_first() {
    let tasks: Vec<Arc<Task>> = (0..3).map(|_| Task::new()).collect();
    let mut wl = WakerList::new();
    wl.push(tasks[0].waker());
    wl.push(tasks[1].waker());
    wl.push(tasks[2].waker());
    assert_eq!(Some(2), pop_and_identify(&mut wl, &tasks));
    assert_eq!(Some(1), pop_and_identify(&mut wl, &tasks));
    assert_eq!(Some(0), pop_and_identify(&mut wl, &tasks));
    assert!(wl.pop().is_none());
}

#[test]
fn emptiness_follows_push_and_pop() {
    let task = Task::new();
    let mut wl = WakerList::new();
    assert!(wl.is_empty());
    wl.push(task.waker());
    assert!(!wl.is_empty());
    assert!(wl.pop().is_some());
    assert!(wl.is_empty());
}

#[test]
fn popped_slot_is_reused() {
    let task = Task::new();
    let mut wl = WakerList::new();
    wl.push(task.waker());
    assert_eq!(1, wl.slot_count());
    assert!(wl.pop().is_some());
    assert_eq!(1, wl.slot_count());
    wl.push(task.waker());
    assert_eq!(1, wl.slot_count());
    wl.push(task.waker());
    assert_eq!(2, wl.slot_count());
}

#[test]
fn slots_grow_only_to_peak() {
    let task = Task::new();
    let mut wl = WakerList::new();
    for _ in 0..3 {
        wl.push(task.waker());
    }
    for _ in 0..3 {
        assert!(wl.pop().is_some());
    }
    for _ in 0..3 {
        wl.push(task.waker());
    }
    assert_eq!(3, wl.slot_count());
    wl.push(task.waker());
    assert_eq!(4, wl.slot_count());
}

#[test]
fn next_drains_most_recent_first() {
    let tasks: Vec<Arc<Task>> = (0..2).map(|_| Task::new()).collect();
    let mut wl = WakerList::new();
    wl.push(tasks[0].waker());
    wl.push(tasks[1].waker());
    wl.next().unwrap().wake();
    assert_eq!(0, tasks[0].wake_count());
    assert_eq!(1, tasks[1].wake_count());
    wl.next().unwrap().wake();
    assert_eq!(1, tasks[0].wake_count());
    assert!(wl.next().is_none());
}

#[test]
fn into_pool_drops_handles_and_frees_every_slot() {
    let task = Task::new();
    let mut wl = WakerList::new();
    wl.push(task.waker());
    wl.push(task.waker());
    wl.push(task.waker());
    assert!(wl.pop().is_some());
    let pool = wl.into_pool();
    assert_eq!(1, Arc::strong_count(&task));
    assert_eq!(3, pool.slot_count());

    let mut wl = WakerList::with_pool(pool);
    assert!(wl.is_empty());
    assert_eq!(3, wl.slot_count());
    for _ in 0..3 {
        wl.push(task.waker());
    }
    assert_eq!(3, wl.slot_count());
    wl.push(task.waker());
    assert_eq!(4, wl.slot_count());
    drop(wl);
    assert_eq!(1, Arc::strong_count(&task));
}
