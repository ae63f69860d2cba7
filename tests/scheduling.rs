use snapfaas::resource_manager::{Endpoint, Node};
use snapfaas::rpc::ResourceInfo;
use snapfaas::scheduler::{GlobalScheduler, WorkerReply};

fn ep(ip: u128, port: u16) -> Endpoint {
    Endpoint { ip, port }
}

#[test]
fn invoke_goes_to_idle_worker() {
    let mut s: GlobalScheduler<u32, u32> = GlobalScheduler::new();
    assert_eq!(s.get_task(ep(1, 5), 100), None);
    let out = s.enqueue_invoke(42, "hello".to_string(), b"{}".to_vec(), 7);
    assert_eq!(out, Some((100, WorkerReply::ProcessTask { task_id: 42, invoke: b"{}".to_vec() })));
    assert!(s.pending.is_empty());
    assert_eq!(s.manager.wait_list, vec![(42, 7)]);
    assert_eq!(s.finish_task(42, b"done".to_vec()), Some((7, b"done".to_vec())));
    assert!(s.manager.wait_list.is_empty());
}

#[test]
fn finish_twice_answers_once() {
    let mut s: GlobalScheduler<u32, u32> = GlobalScheduler::new();
    let _ = s.enqueue_invoke(9, "f".to_string(), vec![], 3);
    assert_eq!(s.finish_task(9, vec![1]), Some((3, vec![1])));
    assert_eq!(s.finish_task(9, vec![1]), None);
    assert_eq!(s.finish_task(10, vec![]), None);
}

#[test]
fn pool_of_zero_parks_every_invocation() {
    let mut s: GlobalScheduler<u32, u32> = GlobalScheduler::new();
    assert_eq!(s.enqueue_invoke(1, "a".to_string(), vec![1], 11), None);
    assert_eq!(s.enqueue_invoke(2, "b".to_string(), vec![2], 12), None);
    assert_eq!(s.pending.iter().map(|p| p.task_id).collect::<Vec<_>>(), vec![1, 2]);
    let (workers, callers) = s.terminate_all();
    assert!(workers.is_empty());
    assert_eq!(callers, vec![11, 12]);
    assert!(s.pending.is_empty());
    assert!(s.manager.wait_list.is_empty());
}

#[test]
fn graceful_shutdown_terminates_late_workers() {
    let mut s: GlobalScheduler<u32, u32> = GlobalScheduler::new();
    assert_eq!(s.enqueue_invoke(5, "hello".to_string(), vec![], 70), None);
    let (workers, callers) = s.terminate_all();
    assert!(workers.is_empty());
    assert_eq!(callers, vec![70]);
    assert_eq!(s.get_task(ep(1, 1), 200), Some((200, WorkerReply::Terminate)));
    assert_eq!(s.get_task(ep(2, 1), 201), Some((201, WorkerReply::Terminate)));
    assert!(s.manager.idle.is_empty());
}

#[test]
fn terminate_returns_idle_workers() {
    let mut s: GlobalScheduler<u32, u32> = GlobalScheduler::new();
    let _ = s.get_task(ep(1, 1), 100);
    let _ = s.get_task(ep(2, 1), 101);
    let (workers, callers) = s.terminate_all();
    assert_eq!(workers.iter().map(|w| w.sender).collect::<Vec<_>>(), vec![100, 101]);
    assert!(callers.is_empty());
    assert!(s.terminated);
}

#[test]
fn pending_invocation_served_by_next_worker() {
    let mut s: GlobalScheduler<u32, u32> = GlobalScheduler::new();
    assert_eq!(s.enqueue_invoke(8, "img".to_string(), vec![4], 1), None);
    let r = s.get_task(ep(3, 9), 300);
    assert_eq!(r, Some((300, WorkerReply::ProcessTask { task_id: 8, invoke: vec![4] })));
    assert!(s.pending.is_empty());
    assert!(s.manager.info.iter().any(|i| i.node == Node(3) && i.dirty));
}

#[test]
fn resubmission_gets_new_task_id() {
    let mut s: GlobalScheduler<u32, u32> = GlobalScheduler::new();
    let (a, ra) = s.labeled_invoke("hello".to_string(), b"{\"x\":1}".to_vec(), 1);
    let (b, rb) = s.labeled_invoke("hello".to_string(), b"{\"x\":1}".to_vec(), 2);
    assert_ne!(a, b);
    assert_eq!((ra, rb), (None, None));
    assert_eq!(s.manager.wait_list, vec![(a, 1), (b, 2)]);
}

#[test]
fn update_resource_refuses_inconsistent_memory() {
    let mut s: GlobalScheduler<u32, u32> = GlobalScheduler::new();
    let bad = ResourceInfo { stats: vec![], total_mem: 10, free_mem: 11 };
    assert!(!s.update_resource(1, bad));
    assert!(s.manager.info.is_empty());
    let good = ResourceInfo { stats: vec![("f".to_string(), 1)], total_mem: 10, free_mem: 10 };
    assert!(s.update_resource(1, good));
    assert_eq!(s.manager.info.len(), 1);
    s.drop_resource(1);
    assert!(s.manager.info.is_empty());
    assert!(s.manager.cached.is_empty());
}
