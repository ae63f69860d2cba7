use snapfaas::resource_manager::{Endpoint, Node, NodeInfo, ResourceManager};
use snapfaas::rpc::ResourceInfo;

const A: u128 = 1;
const B: u128 = 2;

fn ep(ip: u128, port: u16) -> Endpoint {
    Endpoint { ip, port }
}

fn info(stats: &[(&str, usize)], total_mem: usize, free_mem: usize) -> ResourceInfo {
    ResourceInfo {
        stats: stats.iter().map(|(f, k)| (f.to_string(), *k)).collect(),
        total_mem,
        free_mem,
    }
}

fn cache_of(rm: &ResourceManager<&'static str, u32>, f: &str) -> Option<Vec<(Node, usize)>> {
    rm.cached.iter().find(|(g, _)| g == f).map(|(_, es)| es.clone())
}

fn idle_of(rm: &ResourceManager<&'static str, u32>, n: Node) -> Vec<&'static str> {
    rm.idle
        .iter()
        .find(|(m, _)| *m == n)
        .map(|(_, ws)| ws.iter().map(|w| w.sender).collect())
        .unwrap_or_default()
}

fn node_info(rm: &ResourceManager<&'static str, u32>, n: Node) -> Option<NodeInfo> {
    rm.info.iter().find(|i| i.node == n).copied()
}

/// Nodes A and B, `hello` cached twice on A and once on B, two idle workers on
/// A and one on B, all clean.
fn two_nodes() -> ResourceManager<&'static str, u32> {
    let mut rm = ResourceManager::new();
    rm.add_idle(ep(A, 10), "wA1");
    rm.add_idle(ep(A, 11), "wA2");
    rm.add_idle(ep(B, 10), "wB1");
    rm.update(A, info(&[("hello", 2)], 1024, 512));
    rm.update(B, info(&[("hello", 1)], 1024, 512));
    rm
}

#[test]
fn cache_hit_takes_first_clean_node() {
    let mut rm = two_nodes();
    assert_eq!(cache_of(&rm, "hello"), Some(vec![(Node(A), 2), (Node(B), 1)]));
    let w = rm.find_idle(&"hello".to_string()).unwrap();
    assert_eq!(w.sender, "wA1");
    assert_eq!(w.addr, ep(A, 10));
    assert_eq!(cache_of(&rm, "hello"), Some(vec![(Node(A), 1), (Node(B), 1)]));
    assert_eq!(idle_of(&rm, Node(A)), vec!["wA2"]);
    assert_eq!(idle_of(&rm, Node(B)), vec!["wB1"]);
    assert!(!node_info(&rm, Node(A)).unwrap().dirty());
}

#[test]
fn dirty_node_is_skipped() {
    let mut rm = two_nodes();
    rm.info[0].set_dirty(true);
    let w = rm.find_idle(&"hello".to_string()).unwrap();
    assert_eq!(w.sender, "wB1");
    assert_eq!(cache_of(&rm, "hello"), Some(vec![(Node(A), 2)]));
    assert_eq!(idle_of(&rm, Node(B)), Vec::<&str>::new());
    assert!(rm.idle.iter().all(|(n, _)| *n != Node(B)));
}

#[test]
fn no_cached_falls_back_and_marks_dirty() {
    let mut rm: ResourceManager<&'static str, u32> = ResourceManager::new();
    rm.add_idle(ep(A, 10), "wA1");
    let w = rm.find_idle(&"world".to_string()).unwrap();
    assert_eq!(w.sender, "wA1");
    assert!(node_info(&rm, Node(A)).unwrap().dirty());
    assert!(rm.idle.is_empty());
    assert!(rm.cached.is_empty());
}

#[test]
fn nothing_idle_gives_none() {
    let mut rm: ResourceManager<&'static str, u32> = ResourceManager::new();
    rm.update(A, info(&[("hello", 1)], 1024, 512));
    assert!(rm.find_idle(&"hello".to_string()).is_none());
    // a cached VM without an idle worker still uses up the cache entry
    assert_eq!(cache_of(&rm, "hello"), None);
    assert!(rm.find_idle(&"hello".to_string()).is_none());
}

#[test]
fn update_clears_dirty_and_reconciles() {
    let mut rm = two_nodes();
    rm.info[0].set_dirty(true);
    let _ = rm.find_idle(&"hello".to_string()).unwrap();
    rm.info[1].set_dirty(true);
    rm.update(B, info(&[("hello", 0), ("world", 3)], 1024, 500));
    let b = node_info(&rm, Node(B)).unwrap();
    assert!(!b.dirty());
    assert_eq!((b.total_mem, b.free_mem), (1024, 500));
    assert_eq!(cache_of(&rm, "hello"), Some(vec![(Node(A), 2)]));
    assert_eq!(cache_of(&rm, "world"), Some(vec![(Node(B), 3)]));
}

#[test]
fn update_zero_count_prunes_function() {
    let mut rm: ResourceManager<&'static str, u32> = ResourceManager::new();
    rm.update(A, info(&[("hello", 2)], 100, 50));
    rm.update(A, info(&[("hello", 0)], 100, 50));
    assert_eq!(cache_of(&rm, "hello"), None);
    rm.update(A, info(&[("hello", 0)], 100, 50));
    assert!(rm.cached.is_empty());
}

#[test]
fn update_leaves_unlisted_functions() {
    let mut rm: ResourceManager<&'static str, u32> = ResourceManager::new();
    rm.update(A, info(&[("hello", 2), ("world", 1)], 100, 50));
    rm.update(A, info(&[("world", 4)], 100, 50));
    assert_eq!(cache_of(&rm, "hello"), Some(vec![(Node(A), 2)]));
    assert_eq!(cache_of(&rm, "world"), Some(vec![(Node(A), 4)]));
}

#[test]
fn update_registers_unknown_node() {
    let mut rm: ResourceManager<&'static str, u32> = ResourceManager::new();
    rm.update(B, info(&[], 2048, 1000));
    assert_eq!(
        node_info(&rm, Node(B)),
        Some(NodeInfo { node: Node(B), total_mem: 2048, free_mem: 1000, dirty: false })
    );
}

#[test]
fn drop_then_update_recreates_clean_node() {
    let mut rm = two_nodes();
    rm.info[0].set_dirty(true);
    rm.remove(A);
    assert!(node_info(&rm, Node(A)).is_none());
    assert_eq!(idle_of(&rm, Node(A)), Vec::<&str>::new());
    assert_eq!(cache_of(&rm, "hello"), Some(vec![(Node(B), 1)]));
    rm.update(A, info(&[], 512, 256));
    let a = node_info(&rm, Node(A)).unwrap();
    assert!(!a.dirty());
    assert_eq!((a.total_mem, a.free_mem), (512, 256));
    assert_eq!(rm.info.last().unwrap().node, Node(A));
}

#[test]
fn remove_prunes_emptied_function() {
    let mut rm: ResourceManager<&'static str, u32> = ResourceManager::new();
    rm.update(A, info(&[("hello", 1)], 100, 50));
    rm.remove(A);
    assert!(rm.cached.is_empty());
    assert!(rm.info.is_empty());
}

#[test]
fn add_idle_groups_by_node() {
    let mut rm: ResourceManager<&'static str, u32> = ResourceManager::new();
    rm.add_idle(ep(A, 1), "w1");
    rm.add_idle(ep(B, 1), "w2");
    rm.add_idle(ep(A, 2), "w3");
    assert_eq!(rm.idle.len(), 2);
    assert_eq!(idle_of(&rm, Node(A)), vec!["w1", "w3"]);
    assert_eq!(rm.info.len(), 2);
    assert_eq!(NodeInfo::new(Node(A)), node_info(&rm, Node(A)).unwrap());
}

#[test]
fn reset_hands_out_every_idle_worker() {
    let mut rm = two_nodes();
    let ws: Vec<&str> = rm.reset().iter().map(|w| w.sender).collect();
    assert_eq!(ws, vec!["wA1", "wA2", "wB1"]);
    assert!(rm.idle.is_empty());
    assert_eq!(cache_of(&rm, "hello"), Some(vec![(Node(A), 2), (Node(B), 1)]));
}

#[test]
fn cache_entries_stay_positive_and_registered() {
    let mut rm = two_nodes();
    rm.update(B, info(&[("world", 2)], 1024, 512));
    let _ = rm.find_idle(&"hello".to_string());
    let _ = rm.find_idle(&"world".to_string());
    rm.remove(A);
    for (_, es) in rm.cached.iter() {
        assert!(!es.is_empty());
        for (n, k) in es {
            assert!(*k > 0);
            assert!(node_info(&rm, *n).is_some());
        }
    }
    for (_, ws) in rm.idle.iter() {
        assert!(!ws.is_empty());
    }
}

#[test]
fn cached_counts_stay_within_idle_workers() {
    let mut rm = two_nodes();
    let within = |rm: &ResourceManager<&'static str, u32>| {
        rm.cached.iter().all(|(_, es)| es.iter().all(|(n, k)| *k <= idle_of(rm, *n).len()))
    };
    assert!(within(&rm));
    rm.add_idle(ep(B, 11), "wB2");
    assert!(within(&rm));
    rm.remove(A);
    assert!(within(&rm));
    let _ = rm.find_idle(&"hello".to_string());
    assert!(within(&rm));
}
