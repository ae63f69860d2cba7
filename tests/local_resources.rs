use snapfaas::local_manager::{LocalResources, Vm};
use snapfaas::worker::AcquireError;

fn catalog() -> Vec<(String, usize)> {
    vec![("hello".to_string(), 128), ("world".to_string(), 256), ("huge".to_string(), 4096)]
}

#[test]
fn fresh_vm_takes_free_memory() {
    let mut lr = LocalResources::new(catalog(), 1024);
    let (vm, evicted) = lr.get_vm(&"hello".to_string()).unwrap();
    assert!(!vm.launched);
    assert_eq!(vm.mem, 128);
    assert!(evicted.is_empty());
    assert_eq!((lr.free_mem, lr.used_mem), (896, 128));
}

#[test]
fn released_vm_is_reused_warm() {
    let mut lr = LocalResources::new(catalog(), 1024);
    let (vm, _) = lr.get_vm(&"hello".to_string()).unwrap();
    lr.release_vm(vm);
    assert_eq!(lr.stats(), vec![("hello".to_string(), 1), ("world".to_string(), 0), ("huge".to_string(), 0)]);
    assert_eq!((lr.free_mem, lr.used_mem), (896, 0));
    let (vm, evicted) = lr.get_vm(&"hello".to_string()).unwrap();
    assert!(vm.launched);
    assert!(evicted.is_empty());
    assert_eq!((lr.free_mem, lr.used_mem), (896, 128));
    assert!(lr.warm.is_empty());
}

#[test]
fn deleted_vm_returns_memory_without_caching() {
    let mut lr = LocalResources::new(catalog(), 1024);
    let (vm, _) = lr.get_vm(&"world".to_string()).unwrap();
    lr.delete_vm(vm);
    assert_eq!((lr.free_mem, lr.used_mem), (1024, 0));
    assert!(lr.warm.is_empty());
}

#[test]
fn admission_evicts_oldest_warm_vms() {
    let mut lr = LocalResources::new(catalog(), 512);
    let (a, _) = lr.get_vm(&"hello".to_string()).unwrap();
    let (b, _) = lr.get_vm(&"hello".to_string()).unwrap();
    let (c, _) = lr.get_vm(&"world".to_string()).unwrap();
    assert_eq!(lr.free_mem, 0);
    lr.release_vm(a);
    lr.release_vm(b);
    lr.release_vm(c);
    let (vm, evicted) = lr.get_vm(&"world".to_string()).unwrap();
    // a warm `world` VM exists, so it is reused without eviction
    assert!(vm.launched && evicted.is_empty());
    lr.release_vm(vm);
    // warm: hello, hello, world; a cold `world` on a full node is not asked for,
    // so ask for one more image that is not warm
    let mut lr2 = LocalResources::new(catalog(), 512);
    let (h1, _) = lr2.get_vm(&"hello".to_string()).unwrap();
    let (h2, _) = lr2.get_vm(&"hello".to_string()).unwrap();
    let (h3, _) = lr2.get_vm(&"hello".to_string()).unwrap();
    lr2.release_vm(h1);
    lr2.release_vm(h2);
    lr2.release_vm(h3);
    assert_eq!(lr2.free_mem, 128);
    let (w, evicted) = lr2.get_vm(&"world".to_string()).unwrap();
    assert!(!w.launched);
    assert_eq!(evicted, vec![("hello".to_string(), 128)]);
    assert_eq!(lr2.free_mem, 0);
    assert_eq!(lr2.warm.len(), 2);
}

#[test]
fn acquire_errors() {
    let mut lr = LocalResources::new(catalog(), 1024);
    assert_eq!(lr.get_vm(&"nope".to_string()).unwrap_err(), AcquireError::FunctionNotExist);
    assert_eq!(lr.get_vm(&"huge".to_string()).unwrap_err(), AcquireError::LowMemory(4096));
    let _held: Vec<Vm> = (0..4).map(|_| lr.get_vm(&"world".to_string()).unwrap().0).collect();
    assert_eq!(lr.free_mem, 0);
    assert_eq!(lr.get_vm(&"hello".to_string()).unwrap_err(), AcquireError::InsufficientEvict);
    assert_eq!((lr.free_mem, lr.used_mem), (0, 1024));
}
