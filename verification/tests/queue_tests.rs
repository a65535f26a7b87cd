use zhtta::queue::{HttpRequest, RequestQueue};

fn req(name: &str, priority: u64) -> HttpRequest {
    HttpRequest { peer_name: name.as_bytes().to_vec(), path: b"./f".to_vec(), priority }
}

#[test]
fn lt_compares_priorities() {
    assert!(req("a", 1).lt(&req("b", 2)));
    assert!(!req("a", 2).lt(&req("b", 2)));
    assert!(!req("a", 3).lt(&req("b", 2)));
}

#[test]
fn pops_highest_priority_first() {
    let mut q = RequestQueue::new();
    q.push(req("five", 5));
    q.push(req("nine-a", 9));
    q.push(req("nine-b", 9));
    q.push(req("one", 1));
    assert_eq!(q.len(), 4);
    assert_eq!(q.maybe_pop().unwrap().peer_name, b"nine-a".to_vec());
    assert_eq!(q.maybe_pop().unwrap().peer_name, b"nine-b".to_vec());
    assert_eq!(q.maybe_pop().unwrap().peer_name, b"five".to_vec());
    assert_eq!(q.maybe_pop().unwrap().peer_name, b"one".to_vec());
    assert_eq!(q.len(), 0);
    assert!(q.maybe_pop().is_none());
}

#[test]
fn empty_queue_pops_nothing() {
    let mut q = RequestQueue::new();
    assert!(q.maybe_pop().is_none());
    assert_eq!(q.len(), 0);
}

#[test]
fn pushed_highest_is_next() {
    let mut q = RequestQueue::new();
    q.push(req("a", 3));
    q.push(req("b", 7));
    q.push(req("c", 100));
    assert_eq!(q.maybe_pop().unwrap(), req("c", 100));
}

#[test]
fn successive_pops_do_not_increase() {
    let mut q = RequestQueue::new();
    for (i, p) in [4u64, 17, 2, 17, 9, 0, u64::MAX].iter().enumerate() {
        q.push(req(&format!("r{}", i), *p));
    }
    let mut last = u64::MAX;
    while let Some(r) = q.maybe_pop() {
        assert!(r.priority <= last);
        last = r.priority;
    }
}
