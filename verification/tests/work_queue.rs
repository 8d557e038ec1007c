use rux_controller::schedular::{Event, WorkQueue};

fn s(x: &str) -> String {
    x.to_string()
}

#[test]
fn new_queue_is_empty() {
    let mut q = WorkQueue::new();
    assert_eq!(q.pop(), None);
}

#[test]
fn push_queues_a_key_once() {
    let mut q = WorkQueue::new();
    assert!(q.push(s("deployment/nginx")));
    assert!(!q.push(s("deployment/nginx")));
    assert!(!q.push(s("deployment/nginx")));
    assert_eq!(q.pop(), Some(s("deployment/nginx")));
    assert_eq!(q.pop(), None);
}

#[test]
fn keys_come_out_first_in_first_out() {
    let mut q = WorkQueue::new();
    assert!(q.push(s("a")));
    assert!(q.push(s("b")));
    assert!(q.push(s("c")));
    assert!(!q.push(s("a")));
    assert_eq!(q.pop(), Some(s("a")));
    assert_eq!(q.pop(), Some(s("b")));
    assert_eq!(q.pop(), Some(s("c")));
    assert_eq!(q.pop(), None);
}

#[test]
fn popped_key_can_be_queued_again() {
    let mut q = WorkQueue::new();
    assert!(q.push(s("a")));
    assert!(q.push(s("b")));
    assert_eq!(q.pop(), Some(s("a")));
    assert!(q.push(s("a")));
    assert_eq!(q.pop(), Some(s("b")));
    assert_eq!(q.pop(), Some(s("a")));
    assert_eq!(q.pop(), None);
}

#[test]
fn push_does_not_change_the_next_key() {
    let mut q = WorkQueue::new();
    assert!(q.push(s("x")));
    assert!(q.push(s("y")));
    assert!(!q.push(s("y")));
    assert_eq!(q.pop(), Some(s("x")));
}

#[test]
fn resync_of_all_keys_schedules_each_once() {
    let mut q = WorkQueue::new();
    assert!(q.push(s("b")));
    let keys = vec![s("a"), s("b"), s("c"), s("a")];
    let mut woken = 0;
    for k in keys {
        if q.push(k) {
            woken += 1;
        }
    }
    assert_eq!(woken, 2);
    assert_eq!(q.pop(), Some(s("b")));
    assert_eq!(q.pop(), Some(s("a")));
    assert_eq!(q.pop(), Some(s("c")));
    assert_eq!(q.pop(), None);
}

#[test]
fn empty_key_is_a_key() {
    let mut q = WorkQueue::new();
    assert!(q.push(s("")));
    assert!(!q.push(s("")));
    assert_eq!(q.pop(), Some(s("")));
}

#[test]
fn events_carry_their_key() {
    let put = Event::Put(s("deployment/nginx"));
    let del = Event::Delete(s("deployment/nginx"));
    match put.clone() {
        Event::Put(k) => assert_eq!(k, "deployment/nginx"),
        Event::Delete(_) => panic!("wrong variant"),
    }
    match del {
        Event::Delete(k) => assert_eq!(k, "deployment/nginx"),
        Event::Put(_) => panic!("wrong variant"),
    }
    assert_eq!(format!("{:?}", put), "Put(\"deployment/nginx\")");
}

#[test]
fn each_pop_hands_out_a_key_pushed_earlier_and_still_waiting() {
    let mut q = WorkQueue::new();
    let mut waiting: Vec<String> = Vec::new();
    let calls: Vec<Option<&str>> = vec![
        Some("a"), None, None, Some("b"), Some("c"), Some("b"), None, Some("a"), None, None, None,
    ];
    for call in calls {
        match call {
            Some(k) => {
                let queued = q.push(k.to_string());
                assert_eq!(queued, !waiting.contains(&k.to_string()));
                if queued {
                    waiting.push(k.to_string());
                }
            }
            None => match q.pop() {
                Some(k) => {
                    assert_eq!(waiting.first(), Some(&k));
                    waiting.remove(0);
                }
                None => assert!(waiting.is_empty()),
            },
        }
    }
    assert!(waiting.is_empty());
}
