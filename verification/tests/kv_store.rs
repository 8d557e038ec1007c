use rux_controller::kv_store::KVStore;
use rux_controller::resource::Resource;

#[derive(Clone, Debug, PartialEq)]
struct Spec {
    replicas: u32,
}

#[derive(Clone, Debug, PartialEq, Default)]
struct Status {
    ready_replicas: u32,
}

#[derive(Clone, Debug, PartialEq)]
struct Deployment {
    name: String,
    spec: Spec,
    status: Status,
}

impl Resource for Deployment {
    type Spec = Spec;
    type Status = Status;

    fn key(&self) -> String {
        format!("deployment/{}", self.name)
    }
}

fn deployment(name: &str, replicas: u32) -> Deployment {
    Deployment { name: name.to_string(), spec: Spec { replicas }, status: Status::default() }
}

#[test]
fn new_store_is_empty() {
    let store: KVStore<Deployment> = KVStore::new();
    assert!(store.list_keys().is_empty());
    assert_eq!(store.get("deployment/nginx".to_string()), None);
}

#[test]
fn get_after_put_returns_the_resource() {
    let mut store = KVStore::new();
    let d = deployment("nginx", 4);
    store.put(d.key(), d.clone());
    assert_eq!(store.get("deployment/nginx".to_string()), Some(d));
    assert_eq!(store.get("deployment/apache".to_string()), None);
}

#[test]
fn put_replaces_the_stored_resource() {
    let mut store = KVStore::new();
    store.put("deployment/nginx".to_string(), deployment("nginx", 4));
    store.put("deployment/nginx".to_string(), deployment("nginx", 1));
    assert_eq!(store.get("deployment/nginx".to_string()), Some(deployment("nginx", 1)));
    assert_eq!(store.list_keys(), vec!["deployment/nginx".to_string()]);
}

#[test]
fn put_leaves_other_names_alone() {
    let mut store = KVStore::new();
    store.put("a".to_string(), 1u32);
    store.put("b".to_string(), 2u32);
    store.put("a".to_string(), 3u32);
    assert_eq!(store.get("a".to_string()), Some(3));
    assert_eq!(store.get("b".to_string()), Some(2));
}

#[test]
fn list_keys_names_each_stored_key_once() {
    let mut store = KVStore::new();
    store.put("b".to_string(), 2u32);
    store.put("a".to_string(), 1u32);
    store.put("b".to_string(), 5u32);
    store.put("c".to_string(), 3u32);
    let mut keys = store.list_keys();
    assert_eq!(keys.len(), 3);
    keys.sort();
    assert_eq!(keys, vec!["a".to_string(), "b".to_string(), "c".to_string()]);
}

#[test]
fn resource_key_names_the_deployment() {
    assert_eq!(deployment("nginx", 4).key(), "deployment/nginx");
}
