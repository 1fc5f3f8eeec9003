use projected_hash_map::HashMapHelper;
use projected_hash_map::Projectable;
use projected_hash_map::ProjectedHashMap;

#[derive(Clone, Debug, Eq, PartialEq)]
struct Rec {
    key: String,
    data: u64,
}

impl Rec {
    fn new(key: &str, data: u64) -> Self {
        Self { key: key.to_string(), data }
    }
}

impl Projectable<String> for Rec {
    fn proj(&self) -> String {
        self.key.clone()
    }

    fn project(&self) -> &String {
        &self.key
    }

    fn key_eq(a: &String, b: &String) -> bool {
        a == b
    }
}

#[test]
fn new_container_is_empty() {
    let m: ProjectedHashMap<String, Rec> = ProjectedHashMap::new();
    assert!(m.is_empty());
    assert_eq!(m.len(), 0);
    assert_eq!(m.get(&"p1".to_string()), None);
    assert!(m.iter().is_empty());
}

#[test]
fn len_counts_distinct_keys_not_calls() {
    let mut m = ProjectedHashMap::new();
    m.insert(Rec::new("a", 1));
    m.insert(Rec::new("b", 2));
    m.insert(Rec::new("a", 3));
    m.insert(Rec::new("c", 4));
    m.insert(Rec::new("b", 5));
    assert_eq!(m.len(), 3);
    assert!(!m.is_empty());
}

#[test]
fn insert_replaces_on_collision() {
    let mut m = ProjectedHashMap::new();
    m.insert(Rec::new("p1", 1));
    m.insert(Rec::new("p2", 2));
    m.insert(Rec::new("p1", 3));
    assert_eq!(m.len(), 2);
    assert_eq!(m.get(&"p1".to_string()).unwrap().data, 3);
    assert_eq!(m.get(&"p2".to_string()).unwrap().data, 2);

    assert!(m.remove(&"p1".to_string()));
    assert_eq!(m.len(), 1);
    assert_eq!(m.get(&"p1".to_string()), None);
    assert_eq!(m.get(&"p2".to_string()).unwrap().data, 2);
}

#[test]
fn distinct_values_same_key_are_one_entry() {
    let a = Rec::new("k", 1);
    let b = Rec::new("k", 2);
    assert_ne!(a, b);
    let mut m = ProjectedHashMap::new();
    m.insert(a);
    m.insert(b.clone());
    assert_eq!(m.len(), 1);
    assert_eq!(m.get(&"k".to_string()).unwrap(), &b);
}

#[test]
fn remove_absent_key_is_noop() {
    let mut m = ProjectedHashMap::new();
    m.insert(Rec::new("p1", 1));
    assert!(!m.remove(&"p2".to_string()));
    assert_eq!(m.len(), 1);
    assert_eq!(m.get(&"p1".to_string()).unwrap().data, 1);
    assert!(m.remove(&"p1".to_string()));
    assert!(m.is_empty());
    assert!(!m.remove(&"p1".to_string()));
}

#[test]
fn iter_yields_stored_values_once_each() {
    let mut m = ProjectedHashMap::new();
    m.insert(Rec::new("a", 1));
    m.insert(Rec::new("b", 2));
    m.insert(Rec::new("c", 3));
    m.insert(Rec::new("a", 4));
    m.remove(&"c".to_string());

    let mut seen: Vec<(String, u64)> =
        m.iter().iter().map(|r| (r.key.clone(), r.data)).collect();
    seen.sort();
    assert_eq!(seen, vec![("a".to_string(), 4), ("b".to_string(), 2)]);

    let again = m.iter();
    assert_eq!(again.len(), 2);
}

#[test]
fn helper_delegates_to_projection() {
    let h = HashMapHelper::new(Rec::new("p1", 7));
    assert_eq!(h.project(), &"p1".to_string());
    assert_eq!(h.inner().data, 7);
    assert!(<HashMapHelper<String, Rec> as Projectable<String>>::key_eq(
        &"p1".to_string(),
        &"p1".to_string(),
    ));
    assert!(!<HashMapHelper<String, Rec> as Projectable<String>>::key_eq(
        &"p1".to_string(),
        &"p2".to_string(),
    ));
}
