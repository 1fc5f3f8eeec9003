use projected_hash_map::Projectable;
use projected_hash_map::ProjectedHashMap;

#[derive(Clone, Debug, Eq, Ord, PartialEq, PartialOrd)]
struct User {
    height: usize,
    name: String,
    weight: usize,
}

impl User {
    fn new(name: String) -> Self {
        Self { name, height: 12, weight: 12 }
    }
}

impl Projectable<String> for User {
    fn proj(&self) -> String {
        self.name.clone()
    }

    fn project(&self) -> &String {
        &self.name
    }

    fn key_eq(a: &String, b: &String) -> bool {
        a == b
    }
}

#[test]
fn test_hashset() {
    let p1 = "p1".to_string();
    let p2 = "p2".to_string();
    let p3 = "p3".to_string();
    let e0 = User::new(p1.clone());
    let e1 = User::new(p2);
    let e2 = User::new(p3);
    let e3 = User::new(p1);

    let mut se = ProjectedHashMap::default();
    se.insert(e0.clone());
    se.insert(e1);
    se.insert(e2);
    se.insert(e3.clone());

    let key3 = e3.name.clone();
    let key0 = e0.name.clone();

    assert_eq!(se.get(&key3).unwrap(), &e3);
    assert_eq!(se.get(&key0).unwrap(), &e0);
}

#[test]
fn test_remove_key() {
    let p1 = "p1".to_string();
    let p2 = "p2".to_string();
    let e1 = User::new(p1);
    let e2 = User::new(p2);
    let mut se = ProjectedHashMap::default();
    se.insert(e2.clone());

    let key = e1.name.clone();
    se.insert(e1.clone());
    assert_eq!(se.get(&key).unwrap(), &e1);
    se.remove(&e1.name);
    assert_eq!(se.get(&key), None);

    let key2 = e2.name.clone();
    assert_eq!(se.get(&key2).unwrap(), &e2);
}
