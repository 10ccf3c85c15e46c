use glomers::string_map::{StringMap, StringSet};

fn s(text: &str) -> String {
    text.to_string()
}

#[test]
fn new_map_is_empty() {
    let m: StringMap<u64> = StringMap::new();
    assert_eq!(m.len(), 0);
    assert!(m.is_empty());
    assert_eq!(m.get(&s("a")), None);
    assert!(!m.contains_key(&s("a")));
}

#[test]
fn insert_then_get() {
    let mut m: StringMap<u64> = StringMap::new();
    assert_eq!(m.insert(s("a"), 1), None);
    assert_eq!(m.insert(s("b"), 2), None);
    assert_eq!(m.len(), 2);
    assert!(!m.is_empty());
    assert_eq!(m.get(&s("a")), Some(&1));
    assert_eq!(m.get(&s("b")), Some(&2));
    assert_eq!(m.get(&s("c")), None);
    assert!(m.contains_key(&s("b")));
}

#[test]
fn insert_replaces_and_returns_the_old_value() {
    let mut m: StringMap<u64> = StringMap::new();
    m.insert(s("a"), 1);
    assert_eq!(m.insert(s("a"), 7), Some(1));
    assert_eq!(m.len(), 1);
    assert_eq!(m.get(&s("a")), Some(&7));
}

#[test]
fn remove_takes_the_key_out() {
    let mut m: StringMap<u64> = StringMap::new();
    m.insert(s("a"), 1);
    m.insert(s("b"), 2);
    m.insert(s("c"), 3);
    assert_eq!(m.remove(&s("a")), Some(1));
    assert_eq!(m.remove(&s("a")), None);
    assert_eq!(m.len(), 2);
    assert_eq!(m.get(&s("b")), Some(&2));
    assert_eq!(m.get(&s("c")), Some(&3));
}

#[test]
fn from_pairs_lets_the_last_entry_decide() {
    let m = StringMap::from_pairs(vec![(s("a"), 1u64), (s("b"), 2), (s("a"), 3)]);
    assert_eq!(m.len(), 2);
    assert_eq!(m.get(&s("a")), Some(&3));
    assert_eq!(m.get(&s("b")), Some(&2));
}

#[test]
fn entries_are_numbered_from_zero() {
    let m = StringMap::from_pairs(vec![(s("a"), 1u64), (s("b"), 2)]);
    let mut seen = Vec::new();
    let mut i = 0;
    while i < m.len() {
        seen.push((m.key_at(i).clone(), *m.value_at(i)));
        i += 1;
    }
    seen.sort();
    assert_eq!(seen, vec![(s("a"), 1), (s("b"), 2)]);
}

#[test]
fn into_pairs_gives_every_entry_once() {
    let m = StringMap::from_pairs(vec![(s("x"), 1u64), (s("y"), 2), (s("x"), 5)]);
    let mut pairs = m.into_pairs();
    pairs.sort();
    assert_eq!(pairs, vec![(s("x"), 5), (s("y"), 2)]);
}

#[test]
fn clone_of_a_map_holds_the_same_entries() {
    let m = StringMap::from_pairs(vec![(s("a"), vec![1u64, 2]), (s("b"), vec![])]);
    let c = m.clone();
    assert_eq!(c.len(), 2);
    assert_eq!(c.get(&s("a")), Some(&vec![1, 2]));
    assert_eq!(c.get(&s("b")), Some(&vec![]));
}

#[test]
fn set_insert_reports_whether_new() {
    let mut set = StringSet::new();
    assert_eq!(set.len(), 0);
    assert!(set.insert(s("n1")));
    assert!(set.insert(s("n2")));
    assert!(!set.insert(s("n1")));
    assert_eq!(set.len(), 2);
    assert!(set.contains(&s("n1")));
    assert!(!set.contains(&s("n3")));
}

#[test]
fn set_elements_are_listed_once() {
    let mut set = StringSet::new();
    set.insert(s("b"));
    set.insert(s("a"));
    set.insert(s("b"));
    let mut seen = Vec::new();
    let mut i = 0;
    while i < set.len() {
        seen.push(set.get(i).clone());
        i += 1;
    }
    seen.sort();
    assert_eq!(seen, vec![s("a"), s("b")]);
    let copy = set.clone();
    assert_eq!(copy.len(), 2);
    assert!(copy.contains(&s("a")));
}
