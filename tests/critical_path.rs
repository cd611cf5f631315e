use build_signals::critical_path::{extract_critical_path, CriticalPathMap, CriticalPathNode};
use std::time::Duration;

type PathMap = CriticalPathMap<Option<i32>>;

fn micros(d: Duration) -> u64 {
    d.as_micros() as u64
}

fn cp_insert(predecessors: &mut PathMap, key: u64, prev: Option<u64>, duration: Duration) {
    predecessors.insert(
        key,
        CriticalPathNode {
            duration: micros(duration),
            value: Some(key as i32),
            prev,
        },
    );
}

#[test]
fn empty_path() {
    let predecessors = PathMap::new();
    let path = extract_critical_path(&predecessors).ok().unwrap();
    assert!(path.is_empty());
}

#[test]
fn unit_path() {
    let mut predecessors = PathMap::new();
    cp_insert(&mut predecessors, 1, None, Duration::from_secs(3));
    let path = extract_critical_path(&predecessors).ok().unwrap();
    assert_eq!(path, vec![(1, &Some(1), micros(Duration::from_secs(3)))]);
}

#[test]
fn long_path() {
    let mut predecessors = PathMap::new();
    //   -> 1 -> 2 -> 3
    //   5s   6s   7s
    //
    //      1 -> 4
    //        9s
    cp_insert(&mut predecessors, 1, None, Duration::from_secs(5));
    cp_insert(&mut predecessors, 2, Some(1), Duration::from_secs(11));
    cp_insert(&mut predecessors, 3, Some(2), Duration::from_secs(18));
    cp_insert(&mut predecessors, 4, Some(1), Duration::from_secs(14));
    let path = extract_critical_path(&predecessors).ok().unwrap();
    assert_eq!(
        path,
        vec![
            (1, &Some(1), micros(Duration::from_secs(5))),
            (2, &Some(2), micros(Duration::from_secs(6))),
            (3, &Some(3), micros(Duration::from_secs(7))),
        ],
    );
}

#[test]
fn cycle_path() {
    let mut predecessors = PathMap::new();
    cp_insert(&mut predecessors, 1, Some(2), Duration::from_secs(5));
    cp_insert(&mut predecessors, 2, Some(1), Duration::from_secs(11));
    assert!(extract_critical_path(&predecessors).is_err());
}

#[test]
fn cycle_reports_revisited_node() {
    let mut predecessors = PathMap::new();
    cp_insert(&mut predecessors, 1, Some(2), Duration::from_secs(5));
    cp_insert(&mut predecessors, 2, Some(1), Duration::from_secs(11));
    match extract_critical_path(&predecessors) {
        Err(e) => assert_eq!(e.key, 1),
        Ok(_) => panic!("expected a cycle"),
    }
}

#[test]
fn ties_pick_smallest_key() {
    let mut one_way = PathMap::new();
    cp_insert(&mut one_way, 7, None, Duration::from_secs(4));
    cp_insert(&mut one_way, 3, None, Duration::from_secs(4));
    let mut other_way = PathMap::new();
    cp_insert(&mut other_way, 3, None, Duration::from_secs(4));
    cp_insert(&mut other_way, 7, None, Duration::from_secs(4));
    let expected = vec![(3, &Some(3), micros(Duration::from_secs(4)))];
    assert_eq!(extract_critical_path(&one_way).ok().unwrap(), expected);
    assert_eq!(extract_critical_path(&other_way).ok().unwrap(), expected);
}

#[test]
fn missing_predecessor_ends_walk() {
    let mut predecessors = PathMap::new();
    cp_insert(&mut predecessors, 1, Some(9), Duration::from_secs(2));
    let path = extract_critical_path(&predecessors).ok().unwrap();
    assert_eq!(path, vec![(1, &Some(1), micros(Duration::from_secs(2)))]);
}

#[test]
fn contributions_saturate() {
    let mut predecessors = PathMap::new();
    cp_insert(&mut predecessors, 1, Some(2), Duration::from_secs(20));
    cp_insert(&mut predecessors, 2, Some(3), Duration::from_secs(15));
    cp_insert(&mut predecessors, 3, None, Duration::from_secs(18));
    let path = extract_critical_path(&predecessors).ok().unwrap();
    assert_eq!(
        path,
        vec![
            (3, &Some(3), micros(Duration::from_secs(18))),
            (2, &Some(2), 0),
            (1, &Some(1), micros(Duration::from_secs(5))),
        ],
    );
}

#[test]
fn cycle_reached_from_maximum() {
    let mut predecessors = PathMap::new();
    cp_insert(&mut predecessors, 1, None, Duration::from_secs(9));
    cp_insert(&mut predecessors, 2, Some(1), Duration::from_secs(9));
    cp_insert(&mut predecessors, 3, Some(1), Duration::from_secs(3));
    cp_insert(&mut predecessors, 1, Some(3), Duration::from_secs(9));
    assert!(extract_critical_path(&predecessors).is_err());
}

#[test]
fn insert_replaces_entry() {
    let mut predecessors = PathMap::new();
    cp_insert(&mut predecessors, 1, None, Duration::from_secs(2));
    cp_insert(&mut predecessors, 1, None, Duration::from_secs(8));
    assert_eq!(predecessors.len(), 1);
    assert_eq!(predecessors.get(1).unwrap().duration, micros(Duration::from_secs(8)));
    assert!(predecessors.get(2).is_none());
}

#[test]
fn cycle_off_the_path_fails() {
    let mut predecessors = PathMap::new();
    cp_insert(&mut predecessors, 1, None, Duration::from_secs(10));
    cp_insert(&mut predecessors, 2, Some(3), Duration::from_secs(1));
    cp_insert(&mut predecessors, 3, Some(2), Duration::from_secs(1));
    assert!(extract_critical_path(&predecessors).is_err());
}
