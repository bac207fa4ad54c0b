use near_network::clock::Clock;
use near_network::crypto::PublicKey;
use near_network::forwarding::{copy_peers, ForwardingMap};
use near_network::keyed::{Key, KeyedList};
use near_network::types::PeerId;

fn numbered(n: u8) -> PeerId {
    PeerId::new(PublicKey { data: [n; 32] })
}

#[test]
fn keyed_list_sets_and_gets() {
    let mut list: KeyedList<PeerId, usize> = KeyedList::new();
    assert_eq!(list.len(), 0);
    assert!(list.get(&numbered(1)).is_none());
    assert_eq!(list.insert(numbered(1), 10), None);
    assert_eq!(list.insert(numbered(2), 20), None);
    assert_eq!(list.insert(numbered(1), 11), Some(10));
    assert_eq!(list.len(), 2);
    assert_eq!(list.get(&numbered(1)), Some(&11));
    assert_eq!(list.get(&numbered(2)), Some(&20));
    assert!(list.get(&numbered(3)).is_none());
    assert_eq!(list.position(&numbered(2)), Some(1));
    assert_eq!(list.position(&numbered(3)), None);
    assert!(*list.key_at(0) == numbered(1));
    assert_eq!(*list.value_at(1), 20);
}

#[test]
fn keyed_list_with_pairs_and_names() {
    let mut pairs: KeyedList<(PeerId, PeerId), u64> = KeyedList::new();
    assert_eq!(pairs.insert((numbered(1), numbered(2)), 1), None);
    assert_eq!(pairs.insert((numbered(2), numbered(1)), 2), None);
    assert_eq!(pairs.insert((numbered(1), numbered(2)), 3), Some(1));
    assert_eq!(pairs.get(&(numbered(2), numbered(1))), Some(&2));
    assert!(pairs.get(&(numbered(1), numbered(1))).is_none());
    let mut names: KeyedList<String, u8> = KeyedList::new();
    assert_eq!(names.insert("a".to_string(), 1), None);
    assert_eq!(names.insert("b".to_string(), 2), None);
    assert_eq!(names.get(&"a".to_string()), Some(&1));
    assert!(names.get(&"".to_string()).is_none());
    assert!("a".to_string().same(&"a".to_string()));
    assert!(!"a".to_string().same(&"b".to_string()));
    assert!((numbered(1), numbered(2)).same(&(numbered(1), numbered(2))));
    assert!(!(numbered(1), numbered(2)).same(&(numbered(2), numbered(1))));
    assert!(numbered(1).same(&numbered(1)));
}

#[test]
fn forwarding_map_holds_targets_with_hops() {
    let mut map = ForwardingMap::new();
    assert_eq!(map.len(), 0);
    assert!(!map.contains_key(&numbered(1)));
    map.insert(numbered(1), vec![numbered(1)]);
    map.insert(numbered(2), vec![numbered(1), numbered(3)]);
    assert_eq!(map.len(), 2);
    assert!(map.contains_key(&numbered(2)));
    assert!(!map.contains_key(&numbered(3)));
    assert_eq!(map.get(&numbered(2)), Some(&vec![numbered(1), numbered(3)]));
    assert!(map.get(&numbered(3)).is_none());
    assert_eq!(map.targets(), vec![numbered(1), numbered(2)]);
    let copy = map.duplicate();
    map.insert(numbered(3), vec![numbered(3)]);
    assert_eq!(copy.len(), 2);
    assert_eq!(copy.get(&numbered(1)), Some(&vec![numbered(1)]));
    assert_eq!(copy.get(&numbered(2)), Some(&vec![numbered(1), numbered(3)]));
    assert_eq!(copy_peers(&vec![numbered(4), numbered(5)]), vec![numbered(4), numbered(5)]);
    assert!(copy_peers(&Vec::new()).is_empty());
}

#[test]
fn clock_does_not_go_back() {
    let clock = Clock::start();
    let first = clock.now();
    let second = clock.now();
    assert!(first <= second);
    // A clock that was just started shows a small number.
    assert!(second < 60_000);
}
