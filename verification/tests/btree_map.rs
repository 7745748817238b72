use bimap::{BiBTreeMap, Overwritten};

fn sample() -> BiBTreeMap<char, u32> {
    let mut map = BiBTreeMap::new();
    map.insert('A', 1);
    map.insert('B', 2);
    map.insert('C', 3);
    map
}

fn sorted(mut entries: Vec<(char, u32)>) -> Vec<(char, u32)> {
    entries.sort();
    entries
}

fn assert_mirrored(map: &BiBTreeMap<char, u32>) {
    assert_eq!(map.left_to_right().len(), map.right_to_left().len());
    assert_eq!(map.left_to_right().len(), map.len());
    for (l, r) in map.left_to_right() {
        assert_eq!(map.right_to_left().get(r), Some(l));
    }
    for (r, l) in map.right_to_left() {
        assert_eq!(map.left_to_right().get(l), Some(r));
    }
}

#[test]
fn tree_new_is_empty() {
    let map: BiBTreeMap<char, u32> = BiBTreeMap::new();
    assert_eq!(map.len(), 0);
    assert!(map.is_empty());
    assert_eq!(map.iter(), vec![]);
    assert_eq!(map.get_by_left(&'A'), None);
    assert_eq!(map.get_by_right(&1), None);
}

#[test]
fn tree_with_capacity_ignores_the_hint() {
    let map: BiBTreeMap<char, u32> = BiBTreeMap::with_capacity(16);
    assert_eq!(map.len(), 0);
    assert!(map.is_empty());
    assert!(map == BiBTreeMap::new());
}

#[test]
fn tree_insert_fresh_pair_reports_neither() {
    let mut map: BiBTreeMap<char, u32> = BiBTreeMap::new();
    assert_eq!(map.insert('A', 1), Overwritten::Neither);
    assert_eq!(map.len(), 1);
    assert!(!map.is_empty());
    assert_eq!(map.get_by_left(&'A'), Some(&1));
    assert_eq!(map.get_by_right(&1), Some(&'A'));
}

#[test]
fn tree_insert_known_left_reports_old_right() {
    let mut map = sample();
    assert_eq!(map.insert('A', 9), Overwritten::Left(1));
    assert_eq!(map.len(), 3);
    assert_eq!(map.get_by_left(&'A'), Some(&9));
    assert_eq!(map.get_by_right(&9), Some(&'A'));
    assert_eq!(map.get_by_right(&1), None);
    assert_mirrored(&map);
}

#[test]
fn tree_insert_known_right_reports_old_left() {
    let mut map = sample();
    assert_eq!(map.insert('Z', 2), Overwritten::Right('B'));
    assert_eq!(map.len(), 3);
    assert_eq!(map.get_by_right(&2), Some(&'Z'));
    assert_eq!(map.get_by_left(&'Z'), Some(&2));
    assert_eq!(map.get_by_left(&'B'), None);
    assert_mirrored(&map);
}

#[test]
fn tree_insert_across_two_pairs_evicts_both() {
    let mut map: BiBTreeMap<char, u32> = BiBTreeMap::new();
    map.insert('A', 1);
    map.insert('B', 2);
    assert_eq!(map.insert('A', 2), Overwritten::Both(1, 'B'));
    assert_eq!(map.len(), 1);
    assert_eq!(map.iter(), vec![('A', 2)]);
    assert_eq!(map.get_by_left(&'A'), Some(&2));
    assert_eq!(map.get_by_right(&2), Some(&'A'));
    assert_eq!(map.get_by_left(&'B'), None);
    assert_eq!(map.get_by_right(&1), None);
    assert_mirrored(&map);
}

#[test]
fn tree_insert_across_two_pairs_keeps_the_rest() {
    let mut map = sample();
    assert_eq!(map.insert('C', 1), Overwritten::Both(3, 'A'));
    assert_eq!(map.len(), 2);
    assert_eq!(sorted(map.iter()), vec![('B', 2), ('C', 1)]);
    assert_mirrored(&map);
}

#[test]
fn tree_insert_same_pair_again_reports_left() {
    let mut map = sample();
    assert_eq!(map.insert('B', 2), Overwritten::Left(2));
    assert_eq!(map.len(), 3);
    assert_eq!(sorted(map.iter()), vec![('A', 1), ('B', 2), ('C', 3)]);
    assert_mirrored(&map);
}

#[test]
fn tree_latest_insertion_wins() {
    let mut map: BiBTreeMap<char, u32> = BiBTreeMap::new();
    map.insert('A', 1);
    map.insert('A', 2);
    map.insert('B', 2);
    assert_eq!(map.iter(), vec![('B', 2)]);
    assert_eq!(map.get_by_left(&'A'), None);
    assert_eq!(map.get_by_right(&1), None);
}

#[test]
fn tree_lookups_by_either_side() {
    let map = sample();
    assert_eq!(map.get_by_left(&'B'), Some(&2));
    assert_eq!(map.get_by_right(&3), Some(&'C'));
    assert_eq!(map.get_by_left(&'Z'), None);
    assert_eq!(map.get_by_right(&9), None);
    assert!(map.contains_left(&'A'));
    assert!(!map.contains_left(&'Z'));
    assert!(map.contains_right(&1));
    assert!(!map.contains_right(&9));
}

#[test]
fn tree_present_left_values_have_distinct_partners() {
    let map = sample();
    let lefts = map.left_values();
    for a in &lefts {
        for b in &lefts {
            if a != b {
                assert_ne!(map.get_by_left(a), map.get_by_left(b));
            }
        }
    }
    let rights = map.right_values();
    for a in &rights {
        for b in &rights {
            if a != b {
                assert_ne!(map.get_by_right(a), map.get_by_right(b));
            }
        }
    }
}

#[test]
fn tree_remove_by_left_present() {
    let mut map = sample();
    assert_eq!(map.remove_by_left(&'B'), Some(('B', 2)));
    assert_eq!(map.len(), 2);
    assert_eq!(map.get_by_left(&'B'), None);
    assert_eq!(map.get_by_right(&2), None);
    assert_eq!(sorted(map.iter()), vec![('A', 1), ('C', 3)]);
    assert_mirrored(&map);
}

#[test]
fn tree_remove_by_left_absent_changes_nothing() {
    let mut map = sample();
    let before = map.clone();
    assert_eq!(map.remove_by_left(&'Z'), None);
    assert_eq!(map.len(), 3);
    assert!(map == before);
    assert_eq!(sorted(map.iter()), vec![('A', 1), ('B', 2), ('C', 3)]);
}

#[test]
fn tree_remove_by_right_present() {
    let mut map = sample();
    assert_eq!(map.remove_by_right(&3), Some(('C', 3)));
    assert_eq!(map.len(), 2);
    assert_eq!(map.get_by_left(&'C'), None);
    assert_eq!(map.get_by_right(&3), None);
    assert_mirrored(&map);
}

#[test]
fn tree_remove_by_right_absent_changes_nothing() {
    let mut map = sample();
    let before = map.clone();
    assert_eq!(map.remove_by_right(&9), None);
    assert!(map == before);
}

#[test]
fn tree_remove_last_pair_leaves_empty() {
    let mut map: BiBTreeMap<char, u32> = BiBTreeMap::new();
    map.insert('A', 1);
    assert_eq!(map.remove_by_left(&'A'), Some(('A', 1)));
    assert!(map.is_empty());
    assert!(map == BiBTreeMap::new());
}

#[test]
fn tree_try_insert_fresh_pair() {
    let mut map = sample();
    assert_eq!(map.try_insert('D', 4), Ok(()));
    assert_eq!(map.len(), 4);
    assert_eq!(map.get_by_left(&'D'), Some(&4));
    assert_eq!(map.get_by_right(&4), Some(&'D'));
}

#[test]
fn tree_try_insert_known_left_fails() {
    let mut map = sample();
    let before = map.clone();
    assert_eq!(map.try_insert('A', 9), Err(('A', 1)));
    assert!(map == before);
    assert_eq!(map.get_by_right(&9), None);
}

#[test]
fn tree_try_insert_known_right_fails() {
    let mut map = sample();
    let before = map.clone();
    assert_eq!(map.try_insert('Z', 2), Err(('B', 2)));
    assert!(map == before);
    assert_eq!(map.get_by_left(&'Z'), None);
}

#[test]
fn tree_try_insert_both_known_reports_pair_of_left() {
    let mut map = sample();
    let before = map.clone();
    assert_eq!(map.try_insert('A', 2), Err(('A', 1)));
    assert!(map == before);
}

#[test]
fn tree_try_insert_same_pair_fails() {
    let mut map = sample();
    assert_eq!(map.try_insert('C', 3), Err(('C', 3)));
    assert_eq!(map.len(), 3);
}

#[test]
fn tree_iter_yields_each_pair_once() {
    let map = sample();
    let entries = map.iter();
    assert_eq!(entries.len(), map.len());
    assert_eq!(sorted(entries), vec![('A', 1), ('B', 2), ('C', 3)]);
    assert_eq!(sorted(map.iter()), sorted(map.iter()));
}

#[test]
fn tree_left_and_right_values() {
    let map = sample();
    let mut lefts = map.left_values();
    lefts.sort();
    assert_eq!(lefts, vec!['A', 'B', 'C']);
    let mut rights = map.right_values();
    rights.sort();
    assert_eq!(rights, vec![1, 2, 3]);
}

#[test]
fn tree_single_direction_views() {
    let map = sample();
    let forward = map.left_to_right();
    assert_eq!(forward.len(), 3);
    assert_eq!(forward.get(&'A'), Some(&1));
    assert!(forward.contains_key(&'C'));
    assert!(!forward.contains_key(&'Z'));
    let backward = map.right_to_left();
    assert_eq!(backward.len(), 3);
    assert_eq!(backward.get(&2), Some(&'B'));
    assert!(!backward.contains_key(&9));
}

#[test]
fn tree_invariants_hold_after_each_change() {
    let mut map: BiBTreeMap<char, u32> = BiBTreeMap::new();
    assert_mirrored(&map);
    map.insert('A', 1);
    assert_mirrored(&map);
    map.insert('B', 2);
    assert_mirrored(&map);
    map.insert('A', 2);
    assert_mirrored(&map);
    map.insert('C', 2);
    assert_mirrored(&map);
    map.insert('C', 7);
    assert_mirrored(&map);
    map.remove_by_left(&'A');
    assert_mirrored(&map);
    let _ = map.try_insert('D', 7);
    assert_mirrored(&map);
    let _ = map.try_insert('D', 8);
    assert_mirrored(&map);
    map.remove_by_right(&7);
    assert_mirrored(&map);
    map.remove_by_right(&8);
    assert_mirrored(&map);
    assert!(map.is_empty());
}

#[test]
fn tree_equality_ignores_insertion_order() {
    let mut one: BiBTreeMap<char, u32> = BiBTreeMap::new();
    one.insert('A', 1);
    one.insert('B', 2);
    let mut other: BiBTreeMap<char, u32> = BiBTreeMap::with_capacity(64);
    other.insert('B', 2);
    other.insert('A', 1);
    assert!(one == other);
    assert_eq!(one, other);
}

#[test]
fn tree_equality_tells_pairs_apart() {
    let mut one: BiBTreeMap<char, u32> = BiBTreeMap::new();
    one.insert('A', 1);
    one.insert('B', 2);
    let mut swapped: BiBTreeMap<char, u32> = BiBTreeMap::new();
    swapped.insert('A', 2);
    swapped.insert('B', 1);
    assert!(one != swapped);
    let mut shorter: BiBTreeMap<char, u32> = BiBTreeMap::new();
    shorter.insert('A', 1);
    assert!(one != shorter);
    assert!(shorter != one);
}

#[test]
fn tree_clone_is_equal_and_independent() {
    let map = sample();
    let mut copy = map.clone();
    assert_eq!(copy, map);
    copy.insert('D', 4);
    assert_ne!(copy, map);
    assert_eq!(map.len(), 3);
}

#[test]
fn tree_serialize_empty_is_empty() {
    let map: BiBTreeMap<char, u32> = BiBTreeMap::new();
    assert_eq!(map.serialize(), vec![]);
}

#[test]
fn tree_serialize_lists_each_pair_once() {
    let map = sample();
    let entries = map.serialize();
    assert_eq!(entries.len(), 3);
    assert_eq!(sorted(entries), vec![('A', 1), ('B', 2), ('C', 3)]);
}

#[test]
fn tree_deserialize_empty_is_new() {
    let entries: Vec<(char, u32)> = Vec::new();
    let map = BiBTreeMap::deserialize(&entries);
    assert!(map.is_empty());
    assert_eq!(map, BiBTreeMap::new());
    let hinted = BiBTreeMap::deserialize(&entries);
    assert_eq!(hinted, BiBTreeMap::new());
}

#[test]
fn tree_deserialize_inserts_in_order() {
    let map = BiBTreeMap::deserialize(&[('A', 1), ('B', 2), ('C', 3)]);
    assert_eq!(map, sample());
}

#[test]
fn tree_round_trip() {
    let map = sample();
    let back = BiBTreeMap::deserialize(&map.serialize());
    assert_eq!(back, map);
}

#[test]
fn tree_round_trip_in_any_order() {
    let map = sample();
    let mut entries = map.serialize();
    entries.reverse();
    assert_eq!(BiBTreeMap::deserialize(&entries), map);
    entries.rotate_left(1);
    assert_eq!(BiBTreeMap::deserialize(&entries), map);
}

#[test]
fn tree_deserialize_colliding_source() {
    let map = BiBTreeMap::deserialize(&[("A", 1), ("B", 2), ("C", 2)]);
    assert_eq!(map.len(), 2);
    assert_eq!(map.get_by_left(&"A"), Some(&1));
    assert!(map.get_by_left(&"B") == Some(&2) || map.get_by_left(&"C") == Some(&2));
    assert!(!(map.get_by_left(&"B") == Some(&2) && map.get_by_left(&"C") == Some(&2)));
}

#[test]
fn tree_deserialize_colliding_source_last_pair_wins() {
    let map = BiBTreeMap::deserialize(&[('A', 1), ('B', 2), ('C', 2)]);
    assert_eq!(map.get_by_left(&'C'), Some(&2));
    assert_eq!(map.get_by_left(&'B'), None);
    assert_eq!(map.get_by_right(&2), Some(&'C'));
    let other = BiBTreeMap::deserialize(&[('A', 1), ('C', 2), ('B', 2)]);
    assert_eq!(other.get_by_left(&'B'), Some(&2));
    assert_eq!(other.get_by_left(&'C'), None);
    assert_eq!(other.len(), 2);
}

#[test]
fn tree_string_slices_as_values() {
    let mut map: BiBTreeMap<&str, i32> = BiBTreeMap::new();
    map.insert("A", 1);
    map.insert("B", 2);
    map.insert("C", 3);
    assert_eq!(map.get_by_left(&"B"), Some(&2));
    assert_eq!(map.get_by_right(&3), Some(&"C"));
    let back = BiBTreeMap::deserialize(&map.serialize());
    assert_eq!(back, map);
}

#[test]
fn tree_iter_ascends_by_left_value() {
    let mut map: BiBTreeMap<u32, u32> = BiBTreeMap::new();
    map.insert(1, 3);
    map.insert(2, 2);
    map.insert(3, 1);
    assert_eq!(map.iter(), vec![(1, 3), (2, 2), (3, 1)]);
}

#[test]
fn tree_iter_ascends_whatever_the_insertion_order() {
    let entries = [(3u32, 10u32), (1, 30), (2, 20)];
    let orders: [[usize; 3]; 6] =
        [[0, 1, 2], [0, 2, 1], [1, 0, 2], [1, 2, 0], [2, 0, 1], [2, 1, 0]];
    for order in orders {
        let mut map: BiBTreeMap<u32, u32> = BiBTreeMap::new();
        for i in order {
            map.insert(entries[i].0, entries[i].1);
        }
        assert_eq!(map.iter(), vec![(1, 30), (2, 20), (3, 10)]);
        assert_eq!(map.serialize(), vec![(1, 30), (2, 20), (3, 10)]);
    }
}

#[test]
fn tree_iter_ascends_after_overwrites_and_removals() {
    let mut map: BiBTreeMap<i32, char> = BiBTreeMap::new();
    map.insert(5, 'e');
    map.insert(-1, 'a');
    map.insert(9, 'z');
    map.insert(0, 'e');
    map.remove_by_left(&9);
    map.insert(-7, 'q');
    assert_eq!(map.iter(), vec![(-7, 'q'), (-1, 'a'), (0, 'e')]);
}

#[test]
fn tree_left_values_ascend() {
    let mut map: BiBTreeMap<u32, char> = BiBTreeMap::new();
    map.insert(3, 'a');
    map.insert(1, 'c');
    map.insert(2, 'b');
    assert_eq!(map.left_values(), vec![1, 2, 3]);
}

#[test]
fn tree_right_values_ascend() {
    let mut map: BiBTreeMap<u32, char> = BiBTreeMap::new();
    map.insert(3, 'a');
    map.insert(1, 'c');
    map.insert(2, 'b');
    assert_eq!(map.right_values(), vec!['a', 'b', 'c']);
}

#[test]
fn tree_serialize_is_sorted_and_round_trips() {
    let mut map: BiBTreeMap<u32, u32> = BiBTreeMap::new();
    map.insert(2, 2);
    map.insert(3, 1);
    map.insert(1, 3);
    let entries = map.serialize();
    assert_eq!(entries, vec![(1, 3), (2, 2), (3, 1)]);
    assert_eq!(BiBTreeMap::deserialize(&entries), map);
}

#[test]
fn tree_owned_strings_as_values() {
    let mut map: BiBTreeMap<String, u64> = BiBTreeMap::new();
    assert_eq!(map.insert(String::from("one"), 1), Overwritten::Neither);
    assert_eq!(map.insert(String::from("two"), 2), Overwritten::Neither);
    assert_eq!(map.insert(String::from("one"), 2), Overwritten::Both(1, String::from("two")));
    assert_eq!(map.len(), 1);
    assert_eq!(map.get_by_right(&2), Some(&String::from("one")));
    assert_eq!(map.get_by_left(&String::from("two")), None);
    assert_eq!(map.try_insert(String::from("one"), 3), Err((String::from("one"), 2)));
    assert_eq!(map.iter(), vec![(String::from("one"), 2)]);
    assert_eq!(map.remove_by_right(&2), Some((String::from("one"), 2)));
    assert!(map.is_empty());
    let entries = vec![(String::from("a"), 1), (String::from("b"), 2)];
    let decoded = BiBTreeMap::deserialize(&entries);
    assert_eq!(decoded.left_values().len(), 2);
    assert_eq!(decoded.get_by_left(&String::from("b")), Some(&2));
}

#[test]
fn tree_serialize_and_left_values_follow_iter() {
    let mut map: BiBTreeMap<u32, u32> = BiBTreeMap::new();
    for i in 0..50u32 {
        map.insert((i * 37) % 101, 1000 - i);
    }
    let entries = map.iter();
    assert_eq!(entries.len(), 50);
    assert_eq!(map.iter(), entries);
    assert_eq!(map.serialize(), entries);
    let lefts: Vec<u32> = entries.iter().map(|entry| entry.0).collect();
    assert_eq!(map.left_values(), lefts);
    let mut rights: Vec<u32> = entries.iter().map(|entry| entry.1).collect();
    rights.sort();
    let mut right_values = map.right_values();
    right_values.sort();
    assert_eq!(right_values, rights);
}
