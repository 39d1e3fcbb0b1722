use toyredis::skiplist::{Bound, Skiplist};

#[test]
fn skiplist_basis() {
    let mut list = Skiplist::new();
    list.do_insert(2, 2, 2);
    assert_eq!(list.len(), 1);
    assert_eq!(list.level(), 2);
    assert!(list.head_span(list.level() - 1).is_some());
    assert!(list.head_span(list.level()).is_none());
    assert!(list.contains(2, &2));
    let r: Vec<(i64, i64, usize)> = list.do_range_tuple(None, None, 0, 0);
    assert_eq!(r, vec![(2, 2, 2)]);
    assert!(list.remove(2, &2));
    assert_eq!(list.len(), 0);
    assert_eq!(list.level(), 2);
}

#[test]
fn check_span() {
    let mut list = Skiplist::new();
    let inserted_22 = list.do_insert(22, 22, 1).unwrap();
    for level in 0..list.level() {
        assert_eq!(list.head_span(level), Some(0));
        assert_eq!(list.node_span(inserted_22, level), Some(0));
    }
    let inserted_19 = list.do_insert(19, 19, 2).unwrap();
    assert_eq!(list.node_span(inserted_19, 0), Some(0));
    assert_eq!(list.node_span(inserted_19, 1), Some(1));
    let inserted_7 = list.do_insert(7, 7, 4).unwrap();
    assert_eq!(list.node_span(inserted_7, 0), Some(0));
    assert_eq!(list.node_span(inserted_7, 1), Some(0));
    assert_eq!(list.node_span(inserted_7, 2), Some(2));
    assert_eq!(list.node_span(inserted_7, 3), Some(2));
    let _inserted_3 = list.do_insert(3, 3, 1);
    assert_eq!(list.head_span(0), Some(0));
    assert_eq!(list.head_span(1), Some(1));
    assert_eq!(list.head_span(2), Some(1));
    assert_eq!(list.head_span(3), Some(1));
    let inserted_37 = list.do_insert(37, 37, 3).unwrap();
    for l in 0..3 {
        assert_eq!(list.node_span(inserted_37, l), Some(0));
    }
    assert_eq!(list.node_span(inserted_19, 1), Some(1));
    assert_eq!(list.node_span(inserted_7, 2), Some(2));
    assert_eq!(list.node_span(inserted_7, 3), Some(3));

    let _inserted_11 = list.do_insert(11, 11, 1).unwrap();
    assert_eq!(list.node_span(inserted_7, 1), Some(1));
    assert_eq!(list.node_span(inserted_7, 2), Some(3));
    assert_eq!(list.node_span(inserted_7, 3), Some(4));

    list.do_insert(26, 26, 1);
    assert_eq!(list.node_span(inserted_19, 1), Some(2));
    assert_eq!(list.node_span(inserted_7, 2), Some(4));
    assert_eq!(list.node_span(inserted_7, 3), Some(5));

    assert_eq!(list.count_element_upto(&Bound::new_inclusive(3)), 1);
    assert_eq!(list.count_element_upto(&Bound::new_exclusive(3)), 0);
    assert_eq!(list.count_element_upto(&Bound::new_inclusive(7)), 2);
    assert_eq!(list.count_element_upto(&Bound::new_exclusive(7)), 1);
    assert_eq!(list.count_element_upto(&Bound::new_inclusive(11)), 3);
    assert_eq!(list.count_element_upto(&Bound::new_exclusive(11)), 2);
    assert_eq!(list.count_element_upto(&Bound::new_inclusive(19)), 4);
    assert_eq!(list.count_element_upto(&Bound::new_exclusive(19)), 3);

    assert_eq!(list.range_count(Some(Bound::new_inclusive(3)), Some(Bound::new_exclusive(19))), 3);
    assert_eq!(list.range_count(Some(Bound::new_exclusive(3)), Some(Bound::new_exclusive(22))), 3);
    assert_eq!(list.range_count(Some(Bound::new_inclusive(4)), None), 6);
    assert_eq!(list.range_count(None, None), list.len());

    list.remove(22, &22);
    assert_eq!(list.node_span(inserted_19, 1), Some(1));
    assert_eq!(list.node_span(inserted_7, 2), Some(3));
    assert_eq!(list.node_span(inserted_7, 3), Some(4));

    list.remove(7, &7);
    assert_eq!(list.head_span(1), Some(2));
    assert_eq!(list.head_span(2), Some(4));
    assert_eq!(list.head_span(3), Some(5));

    list.remove(37, &37);
    assert_eq!(list.node_span(inserted_19, 1), Some(1));
    assert_eq!(list.head_span(2), Some(4));
    assert_eq!(list.head_span(3), Some(4));

    assert_eq!(list.range_count(Some(Bound::new_inclusive(4)), None), 3);
}

#[test]
fn check_clear() {
    let mut list = Skiplist::new();
    list.do_insert(22, 22, 1);
    assert_eq!(list.level(), 1);
    assert_eq!(list.len(), 1);
    list.do_insert(19, 19, 2);
    assert_eq!(list.level(), 2);
    assert_eq!(list.len(), 2);
    list.do_insert(7, 7, 4);
    assert_eq!(list.level(), 4);
    assert_eq!(list.len(), 3);
    list.do_insert(3, 3, 1);
    assert_eq!(list.level(), 4);
    assert_eq!(list.len(), 4);
    list.do_insert(37, 37, 3);
    assert_eq!(list.level(), 4);
    assert_eq!(list.len(), 5);
    list.clear();
    assert_eq!(list.len(), 0);
}

#[test]
fn check_level() {
    let mut list = Skiplist::new();
    list.do_insert(22, 22, 1);
    assert_eq!(list.level(), 1);
    assert_eq!(list.len(), 1);
    list.do_insert(19, 19, 2);
    assert_eq!(list.level(), 2);
    assert_eq!(list.len(), 2);
    list.do_insert(7, 7, 4);
    assert_eq!(list.level(), 4);
    assert_eq!(list.len(), 3);
    list.do_insert(3, 3, 1);
    assert_eq!(list.level(), 4);
    assert_eq!(list.len(), 4);
    list.do_insert(37, 37, 3);
    assert_eq!(list.level(), 4);
    assert_eq!(list.len(), 5);
    list.do_insert(11, 11, 1);
    assert_eq!(list.level(), 4);
    assert_eq!(list.len(), 6);
    list.do_insert(26, 26, 1);
    assert_eq!(list.level(), 4);
    assert_eq!(list.len(), 7);
    let r = list.do_range_tuple(None, None, 0, 0);
    assert_eq!(r, vec![(3, 3, 1), (7, 7, 4), (11, 11, 1), (19, 19, 2), (22, 22, 1), (26, 26, 1), (37, 37, 3)]);

    let r = list.do_range_tuple(Some(Bound::new(19, false)), None, 0, 3);
    assert_eq!(r, vec![(19, 19, 2), (22, 22, 1), (26, 26, 1)]);

    let r = list.do_range_tuple(Some(Bound::new(19, false)), None, 1, 2);
    assert_eq!(r, vec![(22, 22, 1), (26, 26, 1)]);

    let r = list.do_range_tuple(Some(Bound::new(19, false)), Some(Bound::new(22, false)), 0, 3);
    assert_eq!(r, vec![(19, 19, 2), (22, 22, 1)]);

    let r = list.do_range_tuple(Some(Bound::new(19, false)), Some(Bound::new(22, true)), 0, 3);
    assert_eq!(r, vec![(19, 19, 2)]);

    let hit = list.do_find(3, &3).unwrap();
    assert_eq!(hit.score, 3);
    assert_eq!(hit.data, 3);
    assert_eq!(hit.skiplevel, 1);
    assert!(list.do_find(22, &0).is_none());

    assert!(list.remove(3, &3));
    let r = list.do_range_tuple(None, None, 0, 0);
    assert_eq!(r, vec![(7, 7, 4), (11, 11, 1), (19, 19, 2), (22, 22, 1), (26, 26, 1), (37, 37, 3)]);

    assert!(!list.remove(3, &3));
    assert!(list.remove(11, &11));
    let r = list.do_range_tuple(None, None, 0, 0);
    assert_eq!(r, vec![(7, 7, 4), (19, 19, 2), (22, 22, 1), (26, 26, 1), (37, 37, 3)]);

    assert!(list.remove(37, &37));
    let r = list.do_range_tuple(None, None, 0, 0);
    assert_eq!(r, vec![(7, 7, 4), (19, 19, 2), (22, 22, 1), (26, 26, 1)]);

    assert!(!list.remove(37, &37));

    assert!(list.remove(19, &19));
    let r = list.do_range_tuple(None, None, 0, 0);
    assert_eq!(r, vec![(7, 7, 4), (22, 22, 1), (26, 26, 1)]);

    assert!(list.remove(26, &26));
    let r = list.do_range_tuple(None, None, 0, 0);
    assert_eq!(r, vec![(7, 7, 4), (22, 22, 1)]);

    assert!(list.remove(7, &7));
    let r = list.do_range_tuple(None, None, 0, 0);
    assert_eq!(r, vec![(22, 22, 1)]);

    assert!(list.remove(22, &22));
    let r = list.do_range_tuple(None, None, 0, 0);
    assert_eq!(r, vec![]);
}

#[test]
fn range_count_example_with_equal_scores() {
    let mut list = Skiplist::new();
    assert!(list.insert(1, 3));
    assert!(list.insert(2, 7));
    assert!(list.insert(3, 7));
    assert!(list.insert(4, 19));
    assert_eq!(list.range_count(Some(Bound::new_inclusive(7)), Some(Bound::new_exclusive(19))), 2);
    assert_eq!(list.range_count(None, None), 4);
}

#[test]
fn duplicate_insert_is_rejected() {
    let mut list = Skiplist::new();
    assert!(list.insert(5, 10));
    assert!(list.insert(6, 10));
    let before = list.do_range_tuple(None, None, 0, 0);
    assert!(!list.insert(5, 10));
    assert_eq!(list.len(), 2);
    assert_eq!(list.do_range_tuple(None, None, 0, 0), before);
    assert!(list.insert(5, 11));
    assert_eq!(list.len(), 3);
}

#[test]
fn range_matches_brute_force() {
    let mut list = Skiplist::new();
    let mut all: Vec<(i64, i64)> = Vec::new();
    let mut x: i64 = 17;
    for _ in 0..300 {
        x = (x * 1103515245 + 12345) % 2147483648;
        let score = x % 50;
        let member = (x / 50) % 20;
        let fresh = !all.contains(&(score, member));
        assert_eq!(list.insert(member, score), fresh);
        if fresh {
            all.push((score, member));
        }
    }
    all.sort();
    let bounds: Vec<Option<Bound>> = vec![
        None,
        Some(Bound::new_inclusive(10)),
        Some(Bound::new_exclusive(10)),
        Some(Bound::new_inclusive(30)),
        Some(Bound::new_exclusive(49)),
    ];
    for min in bounds.iter() {
        for max in bounds.iter() {
            for offset in [0usize, 1, 7, 500] {
                for limit in [0usize, 1, 5, 1000] {
                    let filtered: Vec<(i64, i64)> = all
                        .iter()
                        .filter(|(s, _)| {
                            let lo_ok = match min {
                                Some(b) => *s > b.bound || (*s == b.bound && !b.exclusive),
                                None => true,
                            };
                            let hi_ok = match max {
                                Some(b) => *s < b.bound || (*s == b.bound && !b.exclusive),
                                None => true,
                            };
                            lo_ok && hi_ok
                        })
                        .cloned()
                        .collect();
                    let expected: Vec<(i64, i64)> = filtered
                        .iter()
                        .skip(offset)
                        .take(if limit == 0 { usize::MAX } else { limit })
                        .cloned()
                        .collect();
                    let got: Vec<(i64, i64)> = list
                        .do_range_tuple(*min, *max, offset, limit)
                        .into_iter()
                        .map(|(s, m, _)| (s, m))
                        .collect();
                    assert_eq!(got, expected);
                    assert_eq!(list.range_count(*min, *max), filtered.len());
                }
            }
        }
    }
}
