use subranges::collection::FreeIntervals;
use subranges::interval::Interval;

fn test_data() -> FreeIntervals {
    let mut coll = FreeIntervals::default();
    let free_interval = Interval::new(0, 10);
    coll.insert(free_interval);
    coll
}

fn members(coll: &FreeIntervals) -> Vec<(u64, u64)> {
    coll.iter().map(|i| (i.start(), i.len())).collect()
}

#[test]
fn take_enough() {
    let mut coll = test_data();
    let seven_len = coll.take_enough(7).unwrap();
    assert!(seven_len.len() > 7);
    assert!(coll.take_enough(1).is_none());
}

#[test]
fn insert_non_intersect() {
    let mut coll = test_data();
    coll.insert(Interval::new(15, 5));
    let mut it = coll.iter();
    assert_eq!(it.next().unwrap().len(), 5);
    assert_eq!(it.next().unwrap().len(), 10);
    assert!(it.next().is_none());
}

#[test]
fn insert_intersect() {
    let mut coll = test_data();
    coll.insert(Interval::new(15, 5));
    coll.insert(Interval::new(8, 10));
    let mut it = coll.iter();
    assert_eq!(it.next().unwrap().len(), 20);
    assert!(it.next().is_none());
}

#[test]
fn take_enough_none() {
    let mut coll = test_data();
    coll.insert(Interval::new(15, 5));
    assert!(coll.take_enough(15).is_none());
}

#[test]
fn take_enough_twice() {
    let mut coll = test_data();
    coll.insert(Interval::new(15, 5));
    coll.insert(Interval::new(25, 3));
    assert_eq!(coll.take_enough(3).unwrap().len(), 3);
    assert_eq!(coll.take_enough(5).unwrap().len(), 5);
    assert_eq!(coll.take_enough(10).unwrap().len(), 10);
    assert!(coll.take_enough(1).is_none());
}

#[test]
fn take_exact() {
    let mut coll = test_data();
    coll.insert(Interval::new(15, 5));
    coll.insert(Interval::new(25, 3));
    assert_eq!(coll.take_exact(2).unwrap().len(), 2);
    assert_eq!(coll.take_exact(2).unwrap().len(), 2);
    let mut it = coll.iter();
    assert_eq!(it.next().unwrap().len(), 1);
    assert_eq!(it.next().unwrap().len(), 3);
    assert_eq!(it.next().unwrap().len(), 10);
    assert!(it.next().is_none());
}

#[test]
fn take_exact_align() {
    let mut coll = FreeIntervals::default();
    let free_interval = Interval::new(0, 30);
    coll.insert(free_interval);

    let len = 15;
    let align = 2;
    let int = coll.take_exact_aligned(len, align).unwrap();
    assert_eq!(int.start() % align, 0);
    assert_eq!(int.len(), len);

    let len = 4;
    let align = 4;
    let int = coll.take_exact_aligned(len, align).unwrap();
    assert_eq!(int.start() % align, 0);
    assert_eq!(int.len(), len);

    let mut iter = coll.iter();
    assert_eq!(*iter.next().unwrap(), Interval::new(15, 1));
    assert_eq!(*iter.next().unwrap(), Interval::new(20, 10));
    assert!(iter.next().is_none());
}

#[test]
fn take_exact_none() {
    let mut coll = test_data();
    coll.insert(Interval::new(15, 5));
    coll.insert(Interval::new(25, 3));
    assert!(coll.take_exact(20).is_none());
}

#[test]
fn insert_different_intervals_with_same_size() {
    let mut collection = FreeIntervals::new((0..9).into());

    let taken1 = collection.take_exact(3).unwrap();
    let taken2 = collection.take_exact(3).unwrap();

    {
        let mut iter = collection.iter();
        assert_eq!(iter.next().unwrap().len(), 3);
        assert!(iter.next().is_none());
    }

    collection.insert(taken1);
    collection.insert(taken2);
    collection.take_exact(9).unwrap();
}

#[test]
fn take_enough_whole_seed_then_nothing() {
    let mut coll = FreeIntervals::new(Interval::new(0, 10));
    assert_eq!(coll.take_enough(7), Some(Interval::new(0, 10)));
    assert!(coll.take_enough(1).is_none());
    assert_eq!(coll.iter().count(), 0);
}

#[test]
fn take_enough_picks_smallest_fit_then_lowest_start() {
    let mut coll = FreeIntervals::new(Interval::new(0, 4));
    coll.insert(Interval::new(10, 4));
    coll.insert(Interval::new(20, 2));
    coll.insert(Interval::new(30, 8));
    assert_eq!(members(&coll), vec![(20, 2), (0, 4), (10, 4), (30, 8)]);
    assert_eq!(coll.take_enough(3), Some(Interval::new(0, 4)));
    assert_eq!(coll.take_enough(3), Some(Interval::new(10, 4)));
    assert_eq!(coll.take_enough(3), Some(Interval::new(30, 8)));
    assert_eq!(coll.take_enough(3), None);
    assert_eq!(members(&coll), vec![(20, 2)]);
}

#[test]
fn take_enough_zero_takes_smallest_member() {
    let mut coll = FreeIntervals::new(Interval::new(0, 4));
    coll.insert(Interval::new(10, 2));
    assert_eq!(coll.take_enough(0), Some(Interval::new(10, 2)));
}

#[test]
fn take_exact_leaves_the_rest_free() {
    let mut coll = FreeIntervals::new(Interval::new(5, 10));
    assert_eq!(coll.take_exact(4), Some(Interval::new(5, 4)));
    assert_eq!(members(&coll), vec![(9, 6)]);
    assert_eq!(coll.take_exact(6), Some(Interval::new(9, 6)));
    assert_eq!(members(&coll), vec![]);
}

#[test]
fn take_exact_then_insert_restores_the_set() {
    let mut coll = FreeIntervals::new(Interval::new(0, 10));
    coll.insert(Interval::new(20, 5));
    coll.insert(Interval::new(40, 3));
    let before = members(&coll);
    let t = coll.take_exact(4).unwrap();
    assert_eq!(t, Interval::new(20, 4));
    assert_ne!(members(&coll), before);
    coll.insert(t);
    assert_eq!(members(&coll), before);
}

#[test]
fn free_length_is_conserved() {
    let mut coll = FreeIntervals::new(Interval::new(0, 100));
    let a = coll.take_exact(30).unwrap();
    let b = coll.take_exact_aligned(10, 8).unwrap();
    let free: u64 = coll.iter().map(|i| i.len()).sum();
    assert_eq!(free + a.len() + b.len(), 100);
    coll.insert(a);
    let free: u64 = coll.iter().map(|i| i.len()).sum();
    assert_eq!(free + b.len(), 100);
    coll.insert(b);
    assert_eq!(members(&coll), vec![(0, 100)]);
}

#[test]
fn insert_merges_touching_and_overlapping_members() {
    let mut coll = FreeIntervals::new(Interval::new(0, 10));
    coll.insert(Interval::new(10, 5));
    assert_eq!(members(&coll), vec![(0, 15)]);
    coll.insert(Interval::new(20, 5));
    coll.insert(Interval::new(30, 5));
    coll.insert(Interval::new(12, 20));
    assert_eq!(members(&coll), vec![(0, 35)]);
}

#[test]
fn insert_keeps_members_apart() {
    let mut coll = FreeIntervals::default();
    coll.insert(Interval::new(10, 2));
    coll.insert(Interval::new(0, 3));
    coll.insert(Interval::new(13, 7));
    coll.insert(Interval::new(4, 5));
    let ms: Vec<Interval> = coll.iter().copied().collect();
    for (i, a) in ms.iter().enumerate() {
        for (j, b) in ms.iter().enumerate() {
            if i != j {
                assert!(!a.near(b));
                assert!(!a.intersect(b));
            }
        }
    }
    assert_eq!(members(&coll), vec![(10, 2), (0, 3), (4, 5), (13, 7)]);
}

#[test]
fn insert_empty_interval_changes_nothing() {
    let mut coll = FreeIntervals::new(Interval::new(0, 10));
    coll.insert(Interval::new(50, 0));
    coll.insert(Interval::new(10, 0));
    assert_eq!(members(&coll), vec![(0, 10)]);
    let empty = FreeIntervals::new(Interval::new(3, 0));
    assert_eq!(empty.iter().count(), 0);
}

#[test]
fn take_enough_aligned_scans_past_unaligned_members() {
    let mut coll = FreeIntervals::new(Interval::new(1, 4));
    coll.insert(Interval::new(9, 5));
    coll.insert(Interval::new(24, 6));
    // [1,5) needs 3 points of padding, [9,14) needs 7: only [24,30) fits.
    assert_eq!(coll.take_enough_aligned(4, 8), Some(Interval::new(24, 6)));
    assert_eq!(coll.take_enough_aligned(4, 8), None);
    assert_eq!(members(&coll), vec![(1, 4), (9, 5)]);
}

#[test]
fn take_exact_aligned_returns_padding_and_tail() {
    let mut coll = FreeIntervals::new(Interval::new(3, 20));
    assert_eq!(coll.take_exact_aligned(5, 4), Some(Interval::new(4, 5)));
    assert_eq!(members(&coll), vec![(3, 1), (9, 14)]);
}

#[test]
fn take_exact_aligned_without_alignment() {
    let mut coll = FreeIntervals::new(Interval::new(3, 10));
    assert_eq!(coll.take_exact_aligned(4, 0), Some(Interval::new(3, 4)));
    assert_eq!(coll.take_exact_aligned(4, 1), Some(Interval::new(7, 4)));
    assert_eq!(members(&coll), vec![(11, 2)]);
}

#[test]
fn take_exact_aligned_none_leaves_set() {
    let mut coll = FreeIntervals::new(Interval::new(1, 6));
    assert_eq!(coll.take_exact_aligned(4, 4), None);
    assert_eq!(members(&coll), vec![(1, 6)]);
}

#[test]
fn take_exact_aligned_zero_length_keeps_set_merged() {
    let mut coll = FreeIntervals::new(Interval::new(3, 10));
    assert_eq!(coll.take_exact_aligned(0, 4), Some(Interval::new(4, 0)));
    assert_eq!(members(&coll), vec![(3, 10)]);
}

#[test]
fn clear_leaves_set_unchanged() {
    let mut coll = FreeIntervals::new(Interval::new(0, 10));
    coll.take_exact(3);
    coll.clear();
    assert_eq!(members(&coll), vec![(3, 7)]);
}
