use subranges::interval::Interval;

#[test]
fn connect() {
    let i1 = Interval::new(0, 10);
    let i2 = Interval::new(15, 10);
    let conn = i1.connect(&i2);
    assert_eq!(conn.start(), i1.start());
    assert_eq!(conn.end(), i2.end());

    let conn_refl = i2.connect(&i1);
    assert_eq!(conn, conn_refl);
}

#[test]
fn split() {
    let i = Interval::new(0, 10);
    let sp = 3;
    let (s1, s2) = i.split(sp);
    assert_eq!(s1.start(), i.start());
    assert_eq!(s1.len(), sp);
    assert_eq!(s2.len(), i.len() - s1.len());
    assert_eq!(s2.start(), s1.end())
}

#[test]
fn join() {
    let i1 = Interval::new(0, 10);
    let i2 = Interval::new(5, 10);
    let i3 = Interval::new(20, 10);
    let join = i1.try_join(&i2).unwrap();
    assert_eq!(join.start(), i1.start());
    assert_eq!(join.end(), i2.end());

    let join_refl = i2.try_join(&i1).unwrap();
    assert_eq!(join, join_refl);

    assert!(i1.try_join(&i3).is_none());
    assert!(i3.try_join(&i1).is_none());
}

#[test]
fn accessors() {
    let i = Interval::new(7, 5);
    assert_eq!(i.start(), 7);
    assert_eq!(i.len(), 5);
    assert_eq!(i.end(), 12);
    assert!(!i.is_empty());
    assert!(Interval::new(7, 0).is_empty());
    assert_eq!(Interval::new(u64::MAX - 1, 1).end(), u64::MAX);
}

#[test]
fn contains_is_half_open() {
    let i = Interval::new(7, 5);
    assert!(!i.contains(6));
    assert!(i.contains(7));
    assert!(i.contains(11));
    assert!(!i.contains(12));
    assert!(!Interval::new(7, 0).contains(7));
}

#[test]
fn intersect_needs_a_shared_point() {
    let a = Interval::new(0, 10);
    assert!(a.intersect(&Interval::new(9, 3)));
    assert!(a.intersect(&Interval::new(2, 3)));
    assert!(!a.intersect(&Interval::new(10, 3)));
    assert!(!a.intersect(&Interval::new(11, 3)));
    assert!(!a.intersect(&Interval::new(5, 0)));
    assert!(Interval::new(u64::MAX - 5, 5).intersect(&Interval::new(u64::MAX - 1, 1)));
}

#[test]
fn near_allows_touching_but_not_a_gap() {
    let a = Interval::new(0, 10);
    assert!(a.near(&Interval::new(10, 3)));
    assert!(Interval::new(10, 3).near(&a));
    assert!(a.near(&Interval::new(4, 2)));
    assert!(!a.near(&Interval::new(11, 3)));
    assert!(!Interval::new(11, 3).near(&a));
}

#[test]
fn connect_covers_a_gap() {
    let c = Interval::new(20, 5).connect(&Interval::new(2, 3));
    assert_eq!(c, Interval::new(2, 23));
    let inner = Interval::new(0, 10).connect(&Interval::new(3, 2));
    assert_eq!(inner, Interval::new(0, 10));
}

#[test]
fn try_join_touching() {
    let j = Interval::new(0, 4).try_join(&Interval::new(4, 6));
    assert_eq!(j, Some(Interval::new(0, 10)));
    assert_eq!(Interval::new(0, 4).try_join(&Interval::new(5, 6)), None);
}

#[test]
fn split_at_the_ends() {
    let i = Interval::new(4, 6);
    assert_eq!(i.split(0), (Interval::new(4, 0), Interval::new(4, 6)));
    assert_eq!(i.split(6), (Interval::new(4, 6), Interval::new(10, 0)));
}

#[test]
fn iter_yields_each_point() {
    let i = Interval::new(5, 3);
    let mut it = i.iter();
    assert_eq!(it.next(), Some(5));
    assert_eq!(it.next(), Some(6));
    assert_eq!(it.next(), Some(7));
    assert_eq!(it.next(), None);
    assert_eq!(it.next(), None);
    let mut again = i.iter();
    assert_eq!(again.next(), Some(5));
    assert_eq!(Interval::new(9, 0).iter().next(), None);
}

#[test]
fn from_range() {
    let i: Interval = (3..9).into();
    assert_eq!(i, Interval::new(3, 6));
    #[allow(clippy::reversed_empty_ranges)]
    let empty: Interval = (9..3).into();
    assert_eq!(empty, Interval::new(9, 0));
}
