use subranges::interval::Interval;
use subranges::Subranges;

#[test]
fn subranges_take_and_erase() {
    let mut s = Subranges::new(Interval::new(0, 16));
    assert_eq!(s.len(), 16);
    assert!(!s.is_empty());
    let a = s.take_free_subrange(6).unwrap();
    assert_eq!(a, Interval::new(0, 6));
    let b = s.take_free_align_subrange(4, 8).unwrap();
    assert_eq!(b, Interval::new(8, 4));
    assert_eq!(s.take_free_subrange(5), None);
    let c = s.take_free_subrange(2).unwrap();
    assert_eq!(c, Interval::new(6, 2));
    s.erase_subrange(a);
    s.erase_subrange(c);
    assert_eq!(s.take_free_subrange(8), Some(Interval::new(0, 8)));
    assert_eq!(s.len(), 16);
}

#[test]
fn subranges_empty_range() {
    let mut s = Subranges::new(Interval::new(5, 0));
    assert!(s.is_empty());
    assert_eq!(s.len(), 0);
    assert_eq!(s.take_free_subrange(1), None);
    assert_eq!(s.take_free_align_subrange(1, 2), None);
}
