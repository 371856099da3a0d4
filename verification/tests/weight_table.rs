use casper::{Error, Weights};

#[test]
fn accepts_a_plain_table() {
    let w = Weights::new(vec![(1, 10), (2, 20)]).unwrap();
    assert_eq!(w.len(), 2);
    assert_eq!(w.get(1), Some(10));
    assert_eq!(w.get(2), Some(20));
    assert_eq!(w.get(3), None);
}

#[test]
fn accepts_an_empty_table() {
    let w = Weights::new(vec![]).unwrap();
    assert_eq!(w.len(), 0);
    assert_eq!(w.get(1), None);
}

#[test]
fn rejects_the_reserved_validator() {
    assert!(matches!(
        Weights::new(vec![(1, 1), (0, 5)]),
        Err(Error::ReservedValidator)
    ));
}

#[test]
fn rejects_a_duplicate_validator() {
    assert!(matches!(
        Weights::new(vec![(1, 1), (2, 2), (1, 3)]),
        Err(Error::DuplicateValidator)
    ));
}

#[test]
fn rejects_a_total_weight_that_overflows() {
    assert!(matches!(
        Weights::new(vec![(1, u64::MAX), (2, 1)]),
        Err(Error::WeightOverflow)
    ));
}
