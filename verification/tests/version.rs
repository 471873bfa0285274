//! Version vectors.
use stromadb::version::VersionVector;

#[test]
fn partial_order() {
    let a = VersionVector::new(10, 5);
    let b = VersionVector::new(8, 5);
    assert!(a.dominates(&b));
    assert!(a.comparable(&b));
    assert_eq!(a.skew(), 5);
    // concurrent: neither dominates
    let c = VersionVector::new(10, 2);
    let d = VersionVector::new(8, 4);
    assert!(!c.comparable(&d));
}
