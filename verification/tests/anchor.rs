use ranim::anchor::{Centroid, Focus, Origin};

#[test]
fn foci_of_an_ellipse() {
    assert!(Focus::pos().is_pos());
    assert!(!Focus::neg().is_pos());
    assert_eq!(Focus::pos(), Focus::pos());
    assert_ne!(Focus::pos(), Focus::neg());
    let _ = (Centroid, Origin);
}
