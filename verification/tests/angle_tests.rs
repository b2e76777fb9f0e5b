use roadnet::junction::{hemisphere, Junction};

#[test]
fn test_reciprocal_exit() {
    assert_eq!(270, Junction::reciprocal(90));
    assert_eq!(90, Junction::reciprocal(270));
    assert_eq!(180, Junction::reciprocal(0));
    assert_eq!(0, Junction::reciprocal(180));
    assert_eq!(180, Junction::reciprocal(360));
    assert_eq!(45 + 180, Junction::reciprocal(360 + 45));
}

#[test]
fn test_reciprocal_involution() {
    for h in 0u32..360 {
        assert_eq!(h, Junction::reciprocal(Junction::reciprocal(h)));
    }
}

#[test]
fn test_normalise_exit() {
    assert_eq!(0, Junction::normalise_exit(0));
    assert_eq!(359, Junction::normalise_exit(-1));
    assert_eq!(0, Junction::normalise_exit(720));
    assert_eq!(0, Junction::normalise_exit(-720));
    assert_eq!(90, Junction::normalise_exit(90));
    assert_eq!(360 - 45, Junction::normalise_exit(-45));
}

#[test]
fn test_hemisphere() {
    assert_eq!(0, hemisphere(0));
    assert_eq!(0, hemisphere(45));
    assert_eq!(1, hemisphere(180));
    assert_eq!(0, hemisphere(270));
    assert_eq!(0, hemisphere(360));
    assert_eq!(1, hemisphere(90));
}
