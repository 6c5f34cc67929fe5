use aigerox::reference::Ref;

#[test]
fn reference_round_trip() {
    for id in [1u32, 2, 3, 1000, 0x7fff_ffff] {
        for neg in [false, true] {
            let r = Ref::new(id, neg);
            assert_eq!(r.id(), id);
            assert_eq!(r.is_negated(), neg);
            assert_eq!(r.negated().negated(), r);
            assert_ne!(r.negated(), r);
            assert!(!r.is_const());
            assert_ne!(r, Ref::constant(false));
            assert_ne!(r, Ref::constant(true));
            assert_eq!(r.get_const(), None);
        }
    }
}

#[test]
fn reference_packing() {
    assert_eq!(Ref::new(3, true).raw(), 7);
    assert_eq!(Ref::positive(3).raw(), 6);
    assert_eq!(Ref::negative(2), Ref::from_raw(5));
    assert_eq!(Ref::from_raw(9).id(), 4);
    assert_eq!(Ref::negative(4).get(), -4);
    assert_eq!(Ref::positive(4).get(), 4);
}

#[test]
fn constants() {
    let f = Ref::constant(false);
    let t = Ref::constant(true);
    assert_eq!(f.raw(), 0);
    assert_eq!(t.raw(), 1);
    assert!(f.is_const() && t.is_const());
    assert!(f.is_false() && !f.is_true());
    assert!(t.is_true() && !t.is_false());
    assert_eq!(f.get_const(), Some(false));
    assert_eq!(t.get_const(), Some(true));
    assert_eq!(f.negated(), t);
    assert_eq!(t.get(), 0);
}
