use asm_tl::parser::options::ParserOptions;

#[test]
fn defaults_track_nothing() {
    let o = ParserOptions::default();
    assert_eq!(o.to_raw(), 0);
    assert!(!o.is_tracking());
    assert!(!o.is_tracking_ids());
    assert!(!o.is_tracking_classes());
    assert_eq!(ParserOptions::new(), o);
}

#[test]
fn tracking_flags() {
    let ids = ParserOptions::new().track_ids();
    assert_eq!(ids.to_raw(), 1);
    assert!(ids.is_tracking_ids() && !ids.is_tracking_classes() && ids.is_tracking());
    let classes = ParserOptions::new().track_classes();
    assert_eq!(classes.to_raw(), 2);
    assert!(!classes.is_tracking_ids() && classes.is_tracking_classes());
    let both = ParserOptions::new().track_ids().track_classes();
    assert_eq!(both.to_raw(), 3);
    assert_eq!(both, ParserOptions::new().track_classes().track_ids());
    assert_eq!(ids.track_ids(), ids);
}

#[test]
fn raw_round_trip() {
    for raw in 0u8..=3 {
        let o = ParserOptions::from_raw_checked(raw).unwrap();
        assert_eq!(o.to_raw(), raw);
        assert_eq!(ParserOptions::from_raw_checked(o.to_raw()), Some(o));
    }
    assert_eq!(ParserOptions::from_raw_checked(4), None);
    assert_eq!(ParserOptions::from_raw_checked(255), None);
}
