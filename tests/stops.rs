use aitios_tex::{BlendType, GuidedBlend, Stop, Stops, StopsError};

fn stop(cenith: f32, name: &'static str) -> Stop<&'static str> {
    Stop::new(cenith.to_bits(), name).unwrap()
}

fn names<'a>(pair: (&'a Stop<&'static str>, &'a Stop<&'static str>)) -> (&'static str, &'static str) {
    (*pair.0.sample(), *pair.1.sample())
}

#[test]
fn stop_rejects_infinite_and_nan_ceniths() {
    assert_eq!(Stop::new(f32::INFINITY.to_bits(), ()).err(), Some(StopsError::NonFiniteCenith));
    assert_eq!(Stop::new(f32::NEG_INFINITY.to_bits(), ()).err(), Some(StopsError::NonFiniteCenith));
    assert_eq!(Stop::new(f32::NAN.to_bits(), ()).err(), Some(StopsError::NonFiniteCenith));
    assert!(Stop::new(f32::MAX.to_bits(), ()).is_ok());
    assert!(Stop::new((-0.0f32).to_bits(), ()).is_ok());
}

#[test]
fn stop_keeps_cenith_and_sample() {
    let s = stop(0.25, "grey");
    assert_eq!(f32::from_bits(s.cenith()), 0.25);
    assert_eq!(*s.sample(), "grey");
}

#[test]
fn empty_stops_are_rejected() {
    let empty: Vec<Stop<()>> = Vec::new();
    assert_eq!(Stops::new(empty).err(), Some(StopsError::Empty));
    let empty: Vec<Stop<()>> = Vec::new();
    assert_eq!(GuidedBlend::new(empty).err(), Some(StopsError::Empty));
}

#[test]
fn stops_are_sorted_by_cenith() {
    let stops = Stops::new(vec![stop(1.0, "white"), stop(-0.5, "neg"), stop(0.5, "grey"), stop(-2.0, "low")]).unwrap();
    assert_eq!(stops.len(), 4);
    assert_eq!(names(stops.stops_before_after((-3.0f32).to_bits())), ("low", "low"));
    assert_eq!(names(stops.stops_before_after((-2.0f32).to_bits())), ("low", "neg"));
    assert_eq!(names(stops.stops_before_after((-1.0f32).to_bits())), ("low", "neg"));
    assert_eq!(names(stops.stops_before_after(0.0f32.to_bits())), ("neg", "grey"));
    assert_eq!(names(stops.stops_before_after(0.5f32.to_bits())), ("grey", "white"));
    assert_eq!(names(stops.stops_before_after(0.75f32.to_bits())), ("grey", "white"));
    assert_eq!(names(stops.stops_before_after(1.0f32.to_bits())), ("white", "white"));
    assert_eq!(names(stops.stops_before_after(f32::INFINITY.to_bits())), ("white", "white"));
    assert_eq!(names(stops.stops_before_after(f32::NAN.to_bits())), ("white", "white"));
}

#[test]
fn single_stop_is_returned_twice() {
    let stops = Stops::new(vec![stop(0.5, "only")]).unwrap();
    assert_eq!(names(stops.stops_before_after(0.0f32.to_bits())), ("only", "only"));
    assert_eq!(names(stops.stops_before_after(0.5f32.to_bits())), ("only", "only"));
    assert_eq!(names(stops.stops_before_after(0.9f32.to_bits())), ("only", "only"));
}

#[test]
fn equal_ceniths_keep_their_order() {
    let stops = Stops::new(vec![stop(0.0, "a"), stop(1.0, "b"), stop(1.0, "c"), stop(2.0, "d")]).unwrap();
    assert_eq!(names(stops.stops_before_after(1.5f32.to_bits())), ("c", "d"));
    assert_eq!(names(stops.stops_before_after(0.5f32.to_bits())), ("a", "b"));
}

#[test]
fn negative_and_positive_zero_are_equal_ceniths() {
    let stops = Stops::new(vec![stop(-0.0, "neg_zero"), stop(1.0, "one")]).unwrap();
    assert_eq!(names(stops.stops_before_after(0.0f32.to_bits())), ("neg_zero", "one"));
}

#[test]
fn guided_blend_keeps_its_type() {
    let blend = GuidedBlend::new(vec![stop(0.0, "black"), stop(1.0, "white")]).unwrap();
    assert_eq!(blend.blend_type, BlendType::Linear);
    let normal = GuidedBlend::with_type(vec![stop(0.0, "flat")], BlendType::Normal).unwrap();
    assert_eq!(normal.blend_type, BlendType::Normal);
    assert_eq!(names(normal.stops.stops_before_after(0.3f32.to_bits())), ("flat", "flat"));
}
